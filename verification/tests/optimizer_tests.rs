use rustbrush::painting::optimizer::optimize_2opt;
use rustbrush::painting::segments::PaintSegment;

/// Sum of distances from the end of each segment to the start of the next.
fn total_travel_distance(segments: &[PaintSegment]) -> f64 {
    if segments.len() <= 1 {
        return 0.0;
    }
    let mut total = 0.0f64;
    for i in 0..segments.len() - 1 {
        let (ex, ey) = segments[i].end_point();
        let (sx, sy) = segments[i + 1].start_point();
        let dx = ex as f64 - sx as f64;
        let dy = ey as f64 - sy as f64;
        total += (dx * dx + dy * dy).sqrt();
    }
    total
}

/// Percentage by which the travel distance went down.
fn improvement_pct(before: f64, after: f64) -> f64 {
    if before > 0.0 {
        (1.0 - after / before) * 100.0
    } else {
        0.0
    }
}

#[test]
fn test_noop_on_optimal_path() {
    let mut segments = vec![PaintSegment::Pixel(0, 0), PaintSegment::Pixel(1, 0), PaintSegment::Pixel(2, 0)];
    let before = total_travel_distance(&segments);
    optimize_2opt(&mut segments, 0);
    assert_eq!(segments[0].start_point(), (0, 0));
    assert_eq!(segments[1].start_point(), (1, 0));
    assert_eq!(segments[2].start_point(), (2, 0));
    assert!(improvement_pct(before, total_travel_distance(&segments)).abs() < 0.01);
}

#[test]
fn test_improvement_on_bad_ordering() {
    let mut segments = vec![
        PaintSegment::Pixel(0, 0),
        PaintSegment::Pixel(100, 0),
        PaintSegment::Pixel(1, 0),
        PaintSegment::Pixel(99, 0),
        PaintSegment::Pixel(2, 0),
    ];
    let before = total_travel_distance(&segments);
    optimize_2opt(&mut segments, 0);
    let after = total_travel_distance(&segments);
    assert!(after < before, "2-opt should reduce distance: {} -> {}", before, after);
    assert!(improvement_pct(before, after) > 0.0);
}

#[test]
fn test_preservation() {
    let mut segments = vec![
        PaintSegment::Pixel(10, 20),
        PaintSegment::Pixel(50, 80),
        PaintSegment::Pixel(5, 5),
        PaintSegment::HLine { y: 30, x_start: 0, x_end: 15 },
        PaintSegment::Pixel(90, 10),
    ];
    let original_count = segments.len();
    let mut original_starts: Vec<(u32, u32)> = segments.iter().map(|s| s.start_point()).collect();
    original_starts.sort();
    optimize_2opt(&mut segments, 0);
    assert_eq!(segments.len(), original_count);
    let mut new_starts: Vec<(u32, u32)> = segments.iter().map(|s| s.start_point()).collect();
    new_starts.sort();
    assert_eq!(original_starts, new_starts);
}

#[test]
fn test_large_input() {
    let mut segments: Vec<PaintSegment> = (0..2000)
        .map(|i| {
            let x = ((i * 97) % 256) as u32;
            let y = ((i * 53) % 128) as u32;
            PaintSegment::Pixel(x, y)
        })
        .collect();
    let before = total_travel_distance(&segments);
    optimize_2opt(&mut segments, 3);
    let after = total_travel_distance(&segments);
    assert!(after <= before, "Should not worsen: {} -> {}", before, after);
    assert_eq!(segments.len(), 2000, "No segments lost");
    assert!(improvement_pct(before, after) >= 0.0);
}

#[test]
fn test_hline_segments() {
    let mut segments = vec![
        PaintSegment::HLine { y: 0, x_start: 0, x_end: 50 },
        PaintSegment::Pixel(200, 100),
        PaintSegment::HLine { y: 1, x_start: 0, x_end: 50 },
    ];
    let before = total_travel_distance(&segments);
    optimize_2opt(&mut segments, 0);
    let after = total_travel_distance(&segments);
    assert!(after <= before);
}

#[test]
fn test_two_segments() {
    let mut segments = vec![PaintSegment::Pixel(0, 0), PaintSegment::Pixel(10, 10)];
    let before = total_travel_distance(&segments);
    optimize_2opt(&mut segments, 0);
    assert_eq!(improvement_pct(before, total_travel_distance(&segments)), 0.0);
}

#[test]
fn test_empty_and_single() {
    let mut empty: Vec<PaintSegment> = vec![];
    optimize_2opt(&mut empty, 0);
    assert_eq!(improvement_pct(0.0, total_travel_distance(&empty)), 0.0);

    let mut single = vec![PaintSegment::Pixel(5, 5)];
    optimize_2opt(&mut single, 0);
    assert_eq!(improvement_pct(0.0, total_travel_distance(&single)), 0.0);
}

#[test]
fn reversal_is_applied_once_it_helps() {
    // reversing the middle two removes the long crossing hops
    let mut segments = vec![
        PaintSegment::Pixel(0, 0),
        PaintSegment::Pixel(2, 0),
        PaintSegment::Pixel(1, 0),
        PaintSegment::Pixel(3, 0),
    ];
    optimize_2opt(&mut segments, 0);
    let starts: Vec<(u32, u32)> = segments.iter().map(|s| s.start_point()).collect();
    assert_eq!(starts, vec![(0, 0), (1, 0), (2, 0), (3, 0)]);
}

/// Squared lengths of the moves between segments, summed.
fn squared_travel(segments: &[PaintSegment]) -> u128 {
    segments
        .windows(2)
        .map(|w| {
            let (ex, ey) = w[0].end_point();
            let (sx, sy) = w[1].start_point();
            let dx = ex as i128 - sx as i128;
            let dy = ey as i128 - sy as i128;
            (dx * dx + dy * dy) as u128
        })
        .sum()
}

#[test]
fn reversal_that_lengthens_the_path_is_not_applied() {
    let mut segments = vec![
        PaintSegment::Pixel(0, 0),
        PaintSegment::Pixel(2, 0),
        PaintSegment::HLine { y: 0, x_start: 1, x_end: 100 },
    ];
    let before = squared_travel(&segments);
    optimize_2opt(&mut segments, 0);
    assert_eq!(squared_travel(&segments), before);
    assert_eq!(segments[1].start_point(), (2, 0));
    assert_eq!(segments[2].start_point(), (1, 0));
}

#[test]
fn squared_travel_never_grows() {
    let mut segments: Vec<PaintSegment> = (0..300u32)
        .map(|i| {
            if i % 3 == 0 {
                PaintSegment::HLine { y: (i * 31) % 64, x_start: (i * 7) % 50, x_end: (i * 7) % 50 + (i % 9) }
            } else {
                PaintSegment::Pixel((i * 97) % 256, (i * 53) % 128)
            }
        })
        .collect();
    let before = squared_travel(&segments);
    optimize_2opt(&mut segments, 0);
    assert!(squared_travel(&segments) < before);
}
