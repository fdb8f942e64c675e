//! The library of ready-made sign images: its items and their categories.

use vstd::prelude::*;
use vstd::string::StringExecFns;

verus! {

/// Name and category of each library item, in order.
pub open spec fn item_table() -> Seq<(Seq<char>, Seq<char>)> {
    seq![
        ("Arrow Up"@, "Arrows"@),
        ("Arrow Down"@, "Arrows"@),
        ("Arrow Left"@, "Arrows"@),
        ("Arrow Right"@, "Arrows"@),
        ("Danger Triangle"@, "Warning Signs"@),
        ("Radiation"@, "Warning Signs"@),
        ("No Entry"@, "Warning Signs"@),
        ("High Voltage"@, "Warning Signs"@),
        ("Skull"@, "Warning Signs"@),
        ("Biohazard"@, "Warning Signs"@),
        ("Checkmark"@, "Symbols"@),
        ("X Mark"@, "Symbols"@),
        ("Heart"@, "Symbols"@),
        ("Star"@, "Symbols"@),
        ("Peace"@, "Symbols"@),
        ("Crosshair"@, "Symbols"@),
        ("Simple Border"@, "Borders"@),
        ("Double Border"@, "Borders"@),
        ("Corner Frame"@, "Borders"@),
        ("Dashed Border"@, "Borders"@),
        ("KEEP OUT"@, "Text Labels"@),
        ("DANGER"@, "Text Labels"@),
        ("PRIVATE"@, "Text Labels"@),
        ("SHOP"@, "Text Labels"@)
    ]
}

/// `s` with each run of equal neighbours reduced to one.
pub open spec fn dedup_runs(s: Seq<Seq<char>>) -> Seq<Seq<char>>
    decreases s.len(),
{
    if s.len() == 0 {
        Seq::empty()
    } else {
        let d = dedup_runs(s.drop_last());
        if d.len() > 0 && d.last() == s.last() {
            d
        } else {
            d.push(s.last())
        }
    }
}

/// The category of each item, in item order.
pub open spec fn item_categories() -> Seq<Seq<char>> {
    item_table().map_values(|e: (Seq<char>, Seq<char>)| e.1)
}

/// The library's category names, in item order, each once.
pub fn categories() -> (cats: Vec<&'static str>)
    ensures
        cats@.map_values(|s: &'static str| s@) == dedup_runs(item_categories()),
{
    let all: Vec<&'static str> = vec![
        "Arrows", "Arrows", "Arrows", "Arrows",
        "Warning Signs", "Warning Signs", "Warning Signs", "Warning Signs", "Warning Signs", "Warning Signs",
        "Symbols", "Symbols", "Symbols", "Symbols", "Symbols", "Symbols",
        "Borders", "Borders", "Borders", "Borders",
        "Text Labels", "Text Labels", "Text Labels", "Text Labels",
    ];
    let ghost views = all@.map_values(|s: &'static str| s@);
    assert(views =~= item_categories());
    let mut cats: Vec<&'static str> = Vec::new();
    let mut i: usize = 0;
    while i < all.len()
        invariant
            0 <= i <= all@.len(),
            views == all@.map_values(|s: &'static str| s@),
            cats@.map_values(|s: &'static str| s@) == dedup_runs(views.take(i as int)),
        decreases all@.len() - i,
    {
        let c = all[i];
        proof {
            assert(views.take(i + 1).drop_last() =~= views.take(i as int));
        }
        let ghost before = cats@;
        if cats.len() > 0 && String::from_str(cats[cats.len() - 1]) == String::from_str(c) {
        } else {
            cats.push(c);
            proof {
                assert(cats@.map_values(|s: &'static str| s@) =~= before.map_values(|s: &'static str| s@).push(c@));
            }
        }
        i += 1;
    }
    assert(views.take(all@.len() as int) =~= views);
    cats
}

} // verus!
