//! Canvas dimension presets for the game's sign types.

use vstd::prelude::*;
use vstd::string::StringExecFns;
use crate::strings::{decimal, lower_text, push_char, push_decimal, to_lower};

verus! {

/// A canvas preset with width and height in pixels.
#[derive(Debug, Clone, Copy, PartialEq, Eq)]
pub struct CanvasPreset {
    pub name: &'static str,
    pub width: u32,
    pub height: u32,
}

impl CanvasPreset {
    pub fn new(name: &'static str, width: u32, height: u32) -> (p: Self)
        ensures
            p.name == name,
            p.width == width,
            p.height == height,
    {
        CanvasPreset { name, width, height }
    }

    /// The preset as `name (WIDTHxHEIGHT)`.
    pub fn label(&self) -> (s: String)
        ensures
            s@ == self.name@ + seq![' ', '('] + decimal(self.width as nat) + seq!['x'] + decimal(
                self.height as nat,
            ) + seq![')'],
    {
        let mut s = String::from_str(self.name);
        push_char(&mut s, ' ');
        push_char(&mut s, '(');
        push_decimal(&mut s, self.width as u64);
        push_char(&mut s, 'x');
        push_decimal(&mut s, self.height as u64);
        push_char(&mut s, ')');
        assert(s@ =~= self.name@ + seq![' ', '('] + decimal(self.width as nat) + seq!['x'] + decimal(
            self.height as nat,
        ) + seq![')']);
        s
    }
}

/// Name, width and height of every preset, in order.
pub open spec fn preset_table() -> Seq<(Seq<char>, u32, u32)> {
    seq![
        ("Small Wooden Sign"@, 128u32, 64u32),
        ("Wooden Sign"@, 256u32, 128u32),
        ("Large Wooden Sign"@, 256u32, 128u32),
        ("Huge Wooden Sign"@, 512u32, 128u32),
        ("Two Sided Hanging Sign"@, 256u32, 128u32),
        ("Small Banner"@, 64u32, 256u32),
        ("Large Banner"@, 64u32, 512u32),
        ("Portrait Frame"@, 256u32, 256u32),
        ("Landscape Frame"@, 256u32, 128u32),
        ("Tall Picture Frame"@, 128u32, 256u32),
        ("XL Picture Frame"@, 512u32, 512u32),
        ("XXL Picture Frame"@, 1024u32, 512u32),
        ("Spinning Wheel"@, 256u32, 256u32),
        ("Small Neon Sign"@, 128u32, 128u32),
        ("Neon Sign"@, 256u32, 128u32),
        ("Large Neon Sign"@, 256u32, 256u32),
        ("Large Animated Neon Sign"@, 256u32, 256u32),
        ("Photo Frame"@, 320u32, 240u32)
    ]
}

/// The preset as a (name, width, height) triple.
pub open spec fn preset_entry(p: CanvasPreset) -> (Seq<char>, u32, u32) {
    (p.name@, p.width, p.height)
}

/// All available canvas presets, based on the game's canvas dimensions.
pub fn all_presets() -> (presets: Vec<CanvasPreset>)
    ensures
        presets@.len() == preset_table().len(),
        forall|i: int| 0 <= i < presets@.len() ==> preset_entry(#[trigger] presets@[i]) == preset_table()[i],
{
    let presets = vec![
        CanvasPreset::new("Small Wooden Sign", 128, 64),
        CanvasPreset::new("Wooden Sign", 256, 128),
        CanvasPreset::new("Large Wooden Sign", 256, 128),
        CanvasPreset::new("Huge Wooden Sign", 512, 128),
        CanvasPreset::new("Two Sided Hanging Sign", 256, 128),
        CanvasPreset::new("Small Banner", 64, 256),
        CanvasPreset::new("Large Banner", 64, 512),
        CanvasPreset::new("Portrait Frame", 256, 256),
        CanvasPreset::new("Landscape Frame", 256, 128),
        CanvasPreset::new("Tall Picture Frame", 128, 256),
        CanvasPreset::new("XL Picture Frame", 512, 512),
        CanvasPreset::new("XXL Picture Frame", 1024, 512),
        CanvasPreset::new("Spinning Wheel", 256, 256),
        CanvasPreset::new("Small Neon Sign", 128, 128),
        CanvasPreset::new("Neon Sign", 256, 128),
        CanvasPreset::new("Large Neon Sign", 256, 256),
        CanvasPreset::new("Large Animated Neon Sign", 256, 256),
        CanvasPreset::new("Photo Frame", 320, 240),
    ];
    assert(presets@.len() == preset_table().len());
    presets
}

/// Find a preset by name, ignoring case: the first preset whose lower-case name
/// equals the lower-case `name`.
pub fn find_preset(name: &str) -> (found: Option<CanvasPreset>)
    ensures
        ({
            let presets = preset_table();
            match first_with_lower_name_in_table(lower_text(name@)) {
                Some(i) => found is Some && preset_entry(found->0) == presets[i],
                None => found is None,
            }
        }),
{
    let name_lower = to_lower(name);
    let presets = all_presets();
    let mut i: usize = 0;
    while i < presets.len()
        invariant
            0 <= i <= presets@.len(),
            presets@.len() == preset_table().len(),
            forall|k: int| 0 <= k < presets@.len() ==> preset_entry(#[trigger] presets@[k]) == preset_table()[k],
            name_lower@ == lower_text(name@),
            first_with_lower_name_in_table(lower_text(name@)) == first_from(i as int, lower_text(name@)),
        decreases presets@.len() - i,
    {
        let candidate = to_lower(presets[i].name);
        assert(preset_entry(presets@[i as int]) == preset_table()[i as int]);
        if candidate == name_lower {
            return Some(presets[i]);
        }
        i += 1;
    }
    None
}

/// Index of the first table entry from `i` on whose lower-case name is `lower`.
pub open spec fn first_from(i: int, lower: Seq<char>) -> Option<int>
    decreases preset_table().len() - i,
{
    if i >= preset_table().len() || i < 0 {
        None
    } else if lower_text(preset_table()[i].0) == lower {
        Some(i)
    } else {
        first_from(i + 1, lower)
    }
}

/// Index of the first table entry whose lower-case name is `lower`.
pub open spec fn first_with_lower_name_in_table(lower: Seq<char>) -> Option<int> {
    first_from(0, lower)
}

proof fn lemma_first_from(i: int, lower: Seq<char>)
    requires
        0 <= i,
    ensures
        match first_from(i, lower) {
            Some(j) => i <= j < preset_table().len() && lower_text(preset_table()[j].0) == lower && forall|m: int|
                i <= m < j ==> lower_text(#[trigger] preset_table()[m].0) != lower,
            None => forall|m: int| i <= m < preset_table().len() ==> lower_text(#[trigger] preset_table()[m].0) != lower,
        },
    decreases preset_table().len() - i,
{
    if i < preset_table().len() && lower_text(preset_table()[i].0) != lower {
        lemma_first_from(i + 1, lower);
    }
}

/// Looking a preset up by a lower-case name gives the first table entry whose
/// lower-case name is that name, and nothing only when no entry has it.
pub proof fn preset_lookup_finds_first_match(lower: Seq<char>)
    ensures
        match first_with_lower_name_in_table(lower) {
            Some(j) => 0 <= j < preset_table().len() && lower_text(preset_table()[j].0) == lower && forall|m: int|
                0 <= m < j ==> lower_text(#[trigger] preset_table()[m].0) != lower,
            None => forall|m: int| 0 <= m < preset_table().len() ==> lower_text(#[trigger] preset_table()[m].0) != lower,
        },
{
    lemma_first_from(0, lower);
}

/// Every preset is found by its own name, in any case: the lookup of its
/// lower-case name gives an entry with that lower-case name, at its place or
/// before it.
pub proof fn every_preset_is_found_by_name(i: int)
    requires
        0 <= i < preset_table().len(),
    ensures
        first_with_lower_name_in_table(lower_text(preset_table()[i].0)) matches Some(j) && j <= i && lower_text(
            preset_table()[j].0,
        ) == lower_text(preset_table()[i].0),
{
    lemma_first_from(0, lower_text(preset_table()[i].0));
}

} // verus!
