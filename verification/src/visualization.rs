//! The discrete part of the signal oscilloscope: which glyph goes in which
//! cell once the samples have been turned into cell levels and rows.

use vstd::prelude::*;

verus! {

/// Rendering mode for signal visualization.
#[derive(Debug, Clone, Copy, PartialEq, Eq)]
pub enum RenderMode {
    /// Braille characters for sub-cell resolution (2x4 dots per cell).
    Braille,
    /// A simple block character.
    Block,
}

/// The highest fill level of a cell half in Braille mode.
pub const MAX_LEVEL: usize = 4;

/// The filled-area graph glyph for a cell whose left half is filled to level
/// `prev` and whose right half to level `cur` (each `0..=4`, from the bottom).
pub open spec fn graph_symbol_spec(prev: int, cur: int) -> char {
    seq![
        seq!['\u{20}', '\u{2880}', '\u{28A0}', '\u{28B0}', '\u{28B8}'],
        seq!['\u{2840}', '\u{28C0}', '\u{28E0}', '\u{28F0}', '\u{28F8}'],
        seq!['\u{2844}', '\u{28C4}', '\u{28E4}', '\u{28F4}', '\u{28FC}'],
        seq!['\u{2846}', '\u{28C6}', '\u{28E6}', '\u{28F6}', '\u{28FE}'],
        seq!['\u{2847}', '\u{28C7}', '\u{28E7}', '\u{28F7}', '\u{28FF}'],
    ][prev][cur]
}

/// Every level is at most `MAX_LEVEL`.
pub open spec fn levels_valid(levels: Seq<usize>) -> bool {
    forall|k: int| 0 <= k < levels.len() ==> #[trigger] levels[k] <= MAX_LEVEL
}

/// The glyph of column `k` of a Braille row: the transition from the level of
/// the column to its left (the column's own level for the first column).
pub open spec fn braille_glyph(levels: Seq<usize>, k: int) -> char {
    let prev = if k == 0 {
        levels[0]
    } else {
        levels[k - 1]
    };
    graph_symbol_spec(prev as int, levels[k] as int)
}

/// A level strictly inside a cell: neither empty nor full.
pub open spec fn partial_level(level: usize) -> bool {
    0 < level < MAX_LEVEL
}

/// The rows that the waveform fills in column `k` of Block mode: from the
/// previous column's row to this column's row, cut at the bottom edge.
pub open spec fn block_span_spec(ys: Seq<u16>, k: int, height: u16) -> Option<(u16, u16)> {
    let y = ys[k];
    let (lo, hi) = if k == 0 {
        (y, y)
    } else if ys[k - 1] < y {
        (ys[k - 1], y)
    } else {
        (y, ys[k - 1])
    };
    if lo >= height {
        None
    } else if hi < height {
        Some((lo, hi))
    } else {
        Some((lo, (height - 1) as u16))
    }
}

/// The graph glyph for the transition from level `prev` to level `cur`.
pub fn graph_symbol(prev: usize, cur: usize) -> (c: char)
    requires
        prev <= MAX_LEVEL,
        cur <= MAX_LEVEL,
    ensures
        c == graph_symbol_spec(prev as int, cur as int),
        (c == '\u{20}') == (prev == 0 && cur == 0),
{
    let row: [char; 5] = match prev {
        0 => ['\u{20}', '\u{2880}', '\u{28A0}', '\u{28B0}', '\u{28B8}'],
        1 => ['\u{2840}', '\u{28C0}', '\u{28E0}', '\u{28F0}', '\u{28F8}'],
        2 => ['\u{2844}', '\u{28C4}', '\u{28E4}', '\u{28F4}', '\u{28FC}'],
        3 => ['\u{2846}', '\u{28C6}', '\u{28E6}', '\u{28F6}', '\u{28FE}'],
        _ => ['\u{2847}', '\u{28C7}', '\u{28E7}', '\u{28F7}', '\u{28FF}'],
    };
    row[cur]
}

/// The glyphs of one Braille row, given the fill level of each column.
pub fn braille_row(levels: &Vec<usize>) -> (row: Vec<char>)
    requires
        levels_valid(levels@),
    ensures
        row@.len() == levels@.len(),
        forall|k: int| 0 <= k < levels@.len() ==> #[trigger] row@[k] == braille_glyph(levels@, k),
{
    let mut row: Vec<char> = Vec::with_capacity(levels.len());
    let mut prev: usize = 0;
    let mut x: usize = 0;
    while x < levels.len()
        invariant
            levels_valid(levels@),
            x <= levels@.len(),
            row@.len() == x,
            x > 0 ==> prev == levels@[x - 1],
            forall|k: int| 0 <= k < x ==> #[trigger] row@[k] == braille_glyph(levels@, k),
        decreases levels@.len() - x,
    {
        let cur = levels[x];
        let left = if x == 0 {
            cur
        } else {
            prev
        };
        row.push(graph_symbol(left, cur));
        prev = cur;
        x += 1;
    }
    row
}

/// The row that carries the zero line in Braille mode: the first whose level
/// for the value zero is partial; `None` when no row is.
pub fn zero_line_row(zero_levels: &Vec<usize>) -> (r: Option<usize>)
    ensures
        match r {
            Some(y) => {
                &&& y < zero_levels@.len()
                &&& partial_level(zero_levels@[y as int])
                &&& forall|j: int| 0 <= j < y ==> !partial_level(#[trigger] zero_levels@[j])
            },
            None => forall|j: int|
                0 <= j < zero_levels@.len() ==> !partial_level(#[trigger] zero_levels@[j]),
        },
{
    let mut y: usize = 0;
    while y < zero_levels.len()
        invariant
            y <= zero_levels@.len(),
            forall|j: int| 0 <= j < y ==> !partial_level(#[trigger] zero_levels@[j]),
        decreases zero_levels@.len() - y,
    {
        let level = zero_levels[y];
        if 0 < level && level < MAX_LEVEL {
            return Some(y);
        }
        y += 1;
    }
    None
}

/// The rows that the waveform fills in each column of Block mode, given the
/// row of each column's sample; `None` where nothing lies inside the area.
pub fn block_spans(ys: &Vec<u16>, height: u16) -> (spans: Vec<Option<(u16, u16)>>)
    ensures
        spans@.len() == ys@.len(),
        forall|k: int| 0 <= k < ys@.len() ==> #[trigger] spans@[k] == block_span_spec(ys@, k, height),
{
    let mut spans: Vec<Option<(u16, u16)>> = Vec::with_capacity(ys.len());
    let mut x: usize = 0;
    while x < ys.len()
        invariant
            x <= ys@.len(),
            spans@.len() == x,
            forall|k: int| 0 <= k < x ==> #[trigger] spans@[k] == block_span_spec(ys@, k, height),
        decreases ys@.len() - x,
    {
        let y = ys[x];
        let (lo, hi) = if x == 0 {
            (y, y)
        } else if ys[x - 1] < y {
            (ys[x - 1], y)
        } else {
            (y, ys[x - 1])
        };
        let span = if lo >= height {
            None
        } else if hi < height {
            Some((lo, hi))
        } else {
            Some((lo, height - 1))
        };
        spans.push(span);
        x += 1;
    }
    spans
}

} // verus!
