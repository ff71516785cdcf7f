//! Braille sparklines: two samples per character cell, each drawn as a
//! column of up to four dots from the bottom of the cell.
use vstd::prelude::*;
use crate::text::string_from_chars;

verus! {

/// Dot bits of the left column, bottom to top (dots 7, 3, 2, 1).
pub const LEFT_BITS: [u8; 4] = [0x40, 0x04, 0x02, 0x01];
/// Dot bits of the right column, bottom to top (dots 8, 6, 5, 4).
pub const RIGHT_BITS: [u8; 4] = [0x80, 0x20, 0x10, 0x08];
/// The empty braille cell; a cell's dots are added to it.
pub const BRAILLE_BASE: u32 = 0x2800;

/// The column height, from 0 to 4 dots, of `value` on a scale to `max`:
/// `4 * value / max` rounded half up and capped at 4; always 0 when `max`
/// is 0.
pub open spec fn level(value: u32, max: u32) -> u8 {
    if max == 0 {
        0
    } else {
        let l = (8 * value + max) / (2 * max);
        if l > 4 { 4 } else { l as u8 }
    }
}

/// The column height of `value` on a scale to `max`.
pub fn quantize(value: u32, max: u32) -> (res: u8)
    ensures
        res == level(value, max),
        res <= 4,
{
    if max == 0 {
        return 0;
    }
    let l: u64 = (8 * (value as u64) + max as u64) / (2 * (max as u64));
    if l > 4 {
        4
    } else {
        l as u8
    }
}

/// The union of the first `level` bits (all four when `level` exceeds 4).
pub open spec fn mask(level: u8, bits: Seq<u8>) -> u8
    decreases level,
{
    if level == 0 || bits.len() == 0 {
        0
    } else if level > 4 {
        mask(4, bits)
    } else {
        mask((level - 1) as u8, bits) | bits[level - 1]
    }
}

/// The dots of a column `level` dots high, with `bits` the column's dot
/// bits from the bottom up.
pub fn column_mask(level: u8, bits: [u8; 4]) -> (res: u8)
    ensures
        res == mask(level, bits@),
{
    let n: u8 = if level > 4 { 4 } else { level };
    let mut acc: u8 = 0;
    let mut i: u8 = 0;
    while i < n
        invariant
            n <= 4,
            n == (if level > 4 { 4 } else { level }),
            i <= n,
            bits@.len() == 4,
            acc == mask(i, bits@),
        decreases n - i,
    {
        acc = acc | bits[i as usize];
        i = i + 1;
    }
    proof {
        if level > 4 {
            assert(mask(level, bits@) == mask(4, bits@));
        }
    }
    acc
}

/// The code point of cell `k`: samples `2k` (left) and `2k + 1` (right, if
/// present) as dot columns on the empty braille cell.
pub open spec fn cell_code(values: Seq<u32>, max: u32, k: int) -> u32 {
    let left = mask(level(values[2 * k], max), LEFT_BITS@);
    let right = if 2 * k + 1 < values.len() { mask(level(values[2 * k + 1], max), RIGHT_BITS@) } else { 0 };
    BRAILLE_BASE | left as u32 | right as u32
}

/// The code points of the rendered line, one cell per two samples.
pub open spec fn render_codes(values: Seq<u32>, max: u32) -> Seq<u32> {
    Seq::new(((values.len() + 1) / 2) as nat, |k: int| cell_code(values, max, k))
}

/// Calls `char::from_u32`, which returns the character with that code
/// point, or `None` for surrogates and values beyond `0x10FFFF`.
#[verifier::external_body]
fn char_from_code(code: u32) -> (res: Option<char>)
    ensures
        (code < 0xD800 || (0xE000 <= code && code < 0x110000)) <==> res is Some,
        res matches Some(c) ==> c as u32 == code,
{
    char::from_u32(code)
}

fn cell(left: u8, right: u8) -> (res: char)
    ensures
        res as u32 == (BRAILLE_BASE | left as u32 | right as u32),
{
    let code: u32 = BRAILLE_BASE | left as u32 | right as u32;
    assert(0x2800 <= (0x2800u32 | left as u32 | right as u32) <= 0x28FF) by (bit_vector);
    match char_from_code(code) {
        Some(c) => c,
        None => ' ',
    }
}

/// Renders `values` on a scale to `max`, two samples per braille cell; an
/// odd last sample leaves the last cell's right column empty.
pub fn render(values: &[u32], max: u32) -> (res: String)
    ensures
        res@.map_values(|c: char| c as u32) == render_codes(values@, max),
{
    let mut cells: Vec<char> = Vec::new();
    let n = values.len();
    let mut k: usize = 0;
    while k < n - k
        invariant
            n == values@.len(),
            k <= n,
            2 * k <= n + 1,
            cells@.len() == k,
            forall|t: int| 0 <= t < k ==> #[trigger] cells@[t] as u32 == cell_code(values@, max, t),
        decreases n + 1 - 2 * k,
    {
        let left = column_mask(quantize(values[2 * k], max), LEFT_BITS);
        let right = if 2 * k + 1 < n {
            column_mask(quantize(values[2 * k + 1], max), RIGHT_BITS)
        } else {
            0
        };
        cells.push(cell(left, right));
        k = k + 1;
    }
    let res = string_from_chars(&cells);
    assert(res@.map_values(|c: char| c as u32) =~= render_codes(values@, max));
    res
}

/// Every cell is a braille character (U+2800 to U+28FF), and there is one
/// cell per two samples, rounded up.
pub proof fn lemma_render_shape(values: Seq<u32>, max: u32)
    ensures
        render_codes(values, max).len() == (values.len() + 1) / 2,
        forall|k: int| 0 <= k < render_codes(values, max).len() ==>
            0x2800 <= #[trigger] render_codes(values, max)[k] <= 0x28FF,
{
    assert forall|k: int| 0 <= k < render_codes(values, max).len() implies
        0x2800 <= #[trigger] render_codes(values, max)[k] <= 0x28FF by {
        let left = mask(level(values[2 * k], max), LEFT_BITS@);
        let right = if 2 * k + 1 < values.len() { mask(level(values[2 * k + 1], max), RIGHT_BITS@) } else { 0u8 };
        assert(0x2800 <= (0x2800u32 | left as u32 | right as u32) <= 0x28FF) by (bit_vector);
    }
}

/// A value at or above the maximum draws a full column, exactly as the
/// maximum itself does; a zero value, or a zero maximum, draws none.
pub proof fn lemma_level_clamps(value: u32, max: u32)
    ensures
        max > 0 && value >= max ==> level(value, max) == 4 && level(value, max) == level(max, max),
        level(0, max) == 0,
        level(value, 0) == 0,
        level(value, max) <= 4,
{
    if max > 0 {
        assert((8 * max + max) / (2 * max) == 4) by (nonlinear_arith)
            requires max > 0;
        assert((max as int) / (2 * max) == 0) by (nonlinear_arith)
            requires max > 0;
        if value >= max {
            assert((8 * value + max) / (2 * max) >= 4) by (nonlinear_arith)
                requires value >= max, max > 0;
        }
    }
}

/// Full and empty columns: four dots set all four of a column's bits,
/// zero dots none.
pub proof fn lemma_full_and_empty_columns()
    ensures
        mask(4, LEFT_BITS@) == 0x47,
        mask(4, RIGHT_BITS@) == 0xB8,
        mask(0, LEFT_BITS@) == 0,
        mask(0, RIGHT_BITS@) == 0,
{
    assert(LEFT_BITS@ == seq![0x40u8, 0x04u8, 0x02u8, 0x01u8]);
    assert(RIGHT_BITS@ == seq![0x80u8, 0x20u8, 0x10u8, 0x08u8]);
    reveal_with_fuel(mask, 5);
    assert((0u8 | 0x40u8) | 0x04u8 == 0x44u8) by (bit_vector);
    assert(((0u8 | 0x40u8) | 0x04u8) | 0x02u8 == 0x46u8) by (bit_vector);
    assert((((0u8 | 0x40u8) | 0x04u8) | 0x02u8) | 0x01u8 == 0x47u8) by (bit_vector);
    assert((((0u8 | 0x80u8) | 0x20u8) | 0x10u8) | 0x08u8 == 0xB8u8) by (bit_vector);
}

} // verus!
