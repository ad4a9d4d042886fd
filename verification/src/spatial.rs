//! Astronomical bodies and surface nodes anchored to H3 hexagonal cells.

use vstd::prelude::*;
use crate::network::components::Entity;

verus! {

/// Whether `bits` is a valid H3 cell index, as decided by h3o's `CellIndex::try_from(u64)`.
pub uninterp spec fn h3_cell_valid(bits: u64) -> bool;

/// Value of a hexadecimal digit (either case).
pub open spec fn hex_digit_value(c: char) -> Option<nat> {
    if '0' <= c <= '9' {
        Some((c as nat - '0' as nat) as nat)
    } else if 'a' <= c <= 'f' {
        Some((c as nat - 'a' as nat + 10) as nat)
    } else if 'A' <= c <= 'F' {
        Some((c as nat - 'A' as nat + 10) as nat)
    } else {
        None
    }
}

/// Value of a sequence of hexadecimal digits, most significant first.
pub open spec fn hex_digits_value(s: Seq<char>) -> Option<nat>
    decreases s.len(),
{
    if s.len() == 0 {
        Some(0)
    } else {
        match (hex_digits_value(s.drop_last()), hex_digit_value(s.last())) {
            (Some(v), Some(d)) => Some(v * 16 + d),
            _ => None,
        }
    }
}

/// Parsing of unsigned 64-bit hexadecimal text as `u64::from_str_radix(s, 16)` does:
/// an optional `+`, then one or more hex digits, with a value that fits in `u64`.
pub open spec fn parse_hex_u64(s: Seq<char>) -> Option<u64> {
    let digits = if s.len() > 0 && s[0] == '+' { s.drop_first() } else { s };
    if digits.len() == 0 {
        None
    } else {
        match hex_digits_value(digits) {
            Some(v) => if v <= u64::MAX { Some(v as u64) } else { None },
            None => None,
        }
    }
}

/// H3 cell text parsing as h3o's `CellIndex::from_str` does: hexadecimal, then validity.
pub open spec fn parse_cell_text(s: Seq<char>) -> Option<u64> {
    match parse_hex_u64(s) {
        Some(v) => if h3_cell_valid(v) { Some(v) } else { None },
        None => None,
    }
}

/// Lowercase hexadecimal digit for `d` in `0..16`.
pub open spec fn lower_hex_digit(d: nat) -> char {
    if d == 0 { '0' } else if d == 1 { '1' } else if d == 2 { '2' } else if d == 3 { '3' }
    else if d == 4 { '4' } else if d == 5 { '5' } else if d == 6 { '6' } else if d == 7 { '7' }
    else if d == 8 { '8' } else if d == 9 { '9' } else if d == 10 { 'a' } else if d == 11 { 'b' }
    else if d == 12 { 'c' } else if d == 13 { 'd' } else if d == 14 { 'e' } else { 'f' }
}

/// Lowercase hexadecimal text of `n`, without leading zeros.
pub open spec fn lower_hex(n: nat) -> Seq<char>
    decreases n,
{
    if n < 16 {
        seq![lower_hex_digit(n)]
    } else {
        lower_hex(n / 16).push(lower_hex_digit(n % 16))
    }
}

/// Checks whether `bits` is a valid H3 cell index.
/// Calls h3o's `CellIndex::try_from(u64)`; the result is named `h3_cell_valid`.
#[verifier::external_body]
fn cell_index_is_valid(bits: u64) -> (r: bool)
    ensures
        r == h3_cell_valid(bits),
{
    h3o::CellIndex::try_from(bits).is_ok()
}

/// Text of a valid H3 cell.
/// Calls h3o's `Display` for `CellIndex`, which writes the index in lowercase hexadecimal.
#[verifier::external_body]
fn format_cell_index(bits: u64) -> (s: String)
    requires
        h3_cell_valid(bits),
    ensures
        s@ == lower_hex(bits as nat),
{
    match h3o::CellIndex::try_from(bits) {
        Ok(cell) => cell.to_string(),
        Err(_) => String::new(),
    }
}

/// Parses H3 cell text.
/// Calls h3o's `FromStr` for `CellIndex`: `u64::from_str_radix(s, 16)`, then `CellIndex::try_from`.
#[verifier::external_body]
fn parse_cell_index(s: &str) -> (r: Option<u64>)
    ensures
        r == parse_cell_text(s@),
{
    match s.parse::<h3o::CellIndex>() {
        Ok(cell) => Some(u64::from(cell)),
        Err(_) => None,
    }
}

/// Whether `bits` is a valid H3 cell index.
pub fn is_valid_cell(bits: u64) -> (r: bool)
    ensures
        r == h3_cell_valid(bits),
{
    cell_index_is_valid(bits)
}

/// The lowercase hexadecimal text of a valid H3 cell index.
pub fn cell_to_string(bits: u64) -> (s: String)
    requires
        h3_cell_valid(bits),
    ensures
        s@ == lower_hex(bits as nat),
{
    format_cell_index(bits)
}

/// Parses the hexadecimal text of an H3 cell index; `None` for text that is not hexadecimal,
/// out of range, or not a valid cell.
pub fn parse_cell(s: &str) -> (r: Option<u64>)
    ensures
        r == parse_cell_text(s@),
{
    parse_cell_index(s)
}

proof fn lemma_hex_digit_roundtrip(d: nat)
    requires
        d < 16,
    ensures
        hex_digit_value(lower_hex_digit(d)) == Some(d),
        lower_hex_digit(d) != '+',
{
}

proof fn lemma_lower_hex_value(n: nat)
    ensures
        hex_digits_value(lower_hex(n)) == Some(n),
        lower_hex(n).len() > 0,
        lower_hex(n)[0] != '+',
    decreases n,
{
    lemma_hex_digit_roundtrip(n % 16);
    if n < 16 {
        let s = lower_hex(n);
        assert(s.drop_last() =~= Seq::<char>::empty());
        assert(s.last() == lower_hex_digit(n));
        assert(hex_digits_value(s.drop_last()) == Some(0nat));
    } else {
        lemma_lower_hex_value(n / 16);
        let s = lower_hex(n);
        assert(s.drop_last() =~= lower_hex(n / 16));
        assert(s.last() == lower_hex_digit(n % 16));
        assert(s[0] == lower_hex(n / 16)[0]);
        assert(hex_digits_value(s) == Some((n / 16) * 16 + n % 16));
        assert((n / 16) * 16 + n % 16 == n);
    }
}

/// Reading back the text of a valid cell gives the cell.
pub proof fn law_cell_text_roundtrip(bits: u64)
    requires
        h3_cell_valid(bits),
    ensures
        parse_cell_text(lower_hex(bits as nat)) == Some(bits),
{
    lemma_lower_hex_value(bits as nat);
}

/// Macro-node representing an astronomical body (planet, moon, asteroid).
#[derive(Debug, Clone, Copy, PartialEq, Eq, Structural, Hash)]
pub struct AstroNode {
    /// Unique identifier of the astronomical body (e.g., Earth = 1, Luna = 2, Mars = 3).
    pub body_id: u32,
    /// Mean radius of the astronomical body in kilometers.
    pub radius_km: u32,
    /// Base H3 simulation resolution (e.g., 3 for Earth, 2 for Mars).
    pub h3_resolution: u8,
}

impl AstroNode {
    /// Creates a new astronomical body component.
    pub fn new(body_id: u32, radius_km: u32, h3_resolution: u8) -> (n: Self)
        ensures
            n.body_id == body_id,
            n.radius_km == radius_km,
            n.h3_resolution == h3_resolution,
    {
        AstroNode { body_id, radius_km, h3_resolution }
    }
}

/// Micro-node attaching an entity to an H3 cell (its 64-bit index) on an astronomical body.
#[derive(Debug, Clone, Copy, PartialEq, Eq, Structural, Hash)]
pub struct SurfaceNode {
    /// Entity of the parent astronomical body.
    pub parent_body: Entity,
    /// H3 cell index defining the geographic position.
    pub cell: u64,
}

impl SurfaceNode {
    /// Creates a surface node attaching an entity to a valid H3 cell on an astronomical body.
    pub fn new(parent_body: Entity, cell: u64) -> (n: Self)
        requires
            h3_cell_valid(cell),
        ensures
            n.parent_body == parent_body,
            n.cell == cell,
    {
        SurfaceNode { parent_body, cell }
    }

    /// Creates a surface node when `cell` is a valid H3 cell index, `None` otherwise.
    pub fn try_new(parent_body: Entity, cell: u64) -> (n: Option<Self>)
        ensures
            match n {
                Some(x) => h3_cell_valid(cell) && x.parent_body == parent_body && x.cell == cell,
                None => !h3_cell_valid(cell),
            },
    {
        if cell_index_is_valid(cell) {
            Some(SurfaceNode::new(parent_body, cell))
        } else {
            None
        }
    }
}

} // verus!
