//! Progress glyphs and byte counts.
use vstd::prelude::*;
use crate::text::{decimal, digit_char, push_char, push_decimal, push_str};

verus! {

/// Spreads a 5-bit progress value over a byte: values below 16 fill the high
/// nibble, larger ones fill it completely and the low nibble too.
pub open spec fn spec_word5_to_word8(n: u8) -> u8 {
    if n < 16 {
        (n * 16) as u8
    } else {
        ((n - 16) + 240) as u8
    }
}

pub fn word5_to_word8(n: u8) -> (r: u8)
    requires
        n < 32,
    ensures
        r == spec_word5_to_word8(n),
{
    if n < 16 {
        n * 16
    } else {
        (n - 16) + 240
    }
}

/// Bit `bit_to_set` of the result is bit `bit_to_read` of `x`; all other bits are 0.
pub open spec fn spec_wire_bits(bit_to_read: u8, bit_to_set: u8, x: u8) -> u8 {
    if (x & (1u8 << bit_to_read)) != 0u8 {
        1u8 << bit_to_set
    } else {
        0u8
    }
}

pub fn wire_bits(bit_to_read: u8, bit_to_set: u8, x: u8) -> (r: u8)
    requires
        bit_to_read < 8,
        bit_to_set < 8,
    ensures
        r == spec_wire_bits(bit_to_read, bit_to_set, x),
{
    if (x & (1u8 << bit_to_read)) != 0 {
        1u8 << bit_to_set
    } else {
        0
    }
}

/// The offset of the braille glyph whose dots show the bits of a progress byte:
/// bits 0..7 of the byte go to dots 7, 5, 4, 3, 6, 2, 1, 0.
pub open spec fn spec_braille_offset(x: u8) -> u8 {
    spec_wire_bits(0, 7, x) | spec_wire_bits(1, 5, x) | spec_wire_bits(2, 4, x) | spec_wire_bits(
        3,
        3,
        x,
    ) | spec_wire_bits(4, 6, x) | spec_wire_bits(5, 2, x) | spec_wire_bits(6, 1, x)
        | spec_wire_bits(7, 0, x)
}

pub fn permute_progress_byte_bits_to_braille_offset(x: u8) -> (r: u8)
    ensures
        r == spec_braille_offset(x),
{
    wire_bits(0, 7, x) | wire_bits(1, 5, x) | wire_bits(2, 4, x) | wire_bits(3, 3, x) | wire_bits(
        4,
        6,
        x,
    ) | wire_bits(5, 2, x) | wire_bits(6, 1, x) | wire_bits(7, 0, x)
}

/// Whether `u` is the number of a `char`: not a surrogate, at most `0x10FFFF`.
pub open spec fn is_char_value(u: u32) -> bool {
    u <= 0xD7FF || (0xE000 <= u && u <= 0x10FFFF)
}

/// `char::from_u32`: the character with number `u`, where there is one.
#[verifier::external_body]
fn char_from_u32(u: u32) -> (r: Option<char>)
    ensures
        r == if is_char_value(u) {
            Some(u as char)
        } else {
            None
        },
{
    std::char::from_u32(u)
}

/// The braille glyph for a progress byte: `U+2800` plus its dot offset.
pub open spec fn spec_braille_char(num: u8) -> char {
    (0x2800 + spec_braille_offset(num)) as char
}

pub fn progress_byte_to_braille_char(num: u8) -> (r: char)
    ensures
        r == spec_braille_char(num),
{
    let offset = permute_progress_byte_bits_to_braille_offset(num);
    match char_from_u32(0x2800 + offset as u32) {
        Some(c) => c,
        None => ' ',
    }
}

/// The glyph for a 5-bit progress value; larger values count as 31.
pub open spec fn spec_progress_char(n: u8) -> char {
    spec_braille_char(spec_word5_to_word8(if n < 31 { n } else { 31 }))
}

pub fn lookup_progress_char(n: u8) -> (r: char)
    ensures
        r == spec_progress_char(n),
{
    let m = if n < 31 {
        n
    } else {
        31
    };
    progress_byte_to_braille_char(word5_to_word8(m))
}

/// `1024` to the power `k`.
pub open spec fn pow1024(k: nat) -> nat
    decreases k,
{
    if k == 0 {
        1
    } else {
        1024 * pow1024((k - 1) as nat)
    }
}

/// The unit `print_bytes` picks, starting from `k`: the next larger one while
/// the count is still at least 1000 of the current unit, up to PiB.
pub open spec fn byte_unit_from(bytes: nat, k: nat) -> nat
    decreases 5 - k,
{
    if k < 5 && bytes >= 1000 * pow1024(k) {
        byte_unit_from(bytes, k + 1)
    } else {
        k
    }
}

pub open spec fn byte_unit_name(k: nat) -> Seq<char> {
    if k == 0 {
        seq!['B']
    } else if k == 1 {
        seq!['K', 'i', 'B']
    } else if k == 2 {
        seq!['M', 'i', 'B']
    } else if k == 3 {
        seq!['G', 'i', 'B']
    } else if k == 4 {
        seq!['T', 'i', 'B']
    } else {
        seq!['P', 'i', 'B']
    }
}

/// `n / d` rounded to the nearest integer, ties to the even one.
pub open spec fn div_round_half_even(n: nat, d: nat) -> nat {
    let q = n / d;
    let r = n % d;
    if 2 * r > d || (2 * r == d && q % 2 == 1) {
        q + 1
    } else {
        q
    }
}

/// A byte count in the largest binary unit below 1000 of it: whole bytes as
/// `500 B`, larger counts with one decimal, rounded to nearest, as `21.1 MiB`.
pub open spec fn bytes_text(bytes: nat) -> Seq<char> {
    let k = byte_unit_from(bytes, 0);
    if k == 0 {
        decimal(bytes) + seq![' '] + byte_unit_name(0)
    } else {
        let tenths = div_round_half_even(10 * bytes, pow1024(k));
        decimal(tenths / 10) + seq!['.', digit_char((tenths % 10) as int), ' '] + byte_unit_name(k)
    }
}

proof fn lemma_pow1024_bounds(k: nat)
    requires
        k <= 5,
    ensures
        1 <= pow1024(k) <= 1125899906842624,
{
    reveal_with_fuel(pow1024, 6);
    assert(pow1024(1) == 1024);
    assert(pow1024(2) == 1048576);
    assert(pow1024(3) == 1073741824);
    assert(pow1024(4) == 1099511627776);
    assert(pow1024(5) == 1125899906842624);
}

/// Prints a byte count the way the summary shows transfer sizes.
pub fn print_bytes(bytes: usize) -> (r: String)
    ensures
        r@ == bytes_text(bytes as nat),
{
    let b = bytes as u128;
    let mut unit: u128 = 1;
    let mut k: usize = 0;
    proof {
        lemma_pow1024_bounds(0);
    }
    while k < 5 && b >= 1000 * unit
        invariant
            k <= 5,
            unit == pow1024(k as nat),
            1 <= unit <= 1125899906842624,
            byte_unit_from(bytes as nat, 0) == byte_unit_from(bytes as nat, k as nat),
            b == bytes,
            b < 0x1_0000_0000_0000_0000,
        decreases 5 - k,
    {
        proof {
            lemma_pow1024_bounds(k as nat);
            lemma_pow1024_bounds((k + 1) as nat);
        }
        unit = unit * 1024;
        k += 1;
    }
    proof {
        lemma_pow1024_bounds(k as nat);
    }
    let mut out = String::new();
    if k == 0 {
        push_decimal(&mut out, bytes as u64);
        push_str(&mut out, " B");
        proof {
            reveal_strlit(" B");
            assert(" B"@ =~= seq![' '] + byte_unit_name(0));
        }
        assert(out@ =~= bytes_text(bytes as nat));
        return out;
    }
    let n = 10 * b;
    let q = n / unit;
    let rem = n % unit;
    let tenths = if 2 * rem > unit || (2 * rem == unit && q % 2 == 1) {
        q + 1
    } else {
        q
    };
    assert(tenths == div_round_half_even(10 * bytes as nat, pow1024(k as nat)));
    assert(tenths <= 10 * b + 1);
    push_decimal(&mut out, (tenths / 10) as u64);
    push_char(&mut out, '.');
    push_char(&mut out, (((tenths % 10) as u8) + 48) as char);
    push_char(&mut out, ' ');
    let name = if k == 1 {
        "KiB"
    } else if k == 2 {
        "MiB"
    } else if k == 3 {
        "GiB"
    } else if k == 4 {
        "TiB"
    } else {
        "PiB"
    };
    push_str(&mut out, name);
    proof {
        reveal_strlit("KiB");
        reveal_strlit("MiB");
        reveal_strlit("GiB");
        reveal_strlit("TiB");
        reveal_strlit("PiB");
        assert(name@ =~= byte_unit_name(k as nat));
        assert(digit_char((tenths % 10) as int) == (((tenths % 10) as u8) + 48) as char);
    }
    assert(out@ =~= bytes_text(bytes as nat));
    out
}

} // verus!
