//! Human-readable sizes: `10MB` to bytes and bytes to `10.0 MB`.
use vstd::prelude::*;
use crate::error::SizelintError;
use crate::number::{is_nonzero, is_number, number_times, number_value};
use crate::text::{
    all_white, chars_of, decimal, decimal_string, lemma_trimmed_ignores_padding, string_of,
    sub_chars, trim_chars, trimmed,
};

verus! {

pub const BYTES_PER_KB: u64 = 1024;

pub const BYTES_PER_MB: u64 = 1048576;

pub const BYTES_PER_GB: u64 = 1073741824;

pub const BYTES_PER_TB: u64 = 1099511627776;

/// 1024 to the power `u`.
pub open spec fn pow1024(u: nat) -> nat
    decreases u,
{
    if u == 0 {
        1
    } else {
        1024 * pow1024((u - 1) as nat)
    }
}

/// `c` is one of the two cases of a letter.
pub open spec fn letter_is(c: char, up: char, low: char) -> bool {
    c == up || c == low
}

/// The length of the unit suffix of `t` and the power of 1024 it stands for.
/// The suffixes are `TB`, `GB`, `MB`, `KB` and `B` in any case; no suffix means
/// bytes.
pub open spec fn unit_suffix(t: Seq<char>) -> (nat, nat) {
    if t.len() >= 1 && letter_is(t.last(), 'B', 'b') {
        if t.len() >= 2 && letter_is(t[t.len() - 2], 'T', 't') {
            (2, 4)
        } else if t.len() >= 2 && letter_is(t[t.len() - 2], 'G', 'g') {
            (2, 3)
        } else if t.len() >= 2 && letter_is(t[t.len() - 2], 'M', 'm') {
            (2, 2)
        } else if t.len() >= 2 && letter_is(t[t.len() - 2], 'K', 'k') {
            (2, 1)
        } else {
            (1, 0)
        }
    } else {
        (0, 0)
    }
}

/// The numeric part of a size string: trimmed, without its unit suffix.
pub open spec fn size_number(s: Seq<char>) -> Seq<char> {
    let t = trimmed(s);
    t.subrange(0, t.len() - unit_suffix(t).0)
}

/// The power of 1024 that the unit of a size string stands for.
pub open spec fn size_exponent(s: Seq<char>) -> nat {
    unit_suffix(trimmed(s)).1
}

/// A number without its sign.
pub open spec fn unsigned_part(n: Seq<char>) -> Seq<char> {
    if n.len() > 0 && (n[0] == '+' || n[0] == '-') {
        n.drop_first()
    } else {
        n
    }
}

/// The size string has a negative number (minus zero is no such number).
pub open spec fn size_is_negative(s: Seq<char>) -> bool {
    let n = size_number(s);
    n.len() > 0 && n[0] == '-' && is_nonzero(unsigned_part(n))
}

/// The size string is accepted: not blank, a number as `f64::from_str` reads
/// it (digits with an optional point and exponent, or `inf`, `infinity`,
/// `nan`) that is not negative, then an optional unit.
pub open spec fn size_accepted(s: Seq<char>) -> bool {
    trimmed(s).len() > 0 && is_number(unsigned_part(size_number(s))) && !size_is_negative(s)
}

/// The number of bytes an accepted size string stands for: its number times
/// its unit, truncated, and saturated at `u64::MAX`.
pub open spec fn size_bytes(s: Seq<char>) -> u64 {
    number_times(unsigned_part(size_number(s)), pow1024(size_exponent(s)))
}

/// Why a size string is refused.
pub open spec fn size_error_reason(s: Seq<char>) -> Seq<char> {
    if trimmed(s).len() == 0 {
        "Empty size string"@
    } else if !is_number(unsigned_part(size_number(s))) {
        "Invalid size number: "@ + size_number(s)
    } else {
        "Size cannot be negative"@
    }
}

/// Parses a human-readable size such as `10MB`, `1.5 gb` or `100` (bytes).
/// Units are binary multiples; surrounding whitespace is ignored.
pub fn parse_size_string(size_str: &str) -> (r: Result<u64, SizelintError>)
    ensures
        r is Ok <==> size_accepted(size_str@),
        r is Ok ==> r->Ok_0 == size_bytes(size_str@),
        r is Err ==> (r->Err_0 matches SizelintError::InvalidSizeFormat { input, reason }
            && input@ == trimmed(size_str@) && reason@ == size_error_reason(size_str@)),
{
    let cs = chars_of(size_str);
    let t = trim_chars(cs.as_slice());
    let input = string_of(t.as_slice());
    let len = t.len();
    if len == 0 {
        return Err(
            SizelintError::invalid_size_format(input, String::from_str("Empty size string")),
        );
    }
    let (k, exponent) = unit_of(t.as_slice());
    let n = sub_chars(t.as_slice(), 0, len - k);
    let signed = n.len() > 0 && (n[0] == '+' || n[0] == '-');
    let u = if signed {
        sub_chars(n.as_slice(), 1, n.len())
    } else {
        sub_chars(n.as_slice(), 0, n.len())
    };
    assert(u@ == unsigned_part(n@)) by {
        if signed {
            assert(n@.drop_first() =~= n@.subrange(1, n@.len() as int));
        } else {
            assert(n@ =~= n@.subrange(0, n@.len() as int));
        }
    }
    let m = multiplier(exponent);
    match number_value(u.as_slice(), m) {
        None => {
            let reason = String::from_str("Invalid size number: ").concat(
                string_of(n.as_slice()).as_str(),
            );
            Err(SizelintError::invalid_size_format(input, reason))
        },
        Some(value) => {
            if signed && n[0] == '-' && value.nonzero {
                Err(
                    SizelintError::invalid_size_format(
                        input,
                        String::from_str("Size cannot be negative"),
                    ),
                )
            } else {
                Ok(value.bytes)
            }
        },
    }
}

/// The length of the unit suffix of `t` and the power of 1024 it stands for.
fn unit_of(t: &[char]) -> (r: (usize, u64))
    requires
        t@.len() > 0,
    ensures
        r.0 as nat == unit_suffix(t@).0,
        r.1 as nat == unit_suffix(t@).1,
        r.0 <= t@.len(),
{
    let len = t.len();
    let last = t[len - 1];
    if last == 'B' || last == 'b' {
        if len >= 2 {
            let c = t[len - 2];
            if c == 'T' || c == 't' {
                return (2, 4);
            } else if c == 'G' || c == 'g' {
                return (2, 3);
            } else if c == 'M' || c == 'm' {
                return (2, 2);
            } else if c == 'K' || c == 'k' {
                return (2, 1);
            }
        }
        (1, 0)
    } else {
        (0, 0)
    }
}

/// The byte count of one unit.
fn multiplier(exponent: u64) -> (m: u64)
    requires
        exponent <= 4,
    ensures
        m as nat == pow1024(exponent as nat),
        1 <= m <= 0x100_0000_0000,
{
    reveal_with_fuel(pow1024, 5);
    if exponent == 0 {
        1
    } else if exponent == 1 {
        BYTES_PER_KB
    } else if exponent == 2 {
        BYTES_PER_MB
    } else if exponent == 3 {
        BYTES_PER_GB
    } else {
        BYTES_PER_TB
    }
}

/// The largest unit index that `size` reaches, at most 4.
pub open spec fn unit_index(size: nat) -> nat {
    if size >= pow1024(4) {
        4
    } else if size >= pow1024(3) {
        3
    } else if size >= pow1024(2) {
        2
    } else if size >= pow1024(1) {
        1
    } else {
        0
    }
}

/// The name of a unit.
pub open spec fn unit_name(u: nat) -> Seq<char> {
    if u == 0 {
        "B"@
    } else if u == 1 {
        "KB"@
    } else if u == 2 {
        "MB"@
    } else if u == 3 {
        "GB"@
    } else {
        "TB"@
    }
}

/// A byte count for people: below 1024 as `<n> B`; above, in the largest unit
/// it reaches (up to TB) with one decimal, truncated: `1.5 MB`.
pub open spec fn size_text(size: nat) -> Seq<char> {
    let u = unit_index(size);
    if u == 0 {
        decimal(size) + " B"@
    } else {
        let tenths = size * 10 / pow1024(u);
        decimal(tenths / 10) + "."@ + decimal(tenths % 10) + " "@ + unit_name(u)
    }
}

/// Formats a byte count as `size_text` describes.
pub fn format_size(size: u64) -> (r: String)
    ensures
        r@ == size_text(size as nat),
{
    reveal_with_fuel(pow1024, 5);
    let mut unit: u64 = 0;
    if size >= BYTES_PER_TB {
        unit = 4;
    } else if size >= BYTES_PER_GB {
        unit = 3;
    } else if size >= BYTES_PER_MB {
        unit = 2;
    } else if size >= BYTES_PER_KB {
        unit = 1;
    }
    assert(unit as nat == unit_index(size as nat));
    if unit == 0 {
        return decimal_string(size).concat(" B");
    }
    let m = multiplier(unit);
    let tenths: u128 = (size as u128) * 10 / (m as u128);
    proof {
        let x = size as int * 10;
        vstd::arithmetic::div_mod::lemma_fundamental_div_mod(x, m as int);
        let q = x / (m as int);
        let r = x % (m as int);
        assert(q <= size) by (nonlinear_arith)
            requires
                x == size * 10,
                x == (m as int) * q + r,
                0 <= r,
                m >= 10,
                q >= 0,
        ;
    }
    let t = tenths as u64;
    let name = if unit == 1 {
        "KB"
    } else if unit == 2 {
        "MB"
    } else if unit == 3 {
        "GB"
    } else {
        "TB"
    };
    decimal_string(t / 10).concat(".").concat(decimal_string(t % 10).as_str()).concat(
        " ",
    ).concat(name)
}

} // verus!

verus! {

/// Whitespace around a size string changes nothing: the padded string is
/// accepted exactly when the bare one is, for the same number of bytes, and
/// refused for the same reason.
pub proof fn lemma_parse_ignores_padding(pre: Seq<char>, s: Seq<char>, post: Seq<char>)
    requires
        all_white(pre),
        all_white(post),
    ensures
        size_accepted(pre + s + post) == size_accepted(s),
        size_bytes(pre + s + post) == size_bytes(s),
        trimmed(pre + s + post) == trimmed(s),
        size_error_reason(pre + s + post) == size_error_reason(s),
{
    lemma_trimmed_ignores_padding(pre, s, post);
}

} // verus!
