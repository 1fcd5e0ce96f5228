//! Building blocks for rendering: indentation, digits, and joining.

use vstd::prelude::*;
use vstd::string::StringExecFns;

verus! {

/// The character for one digit in base sixteen or below: `0`-`9`, then `a`-`f`.
pub open spec fn digit_char(d: nat) -> char {
    if d < 10 {
        (48 + d) as char
    } else {
        (87 + d) as char
    }
}

/// The lower-case hexadecimal digits of `n`, most significant first, without padding.
pub open spec fn hex_digits(n: nat) -> Seq<char>
    decreases n,
{
    if n < 16 {
        seq![digit_char(n)]
    } else {
        hex_digits(n / 16).push(digit_char(n % 16))
    }
}

/// The decimal digits of `n`, most significant first.
pub open spec fn dec_digits(n: nat) -> Seq<char>
    decreases n,
{
    if n < 10 {
        seq![digit_char(n)]
    } else {
        dec_digits(n / 10).push(digit_char(n % 10))
    }
}

/// `digits` with one leading zero where it is a single digit.
pub open spec fn pad_two(digits: Seq<char>) -> Seq<char> {
    if digits.len() < 2 {
        seq!['0'] + digits
    } else {
        digits
    }
}

/// The unsigned number that a cell stands for: the two's complement
/// reading of its sixty-four bits.
pub open spec fn cell_value(v: i64) -> nat {
    if v >= 0 {
        v as nat
    } else {
        (v + 0x1_0000_0000_0000_0000) as nat
    }
}

/// A cell as it is written inside `< >`: `0x` and at least two hexadecimal digits.
pub open spec fn cell_text(v: i64) -> Seq<char> {
    seq!['0', 'x'] + pad_two(hex_digits(cell_value(v)))
}

/// A byte as it is written inside `[ ]`: exactly two hexadecimal digits.
pub open spec fn byte_text(b: u8) -> Seq<char> {
    pad_two(hex_digits(b as nat))
}

/// `level` tab characters.
pub open spec fn indent_text(level: nat) -> Seq<char> {
    Seq::new(level, |i: int| '\t')
}

/// The parts in order, with the separator between each two neighbours.
pub open spec fn join_text(parts: Seq<Seq<char>>, separator: Seq<char>) -> Seq<char>
    decreases parts.len(),
{
    if parts.len() == 0 {
        Seq::empty()
    } else if parts.len() == 1 {
        parts[0]
    } else {
        join_text(parts.drop_last(), separator) + separator + parts.last()
    }
}

/// The parts in order, one after the other.
pub open spec fn concat_text(parts: Seq<Seq<char>>) -> Seq<char>
    decreases parts.len(),
{
    if parts.len() == 0 {
        Seq::empty()
    } else {
        concat_text(parts.drop_last()) + parts.last()
    }
}

fn digit_str(d: u8) -> (out: &'static str)
    requires
        d < 16,
    ensures
        out@ == seq![digit_char(d as nat)],
{
    proof {
        reveal_strlit("0");
        reveal_strlit("1");
        reveal_strlit("2");
        reveal_strlit("3");
        reveal_strlit("4");
        reveal_strlit("5");
        reveal_strlit("6");
        reveal_strlit("7");
        reveal_strlit("8");
        reveal_strlit("9");
        reveal_strlit("a");
        reveal_strlit("b");
        reveal_strlit("c");
        reveal_strlit("d");
        reveal_strlit("e");
        reveal_strlit("f");
    }
    let out = match d {
        0 => "0",
        1 => "1",
        2 => "2",
        3 => "3",
        4 => "4",
        5 => "5",
        6 => "6",
        7 => "7",
        8 => "8",
        9 => "9",
        10 => "a",
        11 => "b",
        12 => "c",
        13 => "d",
        14 => "e",
        _ => "f",
    };
    assert(out@ =~= seq![digit_char(d as nat)]);
    out
}

/// Writes `n` in lower-case hexadecimal, without prefix or padding.
pub fn hex_string(n: u64) -> (out: String)
    ensures
        out@ == hex_digits(n as nat),
    decreases n,
{
    if n < 16 {
        String::from_str(digit_str(n as u8))
    } else {
        let mut out = hex_string(n / 16);
        out.append(digit_str((n % 16) as u8));
        out
    }
}

/// Writes `n` in decimal.
pub fn dec_string(n: u32) -> (out: String)
    ensures
        out@ == dec_digits(n as nat),
    decreases n,
{
    if n < 10 {
        String::from_str(digit_str(n as u8))
    } else {
        let mut out = dec_string(n / 10);
        out.append(digit_str((n % 10) as u8));
        out
    }
}

fn padded(digits: String) -> (out: String)
    ensures
        out@ == pad_two(digits@),
{
    if digits.as_str().unicode_len() < 2 {
        proof {
            reveal_strlit("0");
        }
        let mut out = String::from_str("0");
        out.append(digits.as_str());
        assert(out@ =~= pad_two(digits@));
        out
    } else {
        digits
    }
}

/// Writes a cell as `0x` and at least two hexadecimal digits; a negative
/// cell is written by its two's complement bits.
pub fn cell_string(v: i64) -> (out: String)
    ensures
        out@ == cell_text(v),
{
    let bits: u64 = if v >= 0 {
        v as u64
    } else {
        ((v - i64::MIN) as u64) + 0x8000_0000_0000_0000u64
    };
    proof {
        reveal_strlit("0x");
    }
    let mut out = String::from_str("0x");
    let digits = padded(hex_string(bits));
    out.append(digits.as_str());
    assert(out@ =~= cell_text(v));
    out
}

/// Writes a byte as exactly two hexadecimal digits.
pub fn byte_string(b: u8) -> (out: String)
    ensures
        out@ == byte_text(b),
{
    padded(hex_string(b as u64))
}

/// The indentation of a nesting level: one tab per level.
pub fn indent(level: usize) -> (out: String)
    ensures
        out@ == indent_text(level as nat),
{
    let mut out = String::new();
    let mut i: usize = 0;
    proof {
        reveal_strlit("\t");
    }
    while i < level
        invariant
            i <= level,
            out@ == indent_text(i as nat),
            "\t"@ == seq!['\t'],
        decreases level - i,
    {
        out.append("\t");
        i += 1;
        assert(out@ =~= indent_text(i as nat));
    }
    out
}

/// Maps each item to text and joins the results with the separator.
///
/// The result is the join of some texts that `f` may return for the
/// items, in order.
pub fn join_map<T, F: Fn(&T) -> String>(items: &[T], f: F, separator: &str) -> (out: String)
    requires
        forall|i: int| 0 <= i < items@.len() ==> call_requires(f, (&#[trigger] items@[i],)),
    ensures
        exists|parts: Seq<String>|
            {
                &&& parts.len() == items@.len()
                &&& forall|i: int|
                    0 <= i < parts.len() ==> call_ensures(f, (&items@[i],), #[trigger] parts[i])
                &&& out@ == join_text(crate::ast::strings_view(parts), separator@)
            },
{
    let mut out = String::new();
    let ghost mut parts: Seq<String> = Seq::empty();
    let mut i: usize = 0;
    while i < items.len()
        invariant
            i <= items@.len(),
            parts.len() == i,
            forall|k: int| 0 <= k < items@.len() ==> call_requires(f, (&#[trigger] items@[k],)),
            forall|k: int| 0 <= k < i ==> call_ensures(f, (&items@[k],), #[trigger] parts[k]),
            out@ == join_text(crate::ast::strings_view(parts), separator@),
        decreases items@.len() - i,
    {
        let piece = f(&items[i]);
        let ghost before = parts;
        proof {
            parts = parts.push(piece);
            assert(parts.drop_last() =~= before);
            assert(crate::ast::strings_view(parts).drop_last() =~= crate::ast::strings_view(
                before,
            ));
            assert(crate::ast::strings_view(parts).last() == piece@);
        }
        if i > 0 {
            out.append(separator);
        }
        out.append(piece.as_str());
        i += 1;
        assert(out@ =~= join_text(crate::ast::strings_view(parts), separator@));
    }
    out
}

/// Whether `needle` occurs in `hay` as a run of neighbouring characters.
pub open spec fn contains_text(hay: Seq<char>, needle: Seq<char>) -> bool {
    exists|k: int|
        0 <= k && k + needle.len() <= hay.len() && #[trigger] hay.subrange(
            k,
            k + needle.len(),
        ) == needle
}

/// `str::contains` with a string pattern: whether the pattern occurs in
/// the text as a substring.
#[verifier::external_body]
pub(crate) fn contains_str(hay: &str, needle: &str) -> (found: bool)
    ensures
        found == contains_text(hay@, needle@),
{
    hay.contains(needle)
}

} // verus!
