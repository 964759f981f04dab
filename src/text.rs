//! Decimal numbers, identifiers and chromosome labels as text.
use vstd::prelude::*;
use vstd::string::{StrSliceExecFns, StringExecFns};

verus! {

/// Why a field of a row could not be read.
#[derive(Clone, Copy, Debug, PartialEq, Eq, Structural)]
pub enum FormatError {
    /// The identifier is not a prefixed unsigned 32-bit decimal number.
    BadIdentifier,
    /// The position is not an unsigned 32-bit decimal number.
    BadPosition,
    /// The chromosome label or code is none of the known ones.
    BadChromosome,
    /// The row lacks a field, or the locus lacks its `:` separator.
    MissingField,
}

pub open spec fn is_digit(c: char) -> bool {
    '0' <= c && c <= '9'
}

pub open spec fn digit_value(c: char) -> nat {
    (c as u32 - '0' as u32) as nat
}

pub open spec fn digit_char(d: nat) -> char {
    ((48 + d) as u8) as char
}

pub open spec fn all_digits(s: Seq<char>) -> bool {
    forall|i: int| 0 <= i < s.len() ==> is_digit(#[trigger] s[i])
}

/// The number that a string of decimal digits denotes.
pub open spec fn decimal_value(s: Seq<char>) -> nat
    decreases s.len(),
{
    if s.len() == 0 {
        0
    } else {
        decimal_value(s.drop_last()) * 10 + digit_value(s.last())
    }
}

/// The `u32` that a non-empty string of decimal digits denotes.
pub open spec fn digits_u32(s: Seq<char>) -> Option<u32> {
    if s.len() > 0 && all_digits(s) && decimal_value(s) <= u32::MAX {
        Some(decimal_value(s) as u32)
    } else {
        None
    }
}

/// The `u32` that `s` denotes: an optional `+`, then a non-empty string of
/// decimal digits.
pub open spec fn parse_u32_spec(s: Seq<char>) -> Option<u32> {
    if s.len() > 0 && s[0] == '+' {
        digits_u32(s.skip(1))
    } else {
        digits_u32(s)
    }
}

/// The shortest decimal writing of `n`.
pub open spec fn decimal_string(n: nat) -> Seq<char>
    decreases n,
{
    if n < 10 {
        seq![digit_char(n)]
    } else {
        decimal_string(n / 10).push(digit_char(n % 10))
    }
}

/// The prefix that identifiers carry in tables.
pub open spec fn rsid_prefix() -> Seq<char> {
    seq!['r', 's']
}

/// The identifier that a table field denotes: the prefix `rs`, then an
/// unsigned 32-bit decimal number.
pub open spec fn rsid_of(s: Seq<char>) -> Result<u32, FormatError> {
    if s.len() >= 2 && s.take(2) == rsid_prefix() {
        match parse_u32_spec(s.skip(2)) {
            Some(v) => Ok(v),
            None => Err(FormatError::BadIdentifier),
        }
    } else {
        Err(FormatError::BadIdentifier)
    }
}

/// The code of a chromosome label, where it is one.
pub open spec fn chrom_code_of(s: Seq<char>) -> Result<u8, FormatError> {
    if exists|c: u8| is_chrom_code(c) && chrom_label(c) == s {
        Ok(choose|c: u8| is_chrom_code(c) && chrom_label(c) == s)
    } else {
        Err(FormatError::BadChromosome)
    }
}

/// Codes 1 to 22 stand for themselves, 23 to 25 for X, Y and MT.
pub open spec fn is_chrom_code(code: u8) -> bool {
    1 <= code <= 25
}

/// The label of a chromosome code.
pub open spec fn chrom_label(code: u8) -> Seq<char> {
    if 1 <= code <= 22 {
        decimal_string(code as nat)
    } else if code == 23 {
        seq!['X']
    } else if code == 24 {
        seq!['Y']
    } else if code == 25 {
        seq!['M', 'T']
    } else {
        Seq::empty()
    }
}

proof fn lemma_digit_char(d: nat)
    requires
        d < 10,
    ensures
        is_digit(digit_char(d)),
        digit_value(digit_char(d)) == d,
{
}

/// The decimal writing of `n` is all digits and denotes `n`.
pub proof fn lemma_decimal_round_trip(n: nat)
    ensures
        decimal_string(n).len() > 0,
        all_digits(decimal_string(n)),
        decimal_value(decimal_string(n)) == n,
    decreases n,
{
    if n < 10 {
        lemma_digit_char(n);
        let s = decimal_string(n);
        assert(s.drop_last() =~= Seq::<char>::empty());
        assert(decimal_value(Seq::<char>::empty()) == 0);
        assert(decimal_value(s) == decimal_value(s.drop_last()) * 10 + digit_value(s.last()));
    } else {
        lemma_decimal_round_trip(n / 10);
        lemma_digit_char(n % 10);
        let s = decimal_string(n);
        assert(s.drop_last() =~= decimal_string(n / 10));
        assert(s.last() == digit_char(n % 10));
        assert(decimal_value(s) == decimal_value(s.drop_last()) * 10 + digit_value(s.last()));
        vstd::arithmetic::div_mod::lemma_fundamental_div_mod(n as int, 10);
        assert forall|i: int| 0 <= i < s.len() implies is_digit(#[trigger] s[i]) by {
            if i < s.len() - 1 {
                assert(s[i] == decimal_string(n / 10)[i]);
            }
        }
    }
}

/// A value of a longer string of digits is at least that of its prefix.
proof fn lemma_decimal_prefix(s: Seq<char>, k: int)
    requires
        0 <= k <= s.len(),
    ensures
        decimal_value(s.take(k)) <= decimal_value(s),
    decreases s.len(),
{
    if k < s.len() {
        assert(s.drop_last().take(k) =~= s.take(k));
        lemma_decimal_prefix(s.drop_last(), k);
    } else {
        assert(s.take(k) =~= s);
    }
}

/// Distinct chromosome codes have distinct labels.
pub proof fn lemma_chrom_label_injective(a: u8, b: u8)
    requires
        is_chrom_code(a),
        is_chrom_code(b),
        chrom_label(a) == chrom_label(b),
    ensures
        a == b,
{
    let la = chrom_label(a);
    let lb = chrom_label(b);
    if 1 <= a <= 22 {
        lemma_decimal_round_trip(a as nat);
        assert(is_digit(la[0]));
    }
    if 1 <= b <= 22 {
        lemma_decimal_round_trip(b as nat);
        assert(is_digit(lb[0]));
    }
    assert(la[0] == lb[0]);
    assert(la.len() == lb.len());
}

/// Each chromosome label decodes to one code and renders back to itself:
/// the label of `code` is accepted, `code` is the only code with it, and so
/// reading the label gives `code` back.
pub proof fn lemma_chrom_round_trip(code: u8)
    requires
        is_chrom_code(code),
    ensures
        exists|c: u8| is_chrom_code(c) && chrom_label(c) == chrom_label(code),
        forall|c: u8| is_chrom_code(c) && chrom_label(c) == chrom_label(code) ==> c == code,
        chrom_code_of(chrom_label(code)) == Ok::<u8, FormatError>(code),
{
    assert forall|c: u8| is_chrom_code(c) && chrom_label(c) == chrom_label(code) implies c
        == code by {
        lemma_chrom_label_injective(c, code);
    }
    assert(is_chrom_code(code) && chrom_label(code) == chrom_label(code));
}

/// The one-character text of a decimal digit.
fn digit_str(d: u32) -> (r: &'static str)
    requires
        d < 10,
    ensures
        r@ == seq![digit_char(d as nat)],
{
    let r = if d == 0 {
        proof { reveal_strlit("0"); }
        "0"
    } else if d == 1 {
        proof { reveal_strlit("1"); }
        "1"
    } else if d == 2 {
        proof { reveal_strlit("2"); }
        "2"
    } else if d == 3 {
        proof { reveal_strlit("3"); }
        "3"
    } else if d == 4 {
        proof { reveal_strlit("4"); }
        "4"
    } else if d == 5 {
        proof { reveal_strlit("5"); }
        "5"
    } else if d == 6 {
        proof { reveal_strlit("6"); }
        "6"
    } else if d == 7 {
        proof { reveal_strlit("7"); }
        "7"
    } else if d == 8 {
        proof { reveal_strlit("8"); }
        "8"
    } else {
        proof { reveal_strlit("9"); }
        "9"
    };
    assert(r@ =~= seq![digit_char(d as nat)]);
    r
}

/// The shortest decimal writing of `n`.
pub fn decimal_to_string(n: u32) -> (r: String)
    ensures
        r@ == decimal_string(n as nat),
    decreases n,
{
    if n < 10 {
        String::from_str(digit_str(n))
    } else {
        let mut s = decimal_to_string(n / 10);
        s.append(digit_str(n % 10));
        s
    }
}

/// Reads a non-empty string of decimal digits as a `u32`.
fn parse_digits(s: &str) -> (r: Option<u32>)
    ensures
        r == digits_u32(s@),
{
    let n = s.unicode_len();
    if n == 0 {
        return None;
    }
    let mut acc: u64 = 0;
    let mut i: usize = 0;
    while i < n
        invariant
            i <= n,
            n == s@.len(),
            all_digits(s@.take(i as int)),
            acc == decimal_value(s@.take(i as int)),
            acc <= u32::MAX,
        decreases n - i,
    {
        let c = s.get_char(i);
        if !('0' <= c && c <= '9') {
            return None;
        }
        proof {
            assert(s@.take(i + 1).drop_last() =~= s@.take(i as int));
            assert forall|j: int| 0 <= j < i + 1 implies is_digit(#[trigger] s@.take(i + 1)[j]) by {
                if j < i {
                    assert(s@.take(i + 1)[j] == s@.take(i as int)[j]);
                }
            }
        }
        acc = acc * 10 + (c as u32 - '0' as u32) as u64;
        if acc > u32::MAX as u64 {
            proof {
                lemma_decimal_prefix(s@, i + 1);
            }
            return None;
        }
        i = i + 1;
    }
    assert(s@.take(n as int) =~= s@);
    Some(acc as u32)
}

/// Reads an optional `+` followed by a non-empty string of decimal digits as
/// a `u32`.
pub fn parse_u32(s: &str) -> (r: Option<u32>)
    ensures
        r == parse_u32_spec(s@),
{
    let n = s.unicode_len();
    if n > 0 && s.get_char(0) == '+' {
        parse_digits(s.substring_char(1, n))
    } else {
        parse_digits(s)
    }
}

/// Reads an identifier field: the prefix `rs`, which is required, then a
/// `u32` in decimal.
pub fn rsid_to_u32(rsid: &str) -> (r: Result<u32, FormatError>)
    ensures
        r == rsid_of(rsid@),
{
    let n = rsid.unicode_len();
    if n >= 2 && rsid.get_char(0) == 'r' && rsid.get_char(1) == 's' {
        assert(rsid@.take(2) =~= rsid_prefix());
        match parse_u32(rsid.substring_char(2, n)) {
            Some(v) => Ok(v),
            None => Err(FormatError::BadIdentifier),
        }
    } else {
        proof {
            if rsid@.len() >= 2 && rsid@.take(2) == rsid_prefix() {
                assert(rsid@[0] == rsid@.take(2)[0]);
                assert(rsid@[1] == rsid@.take(2)[1]);
            }
        }
        Err(FormatError::BadIdentifier)
    }
}

/// The label of a chromosome code; any code outside 1 to 25 is an error.
pub fn u8_to_chrom(x: u8) -> (r: Result<String, FormatError>)
    ensures
        match r {
            Ok(s) => is_chrom_code(x) && s@ == chrom_label(x),
            Err(e) => !is_chrom_code(x) && e == FormatError::BadChromosome,
        },
{
    if 1 <= x && x <= 22 {
        Ok(decimal_to_string(x as u32))
    } else if x == 23 {
        proof { reveal_strlit("X"); }
        let s = String::from_str("X");
        assert(s@ =~= seq!['X']);
        Ok(s)
    } else if x == 24 {
        proof { reveal_strlit("Y"); }
        let s = String::from_str("Y");
        assert(s@ =~= seq!['Y']);
        Ok(s)
    } else if x == 25 {
        proof { reveal_strlit("MT"); }
        let s = String::from_str("MT");
        assert(s@ =~= seq!['M', 'T']);
        Ok(s)
    } else {
        Err(FormatError::BadChromosome)
    }
}

/// The code of a chromosome label: "1" to "22", "X", "Y" or "MT".
pub fn chrom_to_u8(chrom: &str) -> (r: Result<u8, FormatError>)
    ensures
        match r {
            Ok(c) => is_chrom_code(c) && chrom_label(c) == chrom@,
            Err(e) => e == FormatError::BadChromosome && forall|c: u8|
                is_chrom_code(c) ==> chrom_label(c) != chrom@,
        },
        r == chrom_code_of(chrom@),
{
    let wanted = String::from_str(chrom);
    let mut code: u8 = 1;
    while code <= 25
        invariant
            1 <= code <= 26,
            wanted@ == chrom@,
            forall|c: u8| 1 <= c < code ==> chrom_label(c) != chrom@,
        decreases 26 - code,
    {
        match u8_to_chrom(code) {
            Ok(label) => {
                if label == wanted {
                    proof {
                        let c = choose|c: u8| is_chrom_code(c) && chrom_label(c) == chrom@;
                        lemma_chrom_label_injective(c, code);
                    }
                    return Ok(code);
                }
            },
            Err(_) => {},
        }
        code = code + 1;
    }
    Err(FormatError::BadChromosome)
}

} // verus!
