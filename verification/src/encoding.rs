//! Text encodings at the edge of the library: hexadecimal byte strings (the
//! `hex` crate) and JSON lists of strings (`serde_json`).
use vstd::prelude::*;
use crate::field::{decimal_digits, digit_char};

verus! {

/// Whether `c` is a hexadecimal digit, in either case.
pub open spec fn is_hex_digit(c: char) -> bool {
    ||| '0' <= c && c <= '9'
    ||| 'a' <= c && c <= 'f'
    ||| 'A' <= c && c <= 'F'
}

/// The value of a hexadecimal digit.
pub open spec fn hex_digit_value(c: char) -> int {
    if '0' <= c && c <= '9' {
        c as int - 48
    } else if 'a' <= c && c <= 'f' {
        c as int - 87
    } else {
        c as int - 55
    }
}

/// Whether `s` is an even number of hexadecimal digits.
pub open spec fn is_hex(s: Seq<char>) -> bool {
    &&& s.len() % 2 == 0
    &&& forall|i: int| 0 <= i < s.len() ==> is_hex_digit(#[trigger] s[i])
}

/// The bytes written by a string of hexadecimal digits, two digits (high
/// nibble first) per byte.
pub open spec fn hex_decoded(s: Seq<char>) -> Seq<u8> {
    Seq::new(s.len() / 2, |i: int| (16 * hex_digit_value(s[2 * i]) + hex_digit_value(s[2 * i + 1])) as u8)
}

/// The lower-case hexadecimal digit of a nibble.
pub open spec fn lower_hex_digit(d: int) -> char {
    if d < 10 {
        (48 + d) as char
    } else {
        (87 + d) as char
    }
}

/// The lower-case hexadecimal text of a byte string, high nibble first.
pub open spec fn hex_encoded(b: Seq<u8>) -> Seq<char> {
    Seq::new(2 * b.len(), |i: int| if i % 2 == 0 {
        lower_hex_digit((b[i / 2] / 16) as int)
    } else {
        lower_hex_digit((b[i / 2] % 16) as int)
    })
}

/// Whether `m` begins with `p`.
pub open spec fn has_prefix(m: Seq<char>, p: Seq<char>) -> bool {
    &&& p.len() <= m.len()
    &&& m.subrange(0, p.len() as int) == p
}

/// Hexadecimal text is read back as the bytes it was written from.
pub proof fn lemma_hex_roundtrip(b: Seq<u8>)
    ensures
        is_hex(hex_encoded(b)),
        hex_decoded(hex_encoded(b)) == b,
{
    let s = hex_encoded(b);
    assert forall|i: int| 0 <= i < s.len() implies is_hex_digit(#[trigger] s[i]) by {
        let d: int = if i % 2 == 0 { (b[i / 2] / 16) as int } else { (b[i / 2] % 16) as int };
        lemma_lower_hex_digit(d);
    }
    assert forall|i: int| 0 <= i < b.len() implies #[trigger] hex_decoded(s)[i] == b[i] by {
        lemma_lower_hex_digit((b[i] / 16) as int);
        lemma_lower_hex_digit((b[i] % 16) as int);
        assert((2 * i) / 2 == i);
        assert((2 * i + 1) / 2 == i);
        assert((2 * i) % 2 == 0);
        assert((2 * i + 1) % 2 == 1);
    }
    assert(hex_decoded(s) =~= b);
}

proof fn lemma_lower_hex_digit(d: int)
    requires
        0 <= d < 16,
    ensures
        is_hex_digit(lower_hex_digit(d)),
        hex_digit_value(lower_hex_digit(d)) == d,
{
}

#[verifier::external_type_specification]
#[verifier::external_body]
pub struct ExFromHexError(hex::FromHexError);

#[verifier::external_type_specification]
#[verifier::external_body]
pub struct ExJsonError(serde_json::Error);

/// `hex::decode`: accepts an even number of hexadecimal digits in either
/// case and yields one byte for each pair, high nibble first.
#[verifier::external_body]
pub(crate) fn hex_decode(s: &str) -> (res: Result<Vec<u8>, hex::FromHexError>)
    ensures
        res is Ok <==> is_hex(s@),
        res matches Ok(b) ==> b@ == hex_decoded(s@),
{
    hex::decode(s)
}

/// `hex::encode`: two lower-case hexadecimal digits per byte.
#[verifier::external_body]
pub(crate) fn hex_encode(b: &[u8]) -> (s: String)
    ensures
        s@ == hex_encoded(b@),
{
    hex::encode(b)
}

/// `Display` of the `hex` crate's error, after a prefix (the standard
/// library's `format!`); the error's own text is not described.
#[verifier::external_body]
pub(crate) fn describe_hex_error(prefix: &str, e: &hex::FromHexError) -> (m: String)
    ensures
        has_prefix(m@, prefix@),
{
    format!("{}{}", prefix, e)
}

/// The list of strings that `serde_json` reads from a JSON text, if it
/// reads one.
pub uninterp spec fn json_string_list(text: Seq<char>) -> Option<Seq<Seq<char>>>;

/// The views of a list of strings.
pub open spec fn string_views(v: Seq<String>) -> Seq<Seq<char>> {
    v.map_values(|s: String| s@)
}

/// `serde_json::from_str::<Vec<String>>`: the named reading of the text.
#[verifier::external_body]
pub(crate) fn parse_string_list(text: &str) -> (res: Result<Vec<String>, serde_json::Error>)
    ensures
        res is Ok <==> json_string_list(text@) is Some,
        res matches Ok(v) ==> json_string_list(text@) == Some(string_views(v@)),
{
    serde_json::from_str::<Vec<String>>(text)
}

/// `Display` of `serde_json`'s error, after a prefix (the standard library's
/// `format!`); the error's own text is not described.
#[verifier::external_body]
pub(crate) fn describe_json_error(prefix: &str, e: &serde_json::Error) -> (m: String)
    ensures
        has_prefix(m@, prefix@),
{
    format!("{}{}", prefix, e)
}

/// `prefix` followed by `detail`.
pub fn prefixed(prefix: &str, detail: &str) -> (m: String)
    ensures
        m@ == prefix@ + detail@,
        has_prefix(m@, prefix@),
{
    let mut m = String::from_str(prefix);
    m.append(detail);
    assert(m@.subrange(0, prefix@.len() as int) =~= prefix@);
    m
}

/// The decimal text of `n` as `Display` writes it: its digits, or `0` for
/// zero.
pub open spec fn decimal_text(n: nat) -> Seq<char> {
    if n == 0 {
        seq!['0']
    } else {
        decimal_digits(n)
    }
}

/// The characters of decimal digits stored least significant first, most
/// significant first.
pub open spec fn digits_text(ds: Seq<u64>) -> Seq<char> {
    Seq::new(ds.len(), |i: int| digit_char(ds[ds.len() - 1 - i] as nat))
}

/// The one-character text of a decimal digit.
fn digit_str(d: u64) -> (s: &'static str)
    requires
        d < 10,
    ensures
        s@ == seq![digit_char(d as nat)],
{
    proof {
        reveal_strlit("0");
        reveal_strlit("1");
        reveal_strlit("2");
        reveal_strlit("3");
        reveal_strlit("4");
        reveal_strlit("5");
        reveal_strlit("6");
        reveal_strlit("7");
        reveal_strlit("8");
        reveal_strlit("9");
    }
    match d {
        0 => "0",
        1 => "1",
        2 => "2",
        3 => "3",
        4 => "4",
        5 => "5",
        6 => "6",
        7 => "7",
        8 => "8",
        _ => "9",
    }
}

/// The decimal text of a count.
pub fn usize_to_text(n: usize) -> (s: String)
    ensures
        s@ == decimal_text(n as nat),
{
    if n == 0 {
        proof {
            reveal_strlit("0");
        }
        return String::from_str("0");
    }
    let mut digits: Vec<u64> = Vec::new();
    let mut m: usize = n;
    proof {
        assert(digits_text(digits@) =~= Seq::<char>::empty());
        assert(decimal_digits(n as nat) =~= decimal_digits(m as nat) + digits_text(digits@));
    }
    while m > 0
        invariant
            decimal_digits(n as nat) == decimal_digits(m as nat) + digits_text(digits@),
            forall|i: int| 0 <= i < digits@.len() ==> #[trigger] digits@[i] < 10,
        decreases m,
    {
        let d = (m % 10) as u64;
        let ghost before = digits@;
        digits.push(d);
        proof {
            assert(digits_text(digits@) =~= seq![digit_char(d as nat)] + digits_text(before));
            assert(decimal_digits(m as nat) == decimal_digits((m / 10) as nat).push(digit_char((m % 10) as nat)));
            assert(decimal_digits(m as nat) + digits_text(before)
                =~= decimal_digits((m / 10) as nat) + digits_text(digits@));
        }
        m = m / 10;
    }
    proof {
        assert(decimal_digits(0) =~= Seq::<char>::empty());
        assert(decimal_digits(n as nat) =~= digits_text(digits@));
    }
    let mut s = String::new();
    let mut k: usize = digits.len();
    while k > 0
        invariant
            k <= digits@.len(),
            forall|i: int| 0 <= i < digits@.len() ==> #[trigger] digits@[i] < 10,
            s@ == digits_text(digits@).take(digits@.len() - k),
        decreases k,
    {
        k = k - 1;
        let piece = digit_str(digits[k]);
        s.append(piece);
        proof {
            assert(digits_text(digits@).take(digits@.len() - k)
                =~= digits_text(digits@).take(digits@.len() - k - 1).push(digit_char(digits@[k as int] as nat)));
        }
    }
    proof {
        assert(digits_text(digits@).take(digits@.len() as int) =~= digits_text(digits@));
    }
    s
}

} // verus!
