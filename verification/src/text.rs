//! Text built from bytes and numbers: decimal and hexadecimal renderings,
//! and the few standard-library text conversions the library relies on.

use vstd::prelude::*;
use vstd::string::*;
use vstd::utf8::*;

verus! {

/// The ASCII code of the decimal digit `d`.
pub open spec fn decimal_digit(d: nat) -> u8 {
    (48 + d) as u8
}

/// The ASCII bytes of `n` written in decimal, without leading zeros.
pub open spec fn decimal_ascii(n: nat) -> Seq<u8>
    decreases n,
{
    if n < 10 {
        seq![decimal_digit(n)]
    } else {
        decimal_ascii(n / 10).push(decimal_digit(n % 10))
    }
}

/// `n` written in decimal.
pub open spec fn decimal_text(n: nat) -> Seq<char> {
    ascii_text(decimal_ascii(n))
}

/// `n` written in decimal, padded on the left with zeros to at least `width` digits.
pub open spec fn padded_decimal_text(n: nat, width: nat) -> Seq<char> {
    let digits = decimal_text(n);
    if digits.len() >= width {
        digits
    } else {
        Seq::new((width - digits.len()) as nat, |i: int| '0') + digits
    }
}

/// The ASCII code of the lowercase hexadecimal digit `d` (`d < 16`).
pub open spec fn hex_digit(d: u8) -> u8 {
    if d < 10 {
        (48 + d) as u8
    } else {
        (87 + d) as u8
    }
}

/// The ASCII bytes of `data` written as two lowercase hexadecimal digits per byte.
pub open spec fn hex_ascii(data: Seq<u8>) -> Seq<u8>
    decreases data.len(),
{
    if data.len() == 0 {
        seq![]
    } else {
        hex_ascii(data.drop_last()) + seq![hex_digit(data.last() / 16), hex_digit(data.last() % 16)]
    }
}

/// `data` written as two lowercase hexadecimal digits per byte.
pub open spec fn hex_text(data: Seq<u8>) -> Seq<char> {
    ascii_text(hex_ascii(data))
}

/// The characters whose codes are the given ASCII bytes.
pub open spec fn ascii_text(bytes: Seq<u8>) -> Seq<char> {
    Seq::new(bytes.len(), |i: int| bytes[i] as char)
}

pub open spec fn all_ascii(bytes: Seq<u8>) -> bool {
    forall|i: int| 0 <= i < bytes.len() ==> #[trigger] bytes[i] < 128
}

proof fn lemma_ascii_is_utf8(bytes: Seq<u8>)
    requires
        all_ascii(bytes),
    ensures
        valid_utf8(bytes),
        decode_utf8(bytes) == ascii_text(bytes),
{
    let chars = ascii_text(bytes);
    assert forall|i: int| 0 <= i < chars.len() implies '\0' <= #[trigger] chars[i] <= '\u{7f}' by {
        assert(bytes[i] < 128);
    }
    assert(is_ascii_chars(chars));
    is_ascii_chars_encode_utf8(chars);
    assert forall|i: int| 0 <= i < bytes.len() implies encode_utf8(chars)[i] == bytes[i] by {
        let b = bytes[i];
        assert(((b as char) as u8) == b);
    }
    assert(encode_utf8(chars) =~= bytes);
    encode_utf8_valid_utf8(chars);
    encode_utf8_decode_utf8(chars);
}

proof fn lemma_decimal_ascii(n: nat)
    ensures
        all_ascii(decimal_ascii(n)),
    decreases n,
{
    if n >= 10 {
        lemma_decimal_ascii(n / 10);
    }
}

proof fn lemma_hex_ascii(data: Seq<u8>)
    ensures
        all_ascii(hex_ascii(data)),
        hex_ascii(data).len() == 2 * data.len(),
    decreases data.len(),
{
    if data.len() > 0 {
        lemma_hex_ascii(data.drop_last());
    }
}

/// Turns ASCII bytes into a `String` holding the same characters.
fn ascii_string(bytes: Vec<u8>) -> (s: String)
    requires
        all_ascii(bytes@),
    ensures
        s@ == ascii_text(bytes@),
{
    proof {
        lemma_ascii_is_utf8(bytes@);
    }
    match utf8_string(bytes) {
        Ok(s) => s,
        Err(_) => {
            proof {
                assert(false);
            }
            String::new()
        },
    }
}

fn decimal_bytes(n: u64) -> (out: Vec<u8>)
    ensures
        out@ == decimal_ascii(n as nat),
    decreases n,
{
    if n < 10 {
        let mut v: Vec<u8> = Vec::new();
        v.push(48 + n as u8);
        proof {
            assert(v@ =~= decimal_ascii(n as nat));
        }
        v
    } else {
        let mut v = decimal_bytes(n / 10);
        v.push(48 + (n % 10) as u8);
        v
    }
}

/// `n` written in decimal.
pub fn decimal_string(n: u64) -> (s: String)
    ensures
        s@ == decimal_text(n as nat),
{
    proof {
        lemma_decimal_ascii(n as nat);
    }
    ascii_string(decimal_bytes(n))
}

/// `n` written in decimal with leading zeros up to `width` digits.
pub fn padded_decimal_string(n: u64, width: usize) -> (s: String)
    ensures
        s@ == padded_decimal_text(n as nat, width as nat),
{
    proof {
        lemma_decimal_ascii(n as nat);
    }
    let digits = decimal_bytes(n);
    let mut out: Vec<u8> = Vec::new();
    if digits.len() < width {
        let pad = width - digits.len();
        let mut i: usize = 0;
        while i < pad
            invariant
                i <= pad,
                out@ == Seq::new(i as nat, |k: int| 48u8),
            decreases pad - i,
        {
            out.push(48u8);
            i = i + 1;
            assert(out@ =~= Seq::new(i as nat, |k: int| 48u8));
        }
    }
    let ghost pad_part = out@;
    let mut j: usize = 0;
    while j < digits.len()
        invariant
            j <= digits@.len(),
            out@ == pad_part + digits@.take(j as int),
        decreases digits.len() - j,
    {
        out.push(digits[j]);
        j = j + 1;
        assert(out@ =~= pad_part + digits@.take(j as int));
    }
    assert(digits@.take(digits@.len() as int) =~= digits@);
    assert(all_ascii(out@));
    let s = ascii_string(out);
    proof {
        let t = decimal_text(n as nat);
        if digits@.len() < width {
            assert(s@ =~= Seq::new((width - t.len()) as nat, |i: int| '0') + t);
        } else {
            assert(s@ =~= t);
        }
    }
    s
}

/// `data` written as lowercase hexadecimal, two digits per byte.
pub fn hex_string(data: &[u8]) -> (s: String)
    ensures
        s@ == hex_text(data@),
{
    let mut out: Vec<u8> = Vec::new();
    let mut i: usize = 0;
    while i < data.len()
        invariant
            i <= data@.len(),
            out@ == hex_ascii(data@.take(i as int)),
        decreases data.len() - i,
    {
        let b = data[i];
        let hi = b / 16;
        let lo = b % 16;
        out.push(if hi < 10 { 48 + hi } else { 87 + hi });
        out.push(if lo < 10 { 48 + lo } else { 87 + lo });
        i = i + 1;
        proof {
            assert(data@.take(i as int).drop_last() =~= data@.take(i - 1));
            assert(out@ =~= hex_ascii(data@.take(i as int)));
        }
    }
    assert(data@.take(data@.len() as int) =~= data@);
    proof {
        lemma_hex_ascii(data@);
    }
    ascii_string(out)
}

/// What `String::from_utf8` reports, as text, for bytes that are not UTF-8.
pub uninterp spec fn utf8_error_text(bytes: Seq<u8>) -> Seq<char>;

/// `String::from_utf8`, with its error rendered as text. Std documents that it
/// succeeds exactly on valid UTF-8 and then holds the decoded characters; the
/// text of the error is left to `utf8_error_text`.
#[verifier::external_body]
pub(crate) fn utf8_string(bytes: Vec<u8>) -> (r: Result<String, String>)
    ensures
        r is Ok <==> valid_utf8(bytes@),
        r matches Ok(s) ==> s@ == decode_utf8(bytes@),
        r matches Err(m) ==> m@ == utf8_error_text(bytes@),
{
    match String::from_utf8(bytes) {
        Ok(s) => Ok(s),
        Err(e) => Err(e.to_string()),
    }
}

/// `core::str::from_utf8`: a string view of `bytes` exactly when they are valid UTF-8.
#[verifier::external_body]
pub(crate) fn utf8_str(bytes: &[u8]) -> (r: Option<&str>)
    ensures
        r is Some <==> valid_utf8(bytes@),
        r matches Some(s) ==> s@ == decode_utf8(bytes@),
{
    core::str::from_utf8(bytes).ok()
}

/// What `str::trim` leaves of a string: it without its leading and trailing
/// Unicode white space.
pub uninterp spec fn trimmed(s: Seq<char>) -> Seq<char>;

/// `str::trim`.
#[verifier::external_body]
pub(crate) fn trim_whitespace(s: &str) -> (r: &str)
    ensures
        r@ == trimmed(s@),
{
    s.trim()
}

/// What `String::from_utf8_lossy` makes of arbitrary bytes.
pub uninterp spec fn utf8_lossy_text(bytes: Seq<u8>) -> Seq<char>;

/// `String::from_utf8_lossy`, taken as an owned `String`. Std documents that
/// valid UTF-8 comes back decoded unchanged; invalid sequences are replaced in
/// a way left to `utf8_lossy_text`.
#[verifier::external_body]
pub(crate) fn utf8_lossy(bytes: &[u8]) -> (s: String)
    ensures
        s@ == utf8_lossy_text(bytes@),
        valid_utf8(bytes@) ==> s@ == decode_utf8(bytes@),
{
    String::from_utf8_lossy(bytes).to_string()
}

} // verus!
