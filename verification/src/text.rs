//! The few `std` string operations the library relies on that `vstd` leaves unspecified.
use vstd::prelude::*;
use vstd::utf8::{decode_utf8, valid_utf8};

verus! {

/// `String::push` appends one character.
pub assume_specification[ String::push ](s: &mut String, ch: char)
    ensures
        final(s)@ == old(s)@.push(ch),
;

/// `char::from_u32` gives the character with that scalar value, and `None` for a
/// surrogate or a value above `0x10FFFF`.
pub assume_specification[ core::char::from_u32 ](i: u32) -> (r: Option<char>)
    ensures
        r == (if (i <= 0xD7FF || (0xE000 <= i && i <= 0x10FFFF)) {
            Some(i as char)
        } else {
            None
        }),
;

/// The characters that `String::from_utf8_lossy` makes of `bytes`.
pub uninterp spec fn utf8_lossy(bytes: Seq<u8>) -> Seq<char>;

/// Decode `bytes` as UTF-8 with `String::from_utf8_lossy`: each ill-formed sequence
/// becomes U+FFFD. What it yields is named by `utf8_lossy`; of well-formed input it is
/// the plain decoding. Which replacement characters stand for which ill-formed input is
/// left unsaid.
#[verifier::external_body]
pub(crate) fn utf8_lossy_chars(bytes: &[u8]) -> (r: Vec<char>)
    ensures
        r@ == utf8_lossy(bytes@),
        valid_utf8(bytes@) ==> r@ == decode_utf8(bytes@),
{
    String::from_utf8_lossy(bytes).chars().collect()
}

/// The message `String::from_utf8` gives for ill-formed UTF-8 bytes (the `Display` of its
/// `FromUtf8Error`).
pub uninterp spec fn utf8_error_text(bytes: Seq<u8>) -> Seq<char>;

/// Decode `bytes` as UTF-8 with `String::from_utf8`: `Ok` exactly when they are
/// well-formed UTF-8, with the decoded characters; otherwise the error's message, named by
/// `utf8_error_text`.
#[verifier::external_body]
pub(crate) fn utf8_string(bytes: Vec<u8>) -> (r: Result<String, String>)
    ensures
        r is Ok <==> valid_utf8(bytes@),
        r matches Ok(s) ==> s@ == decode_utf8(bytes@),
        r matches Err(m) ==> m@ == utf8_error_text(bytes@),
{
    String::from_utf8(bytes).map_err(|e| e.to_string())
}

/// Whether `char::is_alphabetic` holds of a character: the Unicode `Alphabetic` property.
pub uninterp spec fn alphabetic(c: char) -> bool;

/// `char::is_alphabetic`. Of the ASCII characters exactly the letters `a-z` and `A-Z` are
/// alphabetic; what it says of other characters is named by `alphabetic`.
#[verifier::external_body]
pub(crate) fn is_alphabetic(c: char) -> (r: bool)
    ensures
        r == alphabetic(c),
        (c as u32) < 0x80 ==> (r <==> (('a' <= c && c <= 'z') || ('A' <= c && c <= 'Z'))),
{
    c.is_alphabetic()
}

/// The decimal digits of `n`.
pub open spec fn decimal(n: nat) -> Seq<char>
    decreases n,
{
    if n < 10 {
        seq![(48 + n) as char]
    } else {
        decimal(n / 10) + seq![(48 + n % 10) as char]
    }
}

/// The decimal digits of `n`, as a string.
pub(crate) fn decimal_exec(n: u64) -> (s: String)
    ensures
        s@ == decimal(n as nat),
{
    let mut digits: Vec<char> = Vec::new();
    let mut m = n;
    while m >= 10
        invariant
            decimal(n as nat) == decimal(m as nat) + digits@.reverse(),
        decreases m,
    {
        let d = m % 10;
        let ghost before = digits@;
        digits.push(((48 + d) as u8) as char);
        proof {
            assert(decimal(m as nat) == decimal((m / 10) as nat) + seq![(48 + m % 10) as char]);
            assert(digits@.reverse() =~= seq![(48 + m % 10) as char] + before.reverse());
        }
        m = m / 10;
    }
    let mut s = String::new();
    s.push(((48 + m) as u8) as char);
    let mut i = digits.len();
    assert(decimal(m as nat) == seq![(48 + m) as char]);
    while i > 0
        invariant
            i <= digits@.len(),
            s@ + digits@.subrange(0, i as int).reverse() == decimal(n as nat),
        decreases i,
    {
        let ghost before = s@;
        s.push(digits[i - 1]);
        proof {
            assert(digits@.subrange(0, i as int).reverse() =~= seq![digits@[i - 1]] + digits@.subrange(
                0,
                i - 1,
            ).reverse());
        }
        i = i - 1;
        assert(s@ + digits@.subrange(0, i as int).reverse() =~= before + digits@.subrange(
            0,
            i + 1,
        ).reverse());
    }
    assert(digits@.subrange(0, 0).reverse() =~= Seq::<char>::empty());
    assert(s@ =~= decimal(n as nat));
    s
}

/// The characters of a string literal.
pub(crate) fn literal(s: &str) -> (r: String)
    ensures
        r@ == s@,
{
    s.to_owned()
}

} // verus!
