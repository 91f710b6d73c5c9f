//! The URL-safe Base64 alphabet, without padding.
use base64::engine::general_purpose::URL_SAFE_NO_PAD;
use base64::Engine;
use vstd::prelude::*;
use vstd::utf8::encode_utf8;

verus! {

/// The digit of the number `n`, which is less than 64.
pub open spec fn digit(n: int) -> char {
    if n < 26 {
        (65 + n) as char
    } else if n < 52 {
        (71 + n) as char
    } else if n < 62 {
        (n - 4) as char
    } else if n == 62 {
        '-'
    } else {
        '_'
    }
}

/// The spelling of a byte string: four digits for three bytes, and two or three for what is left.
pub open spec fn spelled(b: Seq<u8>) -> Seq<char>
    decreases b.len(),
{
    if b.len() == 0 {
        Seq::empty()
    } else if b.len() == 1 {
        seq![digit(b[0] as int / 4), digit((b[0] as int % 4) * 16)]
    } else if b.len() == 2 {
        seq![
            digit(b[0] as int / 4),
            digit((b[0] as int % 4) * 16 + b[1] as int / 16),
            digit((b[1] as int % 16) * 4),
        ]
    } else {
        seq![
            digit(b[0] as int / 4),
            digit((b[0] as int % 4) * 16 + b[1] as int / 16),
            digit((b[1] as int % 16) * 4 + b[2] as int / 64),
            digit(b[2] as int % 64),
        ] + spelled(b.skip(3))
    }
}

/// `base64::Engine::encode` of the engine `URL_SAFE_NO_PAD`: spells a byte string in the URL-safe
/// alphabet without padding.
#[verifier::external_body]
fn armored(b: &[u8]) -> (s: String)
    ensures
        s@ == spelled(b@),
{
    URL_SAFE_NO_PAD.encode(b)
}

/// `base64::Engine::decode` of the engine `URL_SAFE_NO_PAD`: accepts exactly the spellings that
/// encoding produces, so no padding and no stray bits in the last digit, and returns the bytes that
/// are spelled so.
#[verifier::external_body]
fn unarmored(s: &[u8]) -> (r: Option<Vec<u8>>)
    ensures
        match r {
            Some(b) => s@ == encode_utf8(spelled(b@)),
            None => forall|b: Seq<u8>| s@ != encode_utf8(#[trigger] spelled(b)),
        },
{
    URL_SAFE_NO_PAD.decode(s).ok()
}

proof fn lemma_digit_injective(m: int, n: int)
    requires
        0 <= m < 64,
        0 <= n < 64,
        digit(m) == digit(n),
    ensures
        m == n,
{
}

/// A spelling takes two characters for a last byte, three for two, and four for every three.
pub proof fn lemma_spelled_len(b: Seq<u8>)
    ensures
        spelled(b).len() == (4 * b.len() + 2) / 3,
    decreases b.len(),
{
    if b.len() > 2 {
        lemma_spelled_len(b.skip(3));
    }
}

/// Spellings are ASCII.
pub proof fn lemma_spelled_ascii(b: Seq<u8>)
    ensures
        forall|i: int|
            0 <= i < spelled(b).len() ==> '\0' <= #[trigger] spelled(b)[i] <= '\u{7f}',
    decreases b.len(),
{
    if b.len() > 2 {
        lemma_spelled_ascii(b.skip(3));
        assert forall|i: int| 0 <= i < spelled(b).len() implies '\0' <= #[trigger] spelled(b)[i]
            <= '\u{7f}' by {
            if i >= 4 {
                assert(spelled(b)[i] == spelled(b.skip(3))[i - 4]);
            }
        }
    }
}

/// No two byte strings are spelled alike.
pub proof fn lemma_spelled_injective(a: Seq<u8>, b: Seq<u8>)
    requires
        spelled(a) == spelled(b),
    ensures
        a == b,
    decreases a.len(),
{
    lemma_spelled_len(a);
    lemma_spelled_len(b);
    assert(a.len() == b.len());
    let s = spelled(a);
    if a.len() == 0 {
        assert(a =~= b);
    } else if a.len() == 1 {
        assert(s[0] == digit(a[0] as int / 4) && s[0] == digit(b[0] as int / 4));
        assert(s[1] == digit((a[0] as int % 4) * 16) && s[1] == digit((b[0] as int % 4) * 16));
        lemma_digit_injective(a[0] as int / 4, b[0] as int / 4);
        lemma_digit_injective((a[0] as int % 4) * 16, (b[0] as int % 4) * 16);
        assert(a =~= b);
    } else if a.len() == 2 {
        let (a0, a1) = (a[0] as int, a[1] as int);
        let (b0, b1) = (b[0] as int, b[1] as int);
        assert(s[0] == digit(a0 / 4) && s[0] == digit(b0 / 4));
        assert(s[1] == digit((a0 % 4) * 16 + a1 / 16) && s[1] == digit((b0 % 4) * 16 + b1 / 16));
        assert(s[2] == digit((a1 % 16) * 4) && s[2] == digit((b1 % 16) * 4));
        lemma_digit_injective(a0 / 4, b0 / 4);
        lemma_digit_injective((a0 % 4) * 16 + a1 / 16, (b0 % 4) * 16 + b1 / 16);
        lemma_digit_injective((a1 % 16) * 4, (b1 % 16) * 4);
        assert(a =~= b);
    } else {
        let (a0, a1, a2) = (a[0] as int, a[1] as int, a[2] as int);
        let (b0, b1, b2) = (b[0] as int, b[1] as int, b[2] as int);
        assert(s[0] == digit(a0 / 4) && s[0] == digit(b0 / 4));
        assert(s[1] == digit((a0 % 4) * 16 + a1 / 16) && s[1] == digit((b0 % 4) * 16 + b1 / 16));
        assert(s[2] == digit((a1 % 16) * 4 + a2 / 64) && s[2] == digit((b1 % 16) * 4 + b2 / 64));
        assert(s[3] == digit(a2 % 64) && s[3] == digit(b2 % 64));
        lemma_digit_injective(a0 / 4, b0 / 4);
        lemma_digit_injective((a0 % 4) * 16 + a1 / 16, (b0 % 4) * 16 + b1 / 16);
        lemma_digit_injective((a1 % 16) * 4 + a2 / 64, (b1 % 16) * 4 + b2 / 64);
        lemma_digit_injective(a2 % 64, b2 % 64);
        assert(s.skip(4) =~= spelled(a.skip(3)));
        assert(s.skip(4) =~= spelled(b.skip(3)));
        lemma_spelled_injective(a.skip(3), b.skip(3));
        assert forall|i: int| 0 <= i < a.len() implies a[i] == b[i] by {
            if i >= 3 {
                assert(a.skip(3)[i - 3] == b.skip(3)[i - 3]);
            }
        }
        assert(a =~= b);
    }
}

/// The byte string of which `s` is the spelling, in bytes.
pub open spec fn unspelled(s: Seq<u8>) -> Option<Seq<u8>> {
    if exists|b: Seq<u8>| s == encode_utf8(#[trigger] spelled(b)) {
        Some(choose|b: Seq<u8>| s == encode_utf8(#[trigger] spelled(b)))
    } else {
        None
    }
}

/// What a spelling stands for is what was spelled.
pub proof fn lemma_unspelled(b: Seq<u8>)
    ensures
        unspelled(encode_utf8(spelled(b))) == Some(b),
{
    let s = encode_utf8(spelled(b));
    let c = choose|c: Seq<u8>| s == encode_utf8(#[trigger] spelled(c));
    crate::message::lemma_utf8_injective(spelled(b), spelled(c));
    lemma_spelled_injective(b, c);
}

/// Spells `b` in the URL-safe alphabet.
pub fn armor(b: &[u8]) -> (s: String)
    ensures
        s@ == spelled(b@),
{
    armored(b)
}

/// Reads a spelling in the URL-safe alphabet.
pub fn unarmor(s: &[u8]) -> (r: Option<Vec<u8>>)
    ensures
        match r {
            Some(b) => unspelled(s@) == Some(b@),
            None => unspelled(s@) is None,
        },
{
    let r = unarmored(s);
    proof {
        if r is Some {
            lemma_unspelled(r->Some_0@);
        }
    }
    r
}

} // verus!
