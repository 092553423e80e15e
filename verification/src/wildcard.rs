//! The wildcard signature text grammar.
//!
//! A signature text is a left-to-right stream of tokens separated by spaces.
//! A token of exactly two hexadecimal digits is a concrete byte; any other
//! token — a wildcard marker such as two placeholder characters, or anything
//! that is no valid byte pair — is a wildcard. There is no escaping. The
//! grammar is read over the text's UTF-8 bytes.

use vstd::prelude::*;
use vstd::string::StringSliceAdditionalSpecFns;

verus! {

/// The byte is an ASCII hexadecimal digit.
pub open spec fn is_hex_digit(c: u8) -> bool {
    (48 <= c <= 57) || (65 <= c <= 70) || (97 <= c <= 102)
}

/// The numeric value of an ASCII hexadecimal digit.
pub open spec fn hex_digit_value(c: u8) -> u8
    recommends
        is_hex_digit(c),
{
    if 48 <= c <= 57 {
        (c - 48) as u8
    } else if 65 <= c <= 70 {
        (c - 55) as u8
    } else {
        (c - 87) as u8
    }
}

/// The pattern element one token stands for: a concrete byte when the token
/// is exactly two hexadecimal digits, a wildcard otherwise.
pub open spec fn token_byte(t: Seq<u8>) -> Option<u8> {
    if t.len() == 2 && is_hex_digit(t[0]) && is_hex_digit(t[1]) {
        Some((hex_digit_value(t[0]) * 16 + hex_digit_value(t[1])) as u8)
    } else {
        None
    }
}

/// The length of the token at the head of `s`: the number of bytes before
/// the first space.
pub open spec fn token_len(s: Seq<u8>) -> int
    decreases s.len(),
{
    if s.len() == 0 || s[0] == 32 {
        0
    } else {
        1 + token_len(s.subrange(1, s.len() as int))
    }
}

/// The head token's length never leaves the text, and a token starting with
/// a byte that is no space has at least that byte.
proof fn lemma_token_len_bounds(s: Seq<u8>)
    ensures
        0 <= token_len(s) <= s.len(),
        s.len() > 0 && s[0] != 32 ==> 1 <= token_len(s),
    decreases s.len(),
{
    if s.len() == 0 || s[0] == 32 {
    } else {
        lemma_token_len_bounds(s.subrange(1, s.len() as int));
    }
}

/// The pattern a signature text stands for: its space-separated tokens in
/// order, each read as [`token_byte`].
pub open spec fn parse_signature_spec(s: Seq<u8>) -> Seq<Option<u8>>
    decreases s.len(),
    via parse_signature_spec_decreases
{
    if s.len() == 0 {
        Seq::empty()
    } else if s[0] == 32 {
        parse_signature_spec(s.subrange(1, s.len() as int))
    } else {
        let e = token_len(s);
        seq![token_byte(s.subrange(0, e))] + parse_signature_spec(s.subrange(e, s.len() as int))
    }
}

#[via_fn]
proof fn parse_signature_spec_decreases(s: Seq<u8>) {
    lemma_token_len_bounds(s);
}

/// A signature text has no more tokens than bytes.
pub proof fn lemma_parse_len(s: Seq<u8>)
    ensures
        parse_signature_spec(s).len() <= s.len(),
    decreases s.len(),
{
    if s.len() == 0 {
    } else if s[0] == 32 {
        lemma_parse_len(s.subrange(1, s.len() as int));
    } else {
        lemma_token_len_bounds(s);
        lemma_parse_len(s.subrange(token_len(s), s.len() as int));
    }
}

/// A token reaches to `e` exactly when no byte before `e` is a space and `e`
/// is the text's end or a space.
proof fn lemma_token_len_is(s: Seq<u8>, e: int)
    requires
        0 <= e <= s.len(),
        forall|k: int| 0 <= k < e ==> s[k] != 32,
        e == s.len() || s[e] == 32,
    ensures
        token_len(s) == e,
    decreases s.len(),
{
    if s.len() == 0 || s[0] == 32 {
    } else {
        let t = s.subrange(1, s.len() as int);
        lemma_token_len_is(t, e - 1);
    }
}

/// The executable hexadecimal digit test.
fn hex_digit(c: u8) -> (r: bool)
    ensures
        r == is_hex_digit(c),
{
    (48 <= c && c <= 57) || (65 <= c && c <= 70) || (97 <= c && c <= 102)
}

/// Tokenizes a signature text left to right into the pattern it stands for:
/// one element per space-separated token, a concrete byte for a token of two
/// hexadecimal digits and a wildcard for every other token.
pub fn parse_signature(signature: &str) -> (r: Vec<Option<u8>>)
    ensures
        r@ == parse_signature_spec(signature.spec_bytes()),
{
    let bytes = signature.as_bytes();
    let n: usize = bytes.len();
    let mut out: Vec<Option<u8>> = Vec::new();
    let mut i: usize = 0;
    proof {
        assert(bytes@.subrange(0, n as int) =~= bytes@);
        assert(out@ + parse_signature_spec(bytes@) =~= parse_signature_spec(bytes@));
    }
    while i < n
        invariant
            n == bytes@.len(),
            bytes@ == signature.spec_bytes(),
            0 <= i <= n,
            parse_signature_spec(bytes@) == out@ + parse_signature_spec(
                bytes@.subrange(i as int, n as int),
            ),
        decreases n - i,
    {
        let ghost pre = out@;
        let ghost rest = bytes@.subrange(i as int, n as int);
        if bytes[i] == 32 {
            proof {
                assert(rest.subrange(1, rest.len() as int) =~= bytes@.subrange(
                    i + 1 as int,
                    n as int,
                ));
            }
            i = i + 1;
        } else {
            let mut j: usize = i + 1;
            while j < n && bytes[j] != 32
                invariant
                    n == bytes@.len(),
                    i < j <= n,
                    forall|k: int| i < k < j ==> bytes@[k] != 32,
                decreases n - j,
            {
                j = j + 1;
            }
            proof {
                assert forall|k: int| 0 <= k < j - i implies rest[k] != 32 by {
                    assert(rest[k] == bytes@[i + k]);
                }
                if j < n {
                    assert(rest[j - i] == bytes@[j as int]);
                }
                lemma_token_len_is(rest, j - i);
            }
            let tb: Option<u8> = if j - i == 2 && hex_digit(bytes[i]) && hex_digit(bytes[i + 1]) {
                Some(hex_value(bytes[i]) * 16 + hex_value(bytes[i + 1]))
            } else {
                None
            };
            proof {
                let tok = rest.subrange(0, j - i);
                assert(tok[0] == bytes@[i as int]);
                if j - i >= 2 {
                    assert(tok[1] == bytes@[i + 1 as int]);
                }
                assert(tb == token_byte(tok));
                assert(rest.subrange(j - i, rest.len() as int) =~= bytes@.subrange(
                    j as int,
                    n as int,
                ));
                assert(parse_signature_spec(rest) == seq![tb] + parse_signature_spec(
                    bytes@.subrange(j as int, n as int),
                ));
            }
            out.push(tb);
            proof {
                assert(out@ =~= pre + seq![tb]);
                assert(pre + (seq![tb] + parse_signature_spec(
                    bytes@.subrange(j as int, n as int),
                )) =~= out@ + parse_signature_spec(bytes@.subrange(j as int, n as int)));
            }
            i = j;
        }
    }
    proof {
        assert(bytes@.subrange(i as int, n as int) =~= Seq::<u8>::empty());
        assert(out@ =~= out@ + parse_signature_spec(bytes@.subrange(i as int, n as int)));
    }
    out
}

/// The executable value of an ASCII hexadecimal digit.
fn hex_value(c: u8) -> (r: u8)
    requires
        is_hex_digit(c),
    ensures
        r == hex_digit_value(c),
        r <= 15,
{
    if 48 <= c && c <= 57 {
        c - 48
    } else if 65 <= c && c <= 70 {
        c - 55
    } else {
        c - 87
    }
}

} // verus!
