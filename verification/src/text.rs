//! String emission and key comparison: quoting and escaping of UTF-8 text,
//! rendering a single character through the string path, and the
//! byte-lexicographic comparison that orders mapping keys.

use vstd::prelude::*;
use vstd::utf8::char_is_scalar;
use vstd::utf8::encode_scalar;

use crate::encoding::{escape_bytes, lex_lt, str_bytes, str_encoding, BACKSLASH, QUOTE};
use crate::encoding::{lemma_escape_bytes_push, lemma_lex_skip};

verus! {

/// The UTF-8 bytes of one character.
fn char_utf8(c: char) -> (v: Vec<u8>)
    ensures
        v@ == encode_scalar(c as u32),
{
    proof {
        broadcast use char_is_scalar;

    }
    let n = c as u32;
    let mut v: Vec<u8> = Vec::new();
    if n < 0x80 {
        v.push((n & 0x7F) as u8);
    } else if n < 0x800 {
        v.push(0xC0 | (((n >> 6) & 0x1F) as u8));
        v.push(0x80 | ((n & 0x3F) as u8));
    } else if n < 0x10000 {
        v.push(0xE0 | (((n >> 12) & 0x0F) as u8));
        v.push(0x80 | (((n >> 6) & 0x3F) as u8));
        v.push(0x80 | ((n & 0x3F) as u8));
    } else {
        v.push(0xF0 | (((n >> 18) & 0x7) as u8));
        v.push(0x80 | (((n >> 12) & 0x3F) as u8));
        v.push(0x80 | (((n >> 6) & 0x3F) as u8));
        v.push(0x80 | ((n & 0x3F) as u8));
    }
    proof {
        assert(v@ =~= encode_scalar(c as u32));
    }
    v
}

/// Append the escaped form of `bytes` to `out`: quote and backslash gain a
/// backslash prefix, everything else is copied verbatim.
fn escape_raw(out: &mut Vec<u8>, bytes: &[u8])
    ensures
        final(out)@ == old(out)@ + escape_bytes(bytes@),
{
    let n = bytes.len();
    let mut i: usize = 0;
    while i < n
        invariant
            i <= n,
            n == bytes@.len(),
            out@ == old(out)@ + escape_bytes(bytes@.take(i as int)),
        decreases n - i,
    {
        let b = bytes[i];
        if b == QUOTE || b == BACKSLASH {
            out.push(BACKSLASH);
            out.push(b);
        } else {
            out.push(b);
        }
        proof {
            lemma_escape_bytes_push(bytes@.take(i as int), b);
            assert(bytes@.take(i as int).push(b) =~= bytes@.take(i + 1 as int));
            assert(out@ =~= old(out)@ + escape_bytes(bytes@.take(i + 1 as int)));
        }
        i += 1;
    }
    proof {
        assert(bytes@.take(n as int) =~= bytes@);
    }
}

/// Append the encoding of string `v` to `out`: its escaped UTF-8 bytes
/// wrapped in double quotes. Multi-byte sequences pass through
/// byte-for-byte; only quote and backslash are escaped.
pub fn escape_str(out: &mut Vec<u8>, v: &str)
    ensures
        final(out)@ == old(out)@ + str_encoding(str_bytes(v@)),
{
    out.push(QUOTE);
    escape_raw(out, v.as_bytes());
    out.push(QUOTE);
    proof {
        assert(final(out)@ =~= old(out)@ + str_encoding(str_bytes(v@)));
    }
}

/// Append the encoding of one character to `out`, through the string path:
/// its escaped UTF-8 bytes wrapped in double quotes.
pub fn escape_char(out: &mut Vec<u8>, v: char)
    ensures
        final(out)@ == old(out)@ + str_encoding(encode_scalar(v as u32)),
{
    let bytes = char_utf8(v);
    out.push(QUOTE);
    escape_raw(out, bytes.as_slice());
    out.push(QUOTE);
    proof {
        assert(final(out)@ =~= old(out)@ + str_encoding(encode_scalar(v as u32)));
    }
}

/// How a candidate key compares to the previous key of the same mapping.
pub(crate) enum KeyOrder {
    Less,
    Equal,
    Greater,
}

/// Compare two byte strings lexicographically.
pub(crate) fn lex_cmp(a: &[u8], b: &[u8]) -> (r: KeyOrder)
    ensures
        (r matches KeyOrder::Less) <==> lex_lt(a@, b@),
        (r matches KeyOrder::Equal) <==> a@ == b@,
        (r matches KeyOrder::Greater) <==> lex_lt(b@, a@),
{
    let alen = a.len();
    let blen = b.len();
    let n = if alen < blen {
        alen
    } else {
        blen
    };
    let mut i: usize = 0;
    while i < n
        invariant
            i <= n,
            n == if alen < blen {
                alen
            } else {
                blen
            },
            alen == a@.len(),
            blen == b@.len(),
            forall|j: int| 0 <= j < i ==> a@[j] == b@[j],
        decreases n - i,
    {
        let x = a[i];
        let y = b[i];
        if x < y {
            proof {
                lemma_lex_skip(a@, b@, i as int);
                lemma_lex_skip(b@, a@, i as int);
                assert(a@.skip(i as int)[0] == a@[i as int]);
                assert(b@.skip(i as int)[0] == b@[i as int]);
                assert(lex_lt(a@, b@));
                assert(!lex_lt(b@, a@));
                assert(a@ != b@);
            }
            return KeyOrder::Less;
        }
        if x > y {
            proof {
                lemma_lex_skip(a@, b@, i as int);
                lemma_lex_skip(b@, a@, i as int);
                assert(a@.skip(i as int)[0] == a@[i as int]);
                assert(b@.skip(i as int)[0] == b@[i as int]);
                assert(lex_lt(b@, a@));
                assert(!lex_lt(a@, b@));
                assert(a@ != b@);
            }
            return KeyOrder::Greater;
        }
        i += 1;
    }
    proof {
        lemma_lex_skip(a@, b@, n as int);
        lemma_lex_skip(b@, a@, n as int);
    }
    if alen == blen {
        proof {
            assert(a@ =~= b@);
            assert(a@.skip(n as int).len() == 0);
            assert(!lex_lt(a@, b@));
            assert(!lex_lt(b@, a@));
        }
        KeyOrder::Equal
    } else if alen < blen {
        proof {
            assert(a@.skip(n as int).len() == 0);
            assert(b@.skip(n as int).len() > 0);
            assert(lex_lt(a@, b@));
            assert(!lex_lt(b@, a@));
        }
        KeyOrder::Less
    } else {
        proof {
            assert(b@.skip(n as int).len() == 0);
            assert(a@.skip(n as int).len() > 0);
            assert(lex_lt(b@, a@));
            assert(!lex_lt(a@, b@));
        }
        KeyOrder::Greater
    }
}

} // verus!
