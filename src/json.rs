//! JSON string literals as they appear in recording files: how a string is
//! quoted, where a quoted literal ends, and the blanks allowed between tokens.
use vstd::prelude::*;
use vstd::utf8::*;

verus! {

pub const QUOTE: u8 = 0x22;

pub const BACKSLASH: u8 = 0x5c;

/// Hexadecimal digit used in `\u00XX` escapes (lower case).
pub open spec fn hex_digit(n: u8) -> u8 {
    if n < 10 {
        (48 + n) as u8
    } else {
        (87 + n) as u8
    }
}

/// The escape written for one byte of a string's UTF-8 encoding.
pub open spec fn escaped_byte(b: u8) -> Seq<u8> {
    if b == QUOTE {
        seq![BACKSLASH, QUOTE]
    } else if b == BACKSLASH {
        seq![BACKSLASH, BACKSLASH]
    } else if b == 0x08 {
        seq![BACKSLASH, 0x62u8]
    } else if b == 0x0c {
        seq![BACKSLASH, 0x66u8]
    } else if b == 0x0a {
        seq![BACKSLASH, 0x6eu8]
    } else if b == 0x0d {
        seq![BACKSLASH, 0x72u8]
    } else if b == 0x09 {
        seq![BACKSLASH, 0x74u8]
    } else if b < 0x20 {
        seq![BACKSLASH, 0x75u8, 0x30u8, 0x30u8, hex_digit(b / 16), hex_digit(b % 16)]
    } else {
        seq![b]
    }
}

/// The escaped body of a string literal, byte by byte.
pub open spec fn escaped(bs: Seq<u8>) -> Seq<u8>
    decreases bs.len(),
{
    if bs.len() == 0 {
        seq![]
    } else {
        escaped_byte(bs[0]) + escaped(bs.drop_first())
    }
}

/// The JSON literal of a string whose UTF-8 encoding is `bs`.
pub open spec fn json_quote(bs: Seq<u8>) -> Seq<u8> {
    seq![QUOTE] + escaped(bs) + seq![QUOTE]
}

/// Offset of the quote that closes a literal whose body starts at `s[0]`,
/// or -1 when `s` holds no such quote.
pub open spec fn closing_quote(s: Seq<u8>) -> int
    decreases s.len(),
{
    if s.len() == 0 {
        -1
    } else if s[0] == QUOTE {
        0
    } else if s[0] == BACKSLASH {
        if s.len() < 2 {
            -1
        } else {
            let r = closing_quote(s.skip(2));
            if r < 0 {
                -1
            } else {
                r + 2
            }
        }
    } else {
        let r = closing_quote(s.skip(1));
        if r < 0 {
            -1
        } else {
            r + 1
        }
    }
}

/// The bytes that may follow a backslash in a JSON string.
pub open spec fn is_escape_letter(b: u8) -> bool {
    b == QUOTE || b == BACKSLASH || b == 0x2f || b == 0x62 || b == 0x66 || b == 0x6e || b == 0x72
        || b == 0x74 || b == 0x75
}

/// Whether the body of a literal, read up to its closing quote, holds a raw
/// control byte or a backslash before a byte that no JSON escape starts with.
pub open spec fn body_flaw(s: Seq<u8>) -> bool
    decreases s.len(),
{
    if s.len() == 0 || s[0] == QUOTE {
        false
    } else if s[0] < 0x20 {
        true
    } else if s[0] == BACKSLASH {
        if s.len() < 2 {
            false
        } else if !is_escape_letter(s[1]) {
            true
        } else {
            body_flaw(s.skip(2))
        }
    } else {
        body_flaw(s.skip(1))
    }
}

/// A literal that JSON rejects before its closing quote.
pub open spec fn literal_flaw(lit: Seq<u8>) -> bool {
    lit.len() > 0 && lit[0] == QUOTE && body_flaw(lit.skip(1))
}

pub open spec fn is_blank(b: u8) -> bool {
    b == 0x20 || b == 0x09 || b == 0x0a || b == 0x0d
}

/// Index of the first byte at or after `i` that is not a blank.
pub open spec fn skip_blanks_spec(s: Seq<u8>, i: int) -> int
    decreases s.len() - i,
{
    if i < 0 || i >= s.len() || !is_blank(s[i]) {
        i
    } else {
        skip_blanks_spec(s, i + 1)
    }
}

/// Relies on serde_json::to_vec for a `str`: it writes the string as a JSON
/// literal, escaping byte by byte through its fixed escape table; writing into
/// a `Vec` cannot fail.
#[verifier::external_body]
pub(crate) fn quote_str(s: &str) -> (r: Option<Vec<u8>>)
    ensures
        r is Some,
        r->Some_0@ == json_quote(encode_utf8(s@)),
{
    serde_json::to_vec(s).ok()
}

/// Relies on serde_json::from_slice into a `String`: a literal in the form that
/// serde_json writes decodes to the string that was written, and a raw control
/// byte or an unknown escape met before the closing quote is an error.
#[verifier::external_body]
pub(crate) fn unquote(lit: &[u8]) -> (r: Option<String>)
    ensures
        literal_flaw(lit@) ==> r is None,
        forall|s: Seq<char>|
            lit@ == #[trigger] json_quote(encode_utf8(s)) ==> r is Some && r->Some_0@ == s,
{
    serde_json::from_slice::<String>(lit).ok()
}

/// Index of the first byte at or after `i` that is not a blank.
pub fn skip_blanks(s: &[u8], i: usize) -> (r: usize)
    requires
        i <= s@.len(),
    ensures
        r as int == skip_blanks_spec(s@, i as int),
        i <= r <= s@.len(),
{
    let mut j: usize = i;
    while j < s.len() && (s[j] == 0x20 || s[j] == 0x09 || s[j] == 0x0a || s[j] == 0x0d)
        invariant
            i <= j <= s@.len(),
            skip_blanks_spec(s@, i as int) == skip_blanks_spec(s@, j as int),
        decreases s@.len() - j,
    {
        j = j + 1;
    }
    j
}

/// Finds the quote that closes the literal whose body starts at `start`.
pub fn find_closing_quote(s: &[u8], start: usize) -> (r: Option<usize>)
    requires
        start <= s@.len(),
    ensures
        match r {
            Some(k) => start <= k < s@.len() && k - start == closing_quote(s@.skip(start as int)),
            None => closing_quote(s@.skip(start as int)) < 0,
        },
{
    let mut i: usize = start;
    while i < s.len()
        invariant
            start <= i <= s@.len(),
            closing_quote(s@.skip(start as int)) == (if closing_quote(s@.skip(i as int)) < 0 {
                -1
            } else {
                closing_quote(s@.skip(i as int)) + (i - start)
            }),
        decreases s@.len() - i,
    {
        if s[i] == QUOTE {
            return Some(i);
        }
        if s[i] == BACKSLASH {
            if s.len() - i < 2 {
                assert(closing_quote(s@.skip(i as int)) == -1);
                return None;
            }
            assert(s@.skip(i as int).skip(2) =~= s@.skip(i + 2));
            i = i + 2;
        } else {
            assert(s@.skip(i as int).skip(1) =~= s@.skip(i + 1));
            i = i + 1;
        }
    }
    assert(s@.skip(i as int).len() == 0);
    None
}

/// Reads the string literal whose opening quote is at `i`; gives the decoded
/// text and the index just past the closing quote.
pub fn read_literal(s: &[u8], i: usize) -> (r: Option<(String, usize)>)
    requires
        i < s@.len(),
        s@[i as int] == QUOTE,
    ensures
        r matches Some((_, e)) ==> i < e <= s@.len() && e == i + 2 + closing_quote(s@.skip(i + 1)),
        closing_quote(s@.skip(i + 1)) < 0 ==> r is None,
        forall|c: Seq<char>|
            i + (#[trigger] json_quote(encode_utf8(c))).len() <= s@.len() && s@.subrange(
                i as int,
                i + json_quote(encode_utf8(c)).len(),
            ) == json_quote(encode_utf8(c)) ==> (r matches Some((v, e)) && v@ == c && e == i
                + json_quote(encode_utf8(c)).len()),
{
    let n = s.len();
    let q = match find_closing_quote(s, i + 1) {
        Some(q) => q,
        None => {
            proof {
                assert forall|c: Seq<char>|
                    i + (#[trigger] json_quote(encode_utf8(c))).len() <= s@.len() && s@.subrange(
                        i as int,
                        i + json_quote(encode_utf8(c)).len(),
                    ) == json_quote(encode_utf8(c)) implies false by {
                    lemma_literal_span(s@, i as int, encode_utf8(c));
                }
            }
            return None;
        },
    };
    let lit = &s[i..q + 1];
    let decoded = unquote(lit);
    proof {
        assert forall|c: Seq<char>|
            i + (#[trigger] json_quote(encode_utf8(c))).len() <= s@.len() && s@.subrange(
                i as int,
                i + json_quote(encode_utf8(c)).len(),
            ) == json_quote(encode_utf8(c)) implies (decoded matches Some(v) && v@ == c) && q + 1
            == i + json_quote(encode_utf8(c)).len() by {
            lemma_literal_span(s@, i as int, encode_utf8(c));
            assert(lit@ == json_quote(encode_utf8(c)));
        }
    }
    match decoded {
        Some(v) => Some((v, q + 1)),
        None => None,
    }
}

/// A literal written by `json_quote` closes where it ends.
pub proof fn lemma_literal_span(s: Seq<u8>, i: int, bs: Seq<u8>)
    requires
        0 <= i,
        i + json_quote(bs).len() <= s.len(),
        s.subrange(i, i + json_quote(bs).len()) == json_quote(bs),
    ensures
        closing_quote(s.skip(i + 1)) == escaped(bs).len(),
        json_quote(bs).len() == escaped(bs).len() + 2,
{
    let body = escaped(bs);
    let n = json_quote(bs).len() as int;
    let t = s.skip(i + 1 + body.len());
    assert(t[0] == QUOTE) by {
        assert(t[0] == s.subrange(i, i + n)[n - 1]);
    }
    assert(s.skip(i + 1) =~= body + t) by {
        assert forall|k: int| 0 <= k < body.len() implies s.skip(i + 1)[k] == body[k] by {
            assert(s.skip(i + 1)[k] == s.subrange(i, i + n)[k + 1]);
        }
    }
    lemma_escaped_scan(bs, t);
}

proof fn lemma_escaped_byte_scan(b: u8, rest: Seq<u8>)
    ensures
        closing_quote(escaped_byte(b) + rest) == (if closing_quote(rest) < 0 {
            -1
        } else {
            closing_quote(rest) + escaped_byte(b).len()
        }),
{
    let e = escaped_byte(b);
    let s = e + rest;
    if b == QUOTE || b == BACKSLASH || b == 0x08 || b == 0x0c || b == 0x0a || b == 0x0d || b
        == 0x09 {
        assert(s.skip(2) =~= rest);
    } else if b < 0x20 {
        assert(hex_digit(b / 16) != QUOTE && hex_digit(b / 16) != BACKSLASH);
        assert(hex_digit(b % 16) != QUOTE && hex_digit(b % 16) != BACKSLASH);
        let s2 = s.skip(2);
        let s3 = s2.skip(1);
        let s4 = s3.skip(1);
        let s5 = s4.skip(1);
        let s6 = s5.skip(1);
        assert(s6 =~= rest);
        assert(s2[0] == 0x30u8 && s3[0] == 0x30u8);
        assert(s4[0] == hex_digit(b / 16));
        assert(s5[0] == hex_digit(b % 16));
        assert(closing_quote(s5) == (if closing_quote(rest) < 0 {
            -1
        } else {
            closing_quote(rest) + 1
        }));
        assert(closing_quote(s4) == (if closing_quote(rest) < 0 {
            -1
        } else {
            closing_quote(rest) + 2
        }));
        assert(closing_quote(s3) == (if closing_quote(rest) < 0 {
            -1
        } else {
            closing_quote(rest) + 3
        }));
        assert(closing_quote(s2) == (if closing_quote(rest) < 0 {
            -1
        } else {
            closing_quote(rest) + 4
        }));
    } else {
        assert(s.skip(1) =~= rest);
    }
}

/// The body of a quoted literal holds no unescaped quote: the scan for the
/// closing quote stops right after it.
pub proof fn lemma_escaped_scan(bs: Seq<u8>, rest: Seq<u8>)
    requires
        rest.len() > 0,
        rest[0] == QUOTE,
    ensures
        closing_quote(escaped(bs) + rest) == escaped(bs).len(),
    decreases bs.len(),
{
    if bs.len() == 0 {
        assert(escaped(bs) + rest =~= rest);
    } else {
        lemma_escaped_scan(bs.drop_first(), rest);
        let tail = escaped(bs.drop_first()) + rest;
        lemma_escaped_byte_scan(bs[0], tail);
        assert(escaped(bs) + rest =~= escaped_byte(bs[0]) + tail);
    }
}

/// A quoted literal never holds a line break or a carriage return.
pub proof fn lemma_escaped_no_newline(bs: Seq<u8>)
    ensures
        forall|k: int| 0 <= k < escaped(bs).len() ==> escaped(bs)[k] != 0x0a && escaped(bs)[k] != 0x0d,
    decreases bs.len(),
{
    if bs.len() > 0 {
        lemma_escaped_no_newline(bs.drop_first());
        let b = bs[0];
        assert(hex_digit(b / 16) != 0x0a && hex_digit(b / 16) != 0x0d);
        assert(hex_digit(b % 16) != 0x0a && hex_digit(b % 16) != 0x0d);
        let e = escaped_byte(b);
        let r = escaped(bs.drop_first());
        assert forall|k: int| 0 <= k < escaped(bs).len() implies escaped(bs)[k] != 0x0a
            && escaped(bs)[k] != 0x0d by {
            if k < e.len() {
                assert(escaped(bs)[k] == e[k]);
            } else {
                assert(escaped(bs)[k] == r[k - e.len()]);
            }
        }
    }
}

} // verus!
