//! The first line of a recording: format version, terminal size, start time
//! and environment, as a JSON object in a fixed layout.
use vstd::prelude::*;
use vstd::utf8::*;

use crate::event::{FormatError, COMMA};
use crate::json::{json_quote, read_literal, quote_str, QUOTE};
use crate::number::{
    decimal, digit_run_end, digits_value, is_digit, lemma_decimal, lemma_decimal_reads_back,
    parse_digits, push_decimal, push_signed, signed_decimal, MINUS,
};

verus! {

pub const COLON: u8 = 0x3a;

pub const CLOSE_BRACE: u8 = 0x7d;

/// The format version this library writes.
pub const FORMAT_VERSION: u8 = 2;

/// One environment variable recorded in the header.
#[derive(Clone, Debug)]
pub struct EnvVar {
    pub name: String,
    pub value: String,
}

impl View for EnvVar {
    type V = (Seq<char>, Seq<char>);

    open spec fn view(&self) -> (Seq<char>, Seq<char>) {
        (self.name@, self.value@)
    }
}

/// What a recording states about itself before its events.
#[derive(Clone, Debug)]
pub struct RecordHeader {
    pub version: u8,
    pub width: i16,
    pub height: i16,
    /// Start of the recording in seconds since the Unix epoch.
    pub timestamp: u64,
    /// Variables in the order they were set; no name occurs twice.
    pub environment: Vec<EnvVar>,
}

pub open spec fn env_model(env: Seq<EnvVar>) -> Seq<(Seq<char>, Seq<char>)> {
    env.map_values(|e: EnvVar| e@)
}

pub open spec fn names_unique(env: Seq<(Seq<char>, Seq<char>)>) -> bool {
    forall|i: int, j: int| 0 <= i < j < env.len() ==> env[i].0 != env[j].0
}

pub open spec fn key_version() -> Seq<u8> {
    seq![0x7bu8, 0x22, 0x76, 0x65, 0x72, 0x73, 0x69, 0x6f, 0x6e, 0x22, 0x3a]
}

pub open spec fn key_width() -> Seq<u8> {
    seq![0x2cu8, 0x22, 0x77, 0x69, 0x64, 0x74, 0x68, 0x22, 0x3a]
}

pub open spec fn key_height() -> Seq<u8> {
    seq![0x2cu8, 0x22, 0x68, 0x65, 0x69, 0x67, 0x68, 0x74, 0x22, 0x3a]
}

pub open spec fn key_timestamp() -> Seq<u8> {
    seq![0x2cu8, 0x22, 0x74, 0x69, 0x6d, 0x65, 0x73, 0x74, 0x61, 0x6d, 0x70, 0x22, 0x3a]
}

pub open spec fn key_env() -> Seq<u8> {
    seq![0x2cu8, 0x22, 0x65, 0x6e, 0x76, 0x22, 0x3a, 0x7b]
}

pub open spec fn env_entry(e: (Seq<char>, Seq<char>)) -> Seq<u8> {
    json_quote(encode_utf8(e.0)) + seq![COLON] + json_quote(encode_utf8(e.1))
}

/// The members of the `env` object, separated by commas.
pub open spec fn env_entries(env: Seq<(Seq<char>, Seq<char>)>) -> Seq<u8>
    decreases env.len(),
{
    if env.len() == 0 {
        seq![]
    } else if env.len() == 1 {
        env_entry(env[0])
    } else {
        env_entries(env.drop_last()) + seq![COMMA] + env_entry(env.last())
    }
}

/// The header line, without its line break.
pub open spec fn header_line(
    version: nat,
    width: int,
    height: int,
    timestamp: nat,
    env: Seq<(Seq<char>, Seq<char>)>,
) -> Seq<u8> {
    key_version() + decimal(version) + key_width() + signed_decimal(width) + key_height()
        + signed_decimal(height) + key_timestamp() + decimal(timestamp) + key_env() + env_entries(
        env,
    ) + seq![CLOSE_BRACE, CLOSE_BRACE]
}

impl RecordHeader {
    pub open spec fn env(&self) -> Seq<(Seq<char>, Seq<char>)> {
        env_model(self.environment@)
    }

    pub open spec fn wf(&self) -> bool {
        names_unique(self.env())
    }

    pub open spec fn line(&self) -> Seq<u8> {
        header_line(
            self.version as nat,
            self.width as int,
            self.height as int,
            self.timestamp as nat,
            self.env(),
        )
    }
}

/// `s` is the line of a header with these fields.
pub open spec fn is_header_line(
    s: Seq<u8>,
    version: nat,
    width: int,
    height: int,
    timestamp: nat,
    env: Seq<(Seq<char>, Seq<char>)>,
) -> bool {
    &&& version <= u8::MAX
    &&& i16::MIN <= width <= i16::MAX
    &&& i16::MIN <= height <= i16::MAX
    &&& timestamp <= u64::MAX
    &&& names_unique(env)
    &&& s == header_line(version, width, height, timestamp, env)
}

pub fn push_all(out: &mut Vec<u8>, bytes: &[u8])
    ensures
        final(out)@ == old(out)@ + bytes@,
{
    let mut i: usize = 0;
    while i < bytes.len()
        invariant
            i <= bytes@.len(),
            out@ == old(out)@ + bytes@.subrange(0, i as int),
        decreases bytes@.len() - i,
    {
        out.push(bytes[i]);
        i = i + 1;
        assert(out@ =~= old(out)@ + bytes@.subrange(0, i as int));
    }
    assert(bytes@.subrange(0, i as int) =~= bytes@);
}

/// Whether `bytes` stands in `s` at `i`.
fn matches_at(s: &[u8], i: usize, bytes: &[u8]) -> (r: bool)
    requires
        i <= s@.len(),
    ensures
        r == (i + bytes@.len() <= s@.len() && s@.subrange(i as int, i + bytes@.len()) == bytes@),
{
    if s.len() - i < bytes.len() {
        return false;
    }
    let n = s.len();
    let mut k: usize = 0;
    while k < bytes.len()
        invariant
            k <= bytes@.len(),
            n == s@.len(),
            i + bytes@.len() <= s@.len(),
            forall|m: int| 0 <= m < k ==> s@[i + m] == bytes@[m],
        decreases bytes@.len() - k,
    {
        if s[i + k] != bytes[k] {
            assert(s@.subrange(i as int, i + bytes@.len())[k as int] != bytes@[k as int]);
            return false;
        }
        k = k + 1;
    }
    assert(s@.subrange(i as int, i + bytes@.len()) =~= bytes@);
    true
}

fn push_entry(out: &mut Vec<u8>, e: &EnvVar)
    ensures
        final(out)@ == old(out)@ + env_entry(e@),
{
    let mut name = match quote_str(e.name.as_str()) {
        Some(v) => v,
        None => Vec::new(),
    };
    let mut value = match quote_str(e.value.as_str()) {
        Some(v) => v,
        None => Vec::new(),
    };
    out.append(&mut name);
    out.push(COLON);
    out.append(&mut value);
    assert(final(out)@ =~= old(out)@ + env_entry(e@));
}

/// Writes the header line, without its line break.
pub fn header_to_line(h: &RecordHeader) -> (r: Vec<u8>)
    ensures
        r@ == h.line(),
{
    let mut out: Vec<u8> = Vec::new();
    push_all(&mut out, &[0x7bu8, 0x22, 0x76, 0x65, 0x72, 0x73, 0x69, 0x6f, 0x6e, 0x22, 0x3a]);
    push_decimal(&mut out, h.version as u64);
    push_all(&mut out, &[0x2cu8, 0x22, 0x77, 0x69, 0x64, 0x74, 0x68, 0x22, 0x3a]);
    push_signed(&mut out, h.width as i64);
    push_all(&mut out, &[0x2cu8, 0x22, 0x68, 0x65, 0x69, 0x67, 0x68, 0x74, 0x22, 0x3a]);
    push_signed(&mut out, h.height as i64);
    push_all(
        &mut out,
        &[0x2cu8, 0x22, 0x74, 0x69, 0x6d, 0x65, 0x73, 0x74, 0x61, 0x6d, 0x70, 0x22, 0x3a],
    );
    push_decimal(&mut out, h.timestamp);
    push_all(&mut out, &[0x2cu8, 0x22, 0x65, 0x6e, 0x76, 0x22, 0x3a, 0x7b]);
    let ghost start = out@;
    let mut k: usize = 0;
    while k < h.environment.len()
        invariant
            k <= h.environment@.len(),
            out@ == start + env_entries(h.env().take(k as int)),
        decreases h.environment@.len() - k,
    {
        proof {
            lemma_entries_take_step(h.env(), k as int);
        }
        if k > 0 {
            out.push(COMMA);
        }
        push_entry(&mut out, &h.environment[k]);
        k = k + 1;
        assert(out@ =~= start + env_entries(h.env().take(k as int)));
    }
    assert(h.env().take(k as int) =~= h.env());
    out.push(CLOSE_BRACE);
    out.push(CLOSE_BRACE);
    assert(out@ =~= h.line());
    out
}

proof fn lemma_entries_take_step(env: Seq<(Seq<char>, Seq<char>)>, k: int)
    requires
        0 <= k < env.len(),
    ensures
        env_entries(env.take(k + 1)) == (if k == 0 {
            env_entry(env[0])
        } else {
            env_entries(env.take(k)) + seq![COMMA] + env_entry(env[k])
        }),
{
    assert(env.take(k + 1).drop_last() =~= env.take(k));
}

proof fn lemma_entries_prefix(env: Seq<(Seq<char>, Seq<char>)>, j: int)
    requires
        0 <= j <= env.len(),
    ensures
        env_entries(env.take(j)).len() <= env_entries(env).len(),
        env_entries(env).subrange(0, env_entries(env.take(j)).len() as int) == env_entries(
            env.take(j),
        ),
    decreases env.len(),
{
    if j == env.len() {
        assert(env.take(j) =~= env);
        assert(env_entries(env).subrange(0, env_entries(env).len() as int) =~= env_entries(env));
    } else {
        let d = env.drop_last();
        lemma_entries_prefix(d, j);
        assert(d.take(j) =~= env.take(j));
        let x = env_entries(env.take(j));
        if env.len() == 1 {
            assert(env.take(j) =~= Seq::<(Seq<char>, Seq<char>)>::empty());
            assert(env_entries(env).subrange(0, 0) =~= x);
        } else {
            assert(env_entries(env).subrange(0, x.len() as int) =~= env_entries(d).subrange(
                0,
                x.len() as int,
            ));
        }
    }
}

/// Where a signed number that starts at `i` ends.
pub open spec fn signed_end(s: Seq<u8>, i: int) -> int {
    if i < s.len() && s[i] == MINUS {
        digit_run_end(s, i + 1)
    } else {
        digit_run_end(s, i)
    }
}

pub open spec fn signed_well_formed(s: Seq<u8>, i: int) -> bool {
    if i < s.len() && s[i] == MINUS {
        digit_run_end(s, i + 1) > i + 1
    } else {
        digit_run_end(s, i) > i
    }
}

pub open spec fn signed_value(s: Seq<u8>, i: int) -> int {
    if i < s.len() && s[i] == MINUS {
        -digits_value(s.subrange(i + 1, digit_run_end(s, i + 1)))
    } else {
        digits_value(s.subrange(i, digit_run_end(s, i))) as int
    }
}

/// Reads a signed number that must fit an `i16`.
fn parse_i16(s: &[u8], i: usize) -> (r: Option<(i16, usize)>)
    requires
        i <= s@.len(),
    ensures
        r is Some <==> signed_well_formed(s@, i as int) && i16::MIN <= signed_value(s@, i as int)
            <= i16::MAX,
        r matches Some((v, e)) ==> v == signed_value(s@, i as int) && e == signed_end(s@, i as int)
            && e <= s@.len(),
{
    let neg = i < s.len() && s[i] == MINUS;
    let start = if neg {
        i + 1
    } else {
        i
    };
    match parse_digits(s, start) {
        None => None,
        Some((m, e)) => {
            if neg {
                if m <= 32768 {
                    Some(((0 - m as i64) as i16, e))
                } else {
                    None
                }
            } else {
                if m <= 32767 {
                    Some((m as i16, e))
                } else {
                    None
                }
            }
        },
    }
}

/// A signed number written by `signed_decimal` reads back as itself.
proof fn lemma_signed_reads_back(s: Seq<u8>, i: int, n: int)
    requires
        0 <= i,
        i + signed_decimal(n).len() <= s.len(),
        s.subrange(i, i + signed_decimal(n).len()) == signed_decimal(n),
        i + signed_decimal(n).len() < s.len() ==> !is_digit(s[i + signed_decimal(n).len()]),
    ensures
        signed_well_formed(s, i),
        signed_end(s, i) == i + signed_decimal(n).len(),
        signed_value(s, i) == n,
{
    let sd = signed_decimal(n);
    if n < 0 {
        let m = (-n) as nat;
        lemma_decimal(m);
        assert(s[i] == MINUS) by {
            assert(s[i] == s.subrange(i, i + sd.len())[0]);
        }
        assert(s.subrange(i + 1, i + 1 + decimal(m).len()) =~= decimal(m)) by {
            assert forall|k: int| 0 <= k < decimal(m).len() implies s.subrange(
                i + 1,
                i + 1 + decimal(m).len(),
            )[k] == decimal(m)[k] by {
                assert(s[i + 1 + k] == s.subrange(i, i + sd.len())[k + 1]);
            }
        }
        lemma_decimal_reads_back(s, i + 1, m);
    } else {
        lemma_decimal(n as nat);
        assert(!(s[i] == MINUS)) by {
            assert(s[i] == s.subrange(i, i + sd.len())[0]);
            assert(is_digit(decimal(n as nat)[0]));
        }
        lemma_decimal_reads_back(s, i, n as nat);
    }
}

/// Offset at which the `env` members start in a header line.
pub open spec fn env_start(version: nat, width: int, height: int, timestamp: nat) -> int {
    (11 + decimal(version).len() + 9 + signed_decimal(width).len() + 10 + signed_decimal(
        height,
    ).len() + 13 + decimal(timestamp).len() + 8) as int
}

/// Where the pieces of a header line stand.
pub open spec fn header_layout(
    s: Seq<u8>,
    version: nat,
    width: int,
    height: int,
    timestamp: nat,
    env: Seq<(Seq<char>, Seq<char>)>,
) -> bool {
    let a = 11int;
    let b = a + decimal(version).len();
    let c = b + 9;
    let d = c + signed_decimal(width).len();
    let e = d + 10;
    let f = e + signed_decimal(height).len();
    let g = f + 13;
    let t = g + decimal(timestamp).len();
    let st = t + 8;
    &&& st == env_start(version, width, height, timestamp)
    &&& s.subrange(0, a) == key_version()
    &&& digit_run_end(s, a) == b && digits_value(s.subrange(a, b)) == version
    &&& s.subrange(b, c) == key_width()
    &&& signed_well_formed(s, c) && signed_end(s, c) == d && signed_value(s, c) == width
    &&& s.subrange(d, e) == key_height()
    &&& signed_well_formed(s, e) && signed_end(s, e) == f && signed_value(s, e) == height
    &&& s.subrange(f, g) == key_timestamp()
    &&& digit_run_end(s, g) == t && digits_value(s.subrange(g, t)) == timestamp
    &&& s.subrange(t, st) == key_env()
    &&& s.subrange(st, st + env_entries(env).len()) == env_entries(env)
    &&& s.len() == st + env_entries(env).len() + 2
    &&& s[st + env_entries(env).len()] == CLOSE_BRACE
    &&& s[st + env_entries(env).len() + 1] == CLOSE_BRACE
        }

proof fn lemma_piece(s: Seq<u8>, pre: Seq<u8>, piece: Seq<u8>)
    requires
        pre.len() + piece.len() <= s.len(),
        s.subrange(0, (pre.len() + piece.len()) as int) == pre + piece,
    ensures
        s.subrange(0, pre.len() as int) == pre,
        s.subrange(pre.len() as int, (pre.len() + piece.len()) as int) == piece,
{
    let n = (pre.len() + piece.len()) as int;
    assert(s.subrange(0, pre.len() as int) =~= s.subrange(0, n).subrange(0, pre.len() as int));
    assert((pre + piece).subrange(0, pre.len() as int) =~= pre);
    assert(s.subrange(pre.len() as int, n) =~= s.subrange(0, n).subrange(pre.len() as int, n));
    assert((pre + piece).subrange(pre.len() as int, n) =~= piece);
}

/// Where the pieces of a written header line stand.
#[verifier::rlimit(30)]
proof fn lemma_header_layout(
    s: Seq<u8>,
    version: nat,
    width: int,
    height: int,
    timestamp: nat,
    env: Seq<(Seq<char>, Seq<char>)>,
)
    requires
        s == header_line(version, width, height, timestamp, env),
    ensures
        header_layout(s, version, width, height, timestamp, env),
{
    let p1 = key_version();
    let p2 = p1 + decimal(version);
    let p3 = p2 + key_width();
    let p4 = p3 + signed_decimal(width);
    let p5 = p4 + key_height();
    let p6 = p5 + signed_decimal(height);
    let p7 = p6 + key_timestamp();
    let p8 = p7 + decimal(timestamp);
    let p9 = p8 + key_env();
    let p10 = p9 + env_entries(env);
    let tail = seq![CLOSE_BRACE, CLOSE_BRACE];
    assert(s == p10 + tail);
    assert(s.subrange(0, s.len() as int) =~= s);
    lemma_piece(s, p10, tail);
    lemma_piece(s, p9, env_entries(env));
    lemma_piece(s, p8, key_env());
    lemma_piece(s, p7, decimal(timestamp));
    lemma_piece(s, p6, key_timestamp());
    lemma_piece(s, p5, signed_decimal(height));
    lemma_piece(s, p4, key_height());
    lemma_piece(s, p3, signed_decimal(width));
    lemma_piece(s, p2, key_width());
    lemma_piece(s, p1, decimal(version));
    assert(s.subrange(0, 11) == key_version());
    lemma_decimal(version);
    lemma_decimal(timestamp);
    let n10 = p10.len() as int;
    assert(s[n10] == CLOSE_BRACE && s[n10 + 1] == CLOSE_BRACE) by {
        assert(s[n10] == s.subrange(n10, n10 + 2)[0]);
        assert(s[n10 + 1] == s.subrange(n10, n10 + 2)[1]);
    }
    assert(s[p2.len() as int] == key_width()[0]) by {
        assert(s[p2.len() as int] == s.subrange(p2.len() as int, p3.len() as int)[0]);
    }
    assert(s[p4.len() as int] == key_height()[0]) by {
        assert(s[p4.len() as int] == s.subrange(p4.len() as int, p5.len() as int)[0]);
    }
    assert(s[p6.len() as int] == key_timestamp()[0]) by {
        assert(s[p6.len() as int] == s.subrange(p6.len() as int, p7.len() as int)[0]);
    }
    assert(s[p8.len() as int] == key_env()[0]) by {
        assert(s[p8.len() as int] == s.subrange(p8.len() as int, p9.len() as int)[0]);
    }
    lemma_decimal_reads_back(s, p1.len() as int, version);
    lemma_signed_reads_back(s, p3.len() as int, width);
    lemma_signed_reads_back(s, p5.len() as int, height);
    lemma_decimal_reads_back(s, p7.len() as int, timestamp);
}

/// `env` with `name` set to `value`: a variable already there keeps its place
/// and takes the new value; a new one goes last.
pub open spec fn set_var(env: Seq<(Seq<char>, Seq<char>)>, name: Seq<char>, value: Seq<char>) -> Seq<
    (Seq<char>, Seq<char>),
> {
    if exists|j: int| 0 <= j < env.len() && env[j].0 == name {
        let j = choose|j: int| 0 <= j < env.len() && env[j].0 == name;
        env.update(j, (name, value))
    } else {
        env.push((name, value))
    }
}

/// Sets a variable in an environment whose names are unique.
pub fn set_env_var(env: &mut Vec<EnvVar>, name: String, value: String)
    requires
        names_unique(env_model(old(env)@)),
    ensures
        env_model(final(env)@) == set_var(env_model(old(env)@), name@, value@),
        names_unique(env_model(final(env)@)),
{
    let ghost m = env_model(env@);
    let mut j: usize = 0;
    while j < env.len()
        invariant
            j <= env@.len(),
            env@ == old(env)@,
            m == env_model(env@),
            names_unique(m),
            forall|k: int| 0 <= k < j ==> m[k].0 != name@,
        decreases env@.len() - j,
    {
        if env[j].name == name {
            proof {
                assert(m[j as int].0 == name@);
                let c = choose|c: int| 0 <= c < m.len() && m[c].0 == name@;
                assert(c == j) by {
                    if c != j {
                        if c < j {
                            assert(m[c].0 != name@);
                        } else {
                            assert(m[j as int].0 != m[c].0);
                        }
                    }
                }
            }
            env.set(j, EnvVar { name, value });
            assert(env_model(env@) =~= set_var(m, name@, value@));
            assert(forall|k: int| 0 <= k < m.len() ==> env_model(env@)[k].0 == m[k].0);
            return;
        }
        j = j + 1;
    }
    env.push(EnvVar { name, value });
    assert(env_model(env@) =~= set_var(m, name@, value@));
    assert(forall|k: int| 0 <= k < m.len() ==> env_model(env@)[k].0 == m[k].0);
}

/// What stands at the `k`-th member of the `env` object of a header line.
proof fn lemma_entry_at(s: Seq<u8>, st: int, e: Seq<(Seq<char>, Seq<char>)>, k: int)
    requires
        0 <= st,
        st + env_entries(e).len() <= s.len(),
        s.subrange(st, st + env_entries(e).len()) == env_entries(e),
        0 <= k < e.len(),
    ensures
        ({
            let p = st + env_entries(e.take(k)).len();
            let q = if k > 0 {
                p + 1
            } else {
                p
            };
            let n = json_quote(encode_utf8(e[k].0));
            let v = json_quote(encode_utf8(e[k].1));
            let r = q + n.len();
            &&& k > 0 ==> s[p] == COMMA
            &&& s[q] == QUOTE
            &&& r + 1 + v.len() <= s.len()
            &&& s.subrange(q, r) == n
            &&& s[r] == COLON
            &&& s[r + 1] == QUOTE
            &&& s.subrange(r + 1, r + 1 + v.len()) == v
            &&& r + 1 + v.len() == st + env_entries(e.take(k + 1)).len()
        }),
{
    lemma_entries_prefix(e, k + 1);
    lemma_entries_take_step(e, k);
    let x = env_entries(e.take(k + 1));
    let all = env_entries(e);
    assert forall|m: int| 0 <= m < x.len() implies s[st + m] == x[m] by {
        assert(s[st + m] == s.subrange(st, st + all.len())[m]);
        assert(all[m] == all.subrange(0, x.len() as int)[m]);
    }
    let pre = env_entries(e.take(k));
    let p = st + pre.len();
    let q = if k > 0 {
        p + 1
    } else {
        p
    };
    let n = json_quote(encode_utf8(e[k].0));
    let v = json_quote(encode_utf8(e[k].1));
    let r = q + n.len();
    let off = q - st;
    assert(x.subrange(off, off + n.len()) =~= n);
    assert(s.subrange(q, r) =~= n) by {
        assert forall|m: int| 0 <= m < n.len() implies s.subrange(q, r)[m] == n[m] by {
            assert(s[q + m] == x[off + m]);
        }
    }
    assert(s[q] == n[0]);
    assert(s[r] == x[off + n.len()]);
    assert(x.subrange(off + n.len() + 1, off + n.len() + 1 + v.len()) =~= v);
    assert(s.subrange(r + 1, r + 1 + v.len()) =~= v) by {
        assert forall|m: int| 0 <= m < v.len() implies s.subrange(r + 1, r + 1 + v.len())[m]
            == v[m] by {
            assert(s[r + 1 + m] == x[off + n.len() + 1 + m]);
        }
    }
    assert(s[r + 1] == v[0]);
    if k > 0 {
        assert(s[p] == x[pre.len() as int]);
    }
}

/// `k` stands in `s` at `i`.
pub open spec fn has_at(s: Seq<u8>, i: int, k: Seq<u8>) -> bool {
    0 <= i && i + k.len() <= s.len() && s.subrange(i, i + k.len()) == k
}

/// The numbers of a line that starts as a header line does, up to the opening
/// of its `env` object: version, width, height and timestamp, each in its
/// range.
pub open spec fn header_numbers(s: Seq<u8>) -> Option<(nat, int, int, nat)> {
    if !has_at(s, 0, key_version()) {
        None
    } else {
        let b = digit_run_end(s, 11);
        let v = digits_value(s.subrange(11, b));
        if !(b > 11 && v <= 255 && has_at(s, b, key_width())) {
            None
        } else {
            let c = b + 9;
            let w = signed_value(s, c);
            if !(signed_well_formed(s, c) && i16::MIN <= w <= i16::MAX && has_at(
                s,
                signed_end(s, c),
                key_height(),
            )) {
                None
            } else {
                let e = signed_end(s, c) + 10;
                let h = signed_value(s, e);
                if !(signed_well_formed(s, e) && i16::MIN <= h <= i16::MAX && has_at(
                    s,
                    signed_end(s, e),
                    key_timestamp(),
                )) {
                    None
                } else {
                    let g = signed_end(s, e) + 13;
                    let te = digit_run_end(s, g);
                    let t = digits_value(s.subrange(g, te));
                    if !(te > g && t <= u64::MAX && has_at(s, te, key_env())) {
                        None
                    } else {
                        Some((v, w, h, t))
                    }
                }
            }
        }
    }
}

/// Reads a header line (without its line break). A line written by
/// `header_to_line` gives back the header that was written; no other line
/// gives a header whose variables repeat a name.
#[verifier::rlimit(100)]
#[verifier::spinoff_prover]
pub fn parse_header_line(line: &[u8]) -> (r: Result<RecordHeader, FormatError>)
    ensures
        r matches Ok(h) ==> h.wf(),
        header_numbers(line@) is None ==> r == Err::<RecordHeader, FormatError>(
            FormatError::Malformed,
        ),
        r matches Ok(h) ==> header_numbers(line@) == Some(
            (h.version as nat, h.width as int, h.height as int, h.timestamp as nat),
        ),
        forall|v: nat, w: int, ht: int, t: nat, env: Seq<(Seq<char>, Seq<char>)>|
            #[trigger] is_header_line(line@, v, w, ht, t, env) ==> (r matches Ok(h) && h.version
                == v && h.width == w && h.height == ht && h.timestamp == t && h.env() == env),
{
    let ghost s = line@;
    let n = line.len();
    proof {
        assert forall|v: nat, w: int, ht: int, t: nat, env: Seq<(Seq<char>, Seq<char>)>|
            #[trigger] is_header_line(s, v, w, ht, t, env) implies header_layout(
            s,
            v,
            w,
            ht,
            t,
            env,
        ) by {
            lemma_header_layout(s, v, w, ht, t, env);
        }
    }
    let kv: [u8; 11] = [0x7bu8, 0x22, 0x76, 0x65, 0x72, 0x73, 0x69, 0x6f, 0x6e, 0x22, 0x3a];
    let kw: [u8; 9] = [0x2cu8, 0x22, 0x77, 0x69, 0x64, 0x74, 0x68, 0x22, 0x3a];
    let kh: [u8; 10] = [0x2cu8, 0x22, 0x68, 0x65, 0x69, 0x67, 0x68, 0x74, 0x22, 0x3a];
    let kt: [u8; 13] = [0x2cu8, 0x22, 0x74, 0x69, 0x6d, 0x65, 0x73, 0x74, 0x61, 0x6d, 0x70, 0x22, 0x3a];
    let ke: [u8; 8] = [0x2cu8, 0x22, 0x65, 0x6e, 0x76, 0x22, 0x3a, 0x7b];
    assert(kv@ =~= key_version());
    assert(kw@ =~= key_width());
    assert(kh@ =~= key_height());
    assert(kt@ =~= key_timestamp());
    assert(ke@ =~= key_env());
    if !matches_at(line, 0, &kv) {
        return Err(FormatError::Malformed);
    }
    let (version, p) = match parse_digits(line, 11) {
        Some(x) => x,
        None => {
            return Err(FormatError::Malformed);
        },
    };
    if version > 255 || !matches_at(line, p, &kw) {
        return Err(FormatError::Malformed);
    }
    let (width, p) = match parse_i16(line, p + 9) {
        Some(x) => x,
        None => {
            return Err(FormatError::Malformed);
        },
    };
    if !matches_at(line, p, &kh) {
        return Err(FormatError::Malformed);
    }
    let (height, p) = match parse_i16(line, p + 10) {
        Some(x) => x,
        None => {
            return Err(FormatError::Malformed);
        },
    };
    if !matches_at(line, p, &kt) {
        return Err(FormatError::Malformed);
    }
    let (timestamp, p) = match parse_digits(line, p + 13) {
        Some(x) => x,
        None => {
            return Err(FormatError::Malformed);
        },
    };
    if !matches_at(line, p, &ke) {
        return Err(FormatError::Malformed);
    }
    assert(header_numbers(s) == Some(
        (version as nat, width as int, height as int, timestamp as nat),
    ));
    proof {
        assert forall|v: nat, w: int, ht: int, t: nat, e: Seq<(Seq<char>, Seq<char>)>|
            #[trigger] is_header_line(s, v, w, ht, t, e) implies members_at(s, p + 8, e) && version
            == v && width == w && height == ht && timestamp == t by {
            assert(s[env_start(v, w, ht, t) + env_entries(e).len()] == CLOSE_BRACE);
        }
    }
    let (env, p) = match parse_members(line, p + 8) {
        Ok(x) => x,
        Err(e) => {
            return Err(e);
        },
    };
    if !(line.len() - p == 2 && line[p] == CLOSE_BRACE && line[p + 1] == CLOSE_BRACE) {
        return Err(FormatError::Malformed);
    }
    Ok(RecordHeader { version: version as u8, width, height, timestamp, environment: env })
}

/// `e` is written at `st` as the members of an `env` object, closed by a brace.
pub open spec fn members_at(s: Seq<u8>, st: int, e: Seq<(Seq<char>, Seq<char>)>) -> bool {
    &&& 0 <= st
    &&& st + env_entries(e).len() < s.len()
    &&& s.subrange(st, st + env_entries(e).len()) == env_entries(e)
    &&& s[st + env_entries(e).len()] == CLOSE_BRACE
    &&& names_unique(e)
}

/// A member `"name":"value"` written at `p`, after a comma unless it is the
/// first.
pub open spec fn member_at(s: Seq<u8>, p: int, first: bool, c: (Seq<char>, Seq<char>)) -> bool {
    let q = if first {
        p
    } else {
        p + 1
    };
    let n = json_quote(encode_utf8(c.0));
    let v = json_quote(encode_utf8(c.1));
    let r = q + n.len();
    &&& 0 <= p
    &&& !first ==> p < s.len() && s[p] == COMMA
    &&& r + 1 + v.len() <= s.len()
    &&& s.subrange(q, r) == n
    &&& s[r] == COLON
    &&& s.subrange(r + 1, r + 1 + v.len()) == v
}

pub open spec fn member_len(first: bool, c: (Seq<char>, Seq<char>)) -> int {
    (if first {
        0int
    } else {
        1int
    }) + json_quote(encode_utf8(c.0)).len() + 1 + json_quote(encode_utf8(c.1)).len()
}

/// Reads one member of the `env` object.
fn read_member(line: &[u8], p: usize, first: bool) -> (r: Result<(String, String, usize), FormatError>)
    requires
        p <= line@.len(),
    ensures
        r matches Ok((_, _, e)) ==> p < e <= line@.len(),
        forall|c: (Seq<char>, Seq<char>)|
            #[trigger] member_at(line@, p as int, first, c) ==> (r matches Ok((n, v, e)) && n@
                == c.0 && v@ == c.1 && e == p + member_len(first, c)),
{
    let mut q = p;
    if !first {
        if !(q < line.len() && line[q] == COMMA) {
            return Err(FormatError::Malformed);
        }
        q = q + 1;
    }
    if !(q < line.len() && line[q] == QUOTE) {
        proof {
            assert forall|c: (Seq<char>, Seq<char>)| #[trigger] member_at(line@, p as int, first, c)
                implies false by {
                let n = json_quote(encode_utf8(c.0));
                assert(line@[q as int] == line@.subrange(q as int, q + n.len())[0]);
            }
        }
        return Err(FormatError::Malformed);
    }
    let (name, r) = match read_literal(line, q) {
        Some(x) => x,
        None => {
            return Err(FormatError::BadString);
        },
    };
    if !(r < line.len() && line.len() - r > 1 && line[r] == COLON && line[r + 1] == QUOTE) {
        proof {
            assert forall|c: (Seq<char>, Seq<char>)| #[trigger] member_at(line@, p as int, first, c)
                implies false by {
                let n = json_quote(encode_utf8(c.0));
                let v = json_quote(encode_utf8(c.1));
                let rr = q + n.len();
                assert(line@[rr + 1] == line@.subrange(rr + 1, rr + 1 + v.len())[0]);
            }
        }
        return Err(FormatError::Malformed);
    }
    let (value, e) = match read_literal(line, r + 1) {
        Some(x) => x,
        None => {
            return Err(FormatError::BadString);
        },
    };
    Ok((name, value, e))
}

/// Reads the members of an `env` object up to its closing brace.
fn parse_members(line: &[u8], st: usize) -> (r: Result<(Vec<EnvVar>, usize), FormatError>)
    requires
        st <= line@.len(),
    ensures
        r matches Ok((env, e)) ==> names_unique(env_model(env@)) && st <= e <= line@.len(),
        forall|e: Seq<(Seq<char>, Seq<char>)>|
            #[trigger] members_at(line@, st as int, e) ==> (r matches Ok((env, end)) && env_model(
                env@,
            ) == e && end == st + env_entries(e).len()),
{
    let ghost s = line@;
    let mut p = st;
    let mut env: Vec<EnvVar> = Vec::new();
    let mut first = true;
    loop
        invariant
            st <= p <= s.len(),
            s == line@,
            names_unique(env_model(env@)),
            forall|e: Seq<(Seq<char>, Seq<char>)>|
                #[trigger] members_at(s, st as int, e) ==> (env@.len() <= e.len() && env_model(
                    env@,
                ) == e.take(env@.len() as int) && p == st + env_entries(
                    e.take(env@.len() as int),
                ).len() && first == (env@.len() == 0)),
        ensures
            st <= p < s.len(),
            s[p as int] == CLOSE_BRACE,
            names_unique(env_model(env@)),
            forall|e: Seq<(Seq<char>, Seq<char>)>|
                #[trigger] members_at(s, st as int, e) ==> (env@.len() <= e.len() && env_model(
                    env@,
                ) == e.take(env@.len() as int) && p == st + env_entries(
                    e.take(env@.len() as int),
                ).len()),
        decreases s.len() - p,
    {
        proof {
            assert forall|e: Seq<(Seq<char>, Seq<char>)>|
                #[trigger] members_at(s, st as int, e) && env@.len() < e.len() implies member_at(
                s,
                p as int,
                first,
                e[env@.len() as int],
            ) && p + member_len(first, e[env@.len() as int]) == st + env_entries(
                e.take(env@.len() + 1 as int),
            ).len() && s[p as int] != CLOSE_BRACE by {
                lemma_entry_at(s, st as int, e, env@.len() as int);
            }
            assert forall|e: Seq<(Seq<char>, Seq<char>)>|
                #[trigger] members_at(s, st as int, e) && env@.len() == e.len() implies s[p as int]
                == CLOSE_BRACE && p < s.len() by {
                assert(e.take(e.len() as int) =~= e);
            }
        }
        if p < line.len() && line[p] == CLOSE_BRACE {
            break;
        }
        let (name, value, q) = match read_member(line, p, first) {
            Ok(x) => x,
            Err(err) => {
                return Err(err);
            },
        };
        let ghost before = env_model(env@);
        let ghost nm = name@;
        set_env_var(&mut env, name, value);
        proof {
            assert forall|e: Seq<(Seq<char>, Seq<char>)>|
                #[trigger] members_at(s, st as int, e) implies env_model(env@) == e.take(
                env@.len() as int,
            ) && env@.len() <= e.len() && q == st + env_entries(e.take(env@.len() as int)).len()
                by {
                let k = before.len() as int;
                assert(k < e.len());
                assert(nm == e[k].0);
                assert forall|j: int| 0 <= j < before.len() implies before[j].0 != nm by {
                    assert(before[j] == e.take(k)[j]);
                }
                assert(env_model(env@) =~= e.take(k + 1));
            }
        }
        p = q;
        first = false;
    }
    proof {
        assert forall|e: Seq<(Seq<char>, Seq<char>)>| #[trigger] members_at(s, st as int, e) implies env_model(
            env@,
        ) == e by {
            if env@.len() < e.len() {
                lemma_entry_at(s, st as int, e, env@.len() as int);
            }
            assert(e.take(e.len() as int) =~= e);
        }
    }
    Ok((env, p))
}

/// A copy of an environment, variable by variable.
pub fn copy_env(env: &Vec<EnvVar>) -> (r: Vec<EnvVar>)
    ensures
        env_model(r@) == env_model(env@),
{
    let mut out: Vec<EnvVar> = Vec::new();
    let mut k: usize = 0;
    while k < env.len()
        invariant
            k <= env@.len(),
            out@.len() == k,
            env_model(out@) == env_model(env@).take(k as int),
        decreases env@.len() - k,
    {
        let name = env[k].name.clone();
        let value = env[k].value.clone();
        assert(name@ == env@[k as int].name@ && value@ == env@[k as int].value@);
        let ghost before = out@;
        out.push(EnvVar { name, value });
        assert(out@ == before.push(EnvVar { name, value }));
        k = k + 1;
        assert forall|i: int| 0 <= i < k implies env_model(out@)[i] == env_model(env@).take(
            k as int,
        )[i] by {
            if i < k - 1 {
                assert(env_model(out@)[i] == out@[i]@);
                assert(out@[i] == before[i]);
                assert(env_model(before)[i] == before[i]@);
            }
        }
        assert(env_model(out@) =~= env_model(env@).take(k as int));
    }
    assert(env_model(env@).take(k as int) =~= env_model(env@));
    out
}

proof fn lemma_no_newline_concat(a: Seq<u8>, b: Seq<u8>)
    requires
        forall|k: int| 0 <= k < a.len() ==> a[k] != 0x0a,
        forall|k: int| 0 <= k < b.len() ==> b[k] != 0x0a,
    ensures
        forall|k: int| 0 <= k < (a + b).len() ==> (a + b)[k] != 0x0a,
{
    assert forall|k: int| 0 <= k < (a + b).len() implies (a + b)[k] != 0x0a by {
        if k >= a.len() {
            assert((a + b)[k] == b[k - a.len()]);
        }
    }
}

proof fn lemma_quote_no_newline(bs: Seq<u8>)
    ensures
        forall|k: int| 0 <= k < json_quote(bs).len() ==> json_quote(bs)[k] != 0x0a,
{
    crate::json::lemma_escaped_no_newline(bs);
    lemma_no_newline_concat(seq![QUOTE], crate::json::escaped(bs));
    lemma_no_newline_concat(seq![QUOTE] + crate::json::escaped(bs), seq![QUOTE]);
}

proof fn lemma_entries_no_newline(env: Seq<(Seq<char>, Seq<char>)>)
    ensures
        forall|k: int| 0 <= k < env_entries(env).len() ==> env_entries(env)[k] != 0x0a,
    decreases env.len(),
{
    if env.len() > 0 {
        let e = env.last();
        lemma_quote_no_newline(encode_utf8(e.0));
        lemma_quote_no_newline(encode_utf8(e.1));
        lemma_no_newline_concat(json_quote(encode_utf8(e.0)), seq![COLON]);
        lemma_no_newline_concat(json_quote(encode_utf8(e.0)) + seq![COLON], json_quote(encode_utf8(e.1)));
        if env.len() > 1 {
            lemma_entries_no_newline(env.drop_last());
            lemma_no_newline_concat(env_entries(env.drop_last()), seq![COMMA]);
            lemma_no_newline_concat(env_entries(env.drop_last()) + seq![COMMA], env_entry(e));
        }
    }
}

proof fn lemma_decimal_no_newline(n: nat)
    ensures
        forall|k: int| 0 <= k < decimal(n).len() ==> #[trigger] decimal(n)[k] != 0x0a,
{
    lemma_decimal(n);
}

proof fn lemma_signed_no_newline(m: int)
    ensures
        forall|k: int| 0 <= k < signed_decimal(m).len() ==> #[trigger] signed_decimal(m)[k] != 0x0a,
{
    if m < 0 {
        lemma_decimal_no_newline((-m) as nat);
        lemma_no_newline_concat(seq![MINUS], decimal((-m) as nat));
    } else {
        lemma_decimal_no_newline(m as nat);
    }
}

/// A header line holds no line break.
pub proof fn lemma_header_no_newline(
    version: nat,
    width: int,
    height: int,
    timestamp: nat,
    env: Seq<(Seq<char>, Seq<char>)>,
)
    ensures
        forall|k: int|
            0 <= k < header_line(version, width, height, timestamp, env).len() ==> header_line(
                version,
                width,
                height,
                timestamp,
                env,
            )[k] != 0x0a,
{
    lemma_decimal_no_newline(version);
    lemma_decimal_no_newline(timestamp);
    lemma_signed_no_newline(width);
    lemma_signed_no_newline(height);
    lemma_entries_no_newline(env);
    let p1 = key_version();
    let p2 = p1 + decimal(version);
    let p3 = p2 + key_width();
    let p4 = p3 + signed_decimal(width);
    let p5 = p4 + key_height();
    let p6 = p5 + signed_decimal(height);
    let p7 = p6 + key_timestamp();
    let p8 = p7 + decimal(timestamp);
    let p9 = p8 + key_env();
    let p10 = p9 + env_entries(env);
    lemma_no_newline_concat(p1, decimal(version));
    lemma_no_newline_concat(p2, key_width());
    lemma_no_newline_concat(p3, signed_decimal(width));
    lemma_no_newline_concat(p4, key_height());
    lemma_no_newline_concat(p5, signed_decimal(height));
    lemma_no_newline_concat(p6, key_timestamp());
    lemma_no_newline_concat(p7, decimal(timestamp));
    lemma_no_newline_concat(p8, key_env());
    lemma_no_newline_concat(p9, env_entries(env));
    lemma_no_newline_concat(p10, seq![CLOSE_BRACE, CLOSE_BRACE]);
}

} // verus!
