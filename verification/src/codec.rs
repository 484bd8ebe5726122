//! Binary persistence of a trained model.
//!
//! The blob holds the merge count, each merge rule's two sides, the token
//! count, and each token; counts and string lengths are little-endian
//! `u64`, characters are little-endian `u32` code points. [`Tokenizer::save`]
//! produces the bytes and [`Tokenizer::load`] reads them back; writing the
//! blob to storage and reading it again is the caller's task. Loading
//! rejects corrupt or structurally invalid bytes; decoding what encoding
//! produced yields the identical model ([`lemma_encode_decode`]).

use vstd::prelude::*;
use vstd::bytes::{
    lemma_auto_spec_u32_to_from_le_bytes, lemma_auto_spec_u64_to_from_le_bytes,
    spec_u32_to_le_bytes, spec_u32_from_le_bytes, spec_u64_to_le_bytes, spec_u64_from_le_bytes,
    u32_from_le_bytes, u32_to_le_bytes, u64_from_le_bytes, u64_to_le_bytes,
};
use vstd::slice::slice_subrange;
use vstd::string::StrSliceExecFns;
use crate::bpe::{merge_views, token_views, wf_model, Pair, Tokenizer};
use crate::chars::{
    char_from_u32, is_scalar_u32, lemma_lex_lt_trans, lex_lt, lex_lt_exec, push_char,
};
use crate::TokenizerError;

verus! {

/// The encoding of a character sequence: each character as 4 bytes.
pub open spec fn enc_chars(w: Seq<char>) -> Seq<u8>
    decreases w.len(),
{
    if w.len() == 0 {
        Seq::<u8>::empty()
    } else {
        spec_u32_to_le_bytes(w[0] as u32) + enc_chars(w.drop_first())
    }
}

/// The encoding of one string: its length, then its characters.
pub open spec fn enc_str(w: Seq<char>) -> Seq<u8> {
    spec_u64_to_le_bytes(w.len() as u64) + enc_chars(w)
}

/// The encoding of the merge rules, in order.
pub open spec fn enc_pairs(ms: Seq<(Seq<char>, Seq<char>)>) -> Seq<u8>
    decreases ms.len(),
{
    if ms.len() == 0 {
        Seq::<u8>::empty()
    } else {
        enc_str(ms[0].0) + enc_str(ms[0].1) + enc_pairs(ms.drop_first())
    }
}

/// The encoding of the token table, in order.
pub open spec fn enc_strs(ts: Seq<Seq<char>>) -> Seq<u8>
    decreases ts.len(),
{
    if ts.len() == 0 {
        Seq::<u8>::empty()
    } else {
        enc_str(ts[0]) + enc_strs(ts.drop_first())
    }
}

/// The whole persisted blob.
pub open spec fn spec_encode(ms: Seq<(Seq<char>, Seq<char>)>, ts: Seq<Seq<char>>) -> Seq<u8> {
    spec_u64_to_le_bytes(ms.len() as u64) + enc_pairs(ms) + spec_u64_to_le_bytes(ts.len() as u64)
        + enc_strs(ts)
}

/// Read a `u64` at `pos`.
pub open spec fn parse_u64(b: Seq<u8>, pos: int) -> Option<(u64, int)> {
    if 0 <= pos && pos + 8 <= b.len() {
        Some((spec_u64_from_le_bytes(b.subrange(pos, pos + 8)), pos + 8))
    } else {
        None
    }
}

/// Read `n` characters at `pos`, each a `u32` that must be a Unicode scalar
/// value.
pub open spec fn parse_chars(b: Seq<u8>, pos: int, n: nat) -> Option<(Seq<char>, int)>
    decreases n,
{
    if n == 0 {
        if 0 <= pos <= b.len() {
            Some((Seq::<char>::empty(), pos))
        } else {
            None
        }
    } else if 0 <= pos && pos + 4 <= b.len() {
        let x = spec_u32_from_le_bytes(b.subrange(pos, pos + 4));
        if is_scalar_u32(x) {
            match parse_chars(b, pos + 4, (n - 1) as nat) {
                Some(cp) => Some((seq![x as char] + cp.0, cp.1)),
                None => None,
            }
        } else {
            None
        }
    } else {
        None
    }
}

/// Read one length-prefixed string at `pos`.
pub open spec fn parse_str(b: Seq<u8>, pos: int) -> Option<(Seq<char>, int)> {
    match parse_u64(b, pos) {
        Some(np) => parse_chars(b, np.1, np.0 as nat),
        None => None,
    }
}

/// Read one merge rule: two strings.
pub open spec fn parse_pair(b: Seq<u8>, pos: int) -> Option<((Seq<char>, Seq<char>), int)> {
    match parse_str(b, pos) {
        Some(lp) => match parse_str(b, lp.1) {
            Some(rp) => Some(((lp.0, rp.0), rp.1)),
            None => None,
        },
        None => None,
    }
}

/// Read `n` merge rules.
pub open spec fn parse_pairs(b: Seq<u8>, pos: int, n: nat) -> Option<
    (Seq<(Seq<char>, Seq<char>)>, int),
>
    decreases n,
{
    if n == 0 {
        if 0 <= pos <= b.len() {
            Some((Seq::<(Seq<char>, Seq<char>)>::empty(), pos))
        } else {
            None
        }
    } else {
        match parse_pair(b, pos) {
            Some(mp) => match parse_pairs(b, mp.1, (n - 1) as nat) {
                Some(rp) => Some((seq![mp.0] + rp.0, rp.1)),
                None => None,
            },
            None => None,
        }
    }
}

/// Read `n` tokens.
pub open spec fn parse_strs(b: Seq<u8>, pos: int, n: nat) -> Option<(Seq<Seq<char>>, int)>
    decreases n,
{
    if n == 0 {
        if 0 <= pos <= b.len() {
            Some((Seq::<Seq<char>>::empty(), pos))
        } else {
            None
        }
    } else {
        match parse_str(b, pos) {
            Some(sp) => match parse_strs(b, sp.1, (n - 1) as nat) {
                Some(rp) => Some((seq![sp.0] + rp.0, rp.1)),
                None => None,
            },
            None => None,
        }
    }
}

/// What loading a blob yields: the model's merge and token views, provided
/// every byte is consumed and the model is well formed.
pub open spec fn spec_decode(b: Seq<u8>) -> Option<(Seq<(Seq<char>, Seq<char>)>, Seq<Seq<char>>)> {
    match parse_u64(b, 0) {
        None => None,
        Some(nm) => match parse_pairs(b, nm.1, nm.0 as nat) {
            None => None,
            Some(mp) => match parse_u64(b, mp.1) {
                None => None,
                Some(nt) => match parse_strs(b, nt.1, nt.0 as nat) {
                    None => None,
                    Some(tp) => if tp.1 == b.len() && wf_model(mp.0, tp.0) {
                        Some((mp.0, tp.0))
                    } else {
                        None
                    },
                },
            },
        },
    }
}

/// A successful character parse sits inside the buffer and advances by four
/// bytes per character.
pub proof fn lemma_parse_chars_bounds(b: Seq<u8>, pos: int, n: nat)
    ensures
        parse_chars(b, pos, n) is Some ==> ({
            let cp = parse_chars(b, pos, n)->0;
            0 <= pos && pos + 4 * n <= b.len() && cp.1 == pos + 4 * n && cp.0.len() == n
        }),
    decreases n,
{
    if n > 0 {
        lemma_parse_chars_bounds(b, pos + 4, (n - 1) as nat);
    }
}

/// A successful string parse consumes at least its length field and stays in
/// the buffer.
pub proof fn lemma_parse_str_bounds(b: Seq<u8>, pos: int)
    ensures
        parse_str(b, pos) is Some ==> ({
            let sp = parse_str(b, pos)->0;
            0 <= pos && pos + 8 <= sp.1 <= b.len()
        }),
{
    if parse_str(b, pos) is Some {
        let np = parse_u64(b, pos)->0;
        lemma_parse_chars_bounds(b, np.1, np.0 as nat);
    }
}

/// A successful rule-list parse consumes at least sixteen bytes per rule.
pub proof fn lemma_parse_pairs_bounds(b: Seq<u8>, pos: int, n: nat)
    ensures
        parse_pairs(b, pos, n) is Some ==> ({
            let mp = parse_pairs(b, pos, n)->0;
            0 <= pos && pos + 16 * n <= mp.1 <= b.len()
        }),
    decreases n,
{
    if n > 0 && parse_pairs(b, pos, n) is Some {
        let mp = parse_pair(b, pos)->0;
        lemma_parse_str_bounds(b, pos);
        let lp = parse_str(b, pos)->0;
        lemma_parse_str_bounds(b, lp.1);
        lemma_parse_pairs_bounds(b, mp.1, (n - 1) as nat);
    }
}

/// A successful token-list parse consumes at least eight bytes per token.
pub proof fn lemma_parse_strs_bounds(b: Seq<u8>, pos: int, n: nat)
    ensures
        parse_strs(b, pos, n) is Some ==> ({
            let sp = parse_strs(b, pos, n)->0;
            0 <= pos && pos + 8 * n <= sp.1 <= b.len()
        }),
    decreases n,
{
    if n > 0 && parse_strs(b, pos, n) is Some {
        let sp = parse_str(b, pos)->0;
        lemma_parse_str_bounds(b, pos);
        lemma_parse_strs_bounds(b, sp.1, (n - 1) as nat);
    }
}

/// Each character contributes four bytes.
pub proof fn lemma_enc_chars_len(w: Seq<char>)
    ensures
        enc_chars(w).len() == 4 * w.len(),
    decreases w.len(),
{
    lemma_auto_spec_u32_to_from_le_bytes();
    if w.len() > 0 {
        lemma_enc_chars_len(w.drop_first());
    }
}

/// Appending a character appends its four bytes.
pub proof fn lemma_enc_chars_push(w: Seq<char>, c: char)
    ensures
        enc_chars(w.push(c)) == enc_chars(w) + spec_u32_to_le_bytes(c as u32),
    decreases w.len(),
{
    if w.len() == 0 {
        assert(w.push(c)[0] == c);
        assert(w.push(c).drop_first() =~= w);
        assert(enc_chars(w.push(c)) =~= enc_chars(w) + spec_u32_to_le_bytes(c as u32));
    } else {
        assert(w.push(c)[0] == w[0]);
        assert(w.push(c).drop_first() =~= w.drop_first().push(c));
        lemma_enc_chars_push(w.drop_first(), c);
        assert(spec_u32_to_le_bytes(w[0] as u32) + (enc_chars(w.drop_first())
            + spec_u32_to_le_bytes(c as u32)) =~= (spec_u32_to_le_bytes(w[0] as u32) + enc_chars(
            w.drop_first(),
        )) + spec_u32_to_le_bytes(c as u32));
    }
}

/// Appending a rule appends its encoding.
pub proof fn lemma_enc_pairs_push(ms: Seq<(Seq<char>, Seq<char>)>, m: (Seq<char>, Seq<char>))
    ensures
        enc_pairs(ms.push(m)) == enc_pairs(ms) + enc_str(m.0) + enc_str(m.1),
    decreases ms.len(),
{
    if ms.len() == 0 {
        assert(ms.push(m)[0] == m);
        assert(ms.push(m).drop_first() =~= ms);
        assert(enc_pairs(ms.push(m)) =~= enc_pairs(ms) + enc_str(m.0) + enc_str(m.1));
    } else {
        assert(ms.push(m)[0] == ms[0]);
        assert(ms.push(m).drop_first() =~= ms.drop_first().push(m));
        lemma_enc_pairs_push(ms.drop_first(), m);
        assert(enc_str(ms[0].0) + enc_str(ms[0].1) + (enc_pairs(ms.drop_first()) + enc_str(m.0)
            + enc_str(m.1)) =~= (enc_str(ms[0].0) + enc_str(ms[0].1) + enc_pairs(ms.drop_first()))
            + enc_str(m.0) + enc_str(m.1));
    }
}

/// Appending a token appends its encoding.
pub proof fn lemma_enc_strs_push(ts: Seq<Seq<char>>, t: Seq<char>)
    ensures
        enc_strs(ts.push(t)) == enc_strs(ts) + enc_str(t),
    decreases ts.len(),
{
    if ts.len() == 0 {
        assert(ts.push(t)[0] == t);
        assert(ts.push(t).drop_first() =~= ts);
        assert(enc_strs(ts.push(t)) =~= enc_strs(ts) + enc_str(t));
    } else {
        assert(ts.push(t)[0] == ts[0]);
        assert(ts.push(t).drop_first() =~= ts.drop_first().push(t));
        lemma_enc_strs_push(ts.drop_first(), t);
        assert(enc_str(ts[0]) + (enc_strs(ts.drop_first()) + enc_str(t)) =~= (enc_str(ts[0])
            + enc_strs(ts.drop_first())) + enc_str(t));
    }
}

/// A buffer stretch equal to a concatenation splits into stretches equal to
/// the parts.
pub proof fn lemma_subrange_split(b: Seq<u8>, pos: int, x: Seq<u8>, y: Seq<u8>)
    requires
        0 <= pos,
        pos + x.len() + y.len() <= b.len(),
        b.subrange(pos, pos + x.len() + y.len()) == x + y,
    ensures
        b.subrange(pos, pos + x.len() as int) == x,
        b.subrange(pos + x.len() as int, pos + x.len() + y.len()) == y,
{
    assert forall|i: int| 0 <= i < x.len() implies b[pos + i] == x[i] by {
        assert((x + y)[i] == x[i]);
        assert(b.subrange(pos, pos + x.len() + y.len())[i] == b[pos + i]);
    }
    assert forall|i: int| 0 <= i < y.len() implies b[pos + x.len() + i] == y[i] by {
        assert((x + y)[x.len() + i] == y[i]);
        assert(b.subrange(pos, pos + x.len() + y.len())[x.len() + i] == b[pos + x.len() + i]);
    }
    assert(b.subrange(pos, pos + x.len() as int) =~= x);
    assert(b.subrange(pos + x.len() as int, pos + x.len() + y.len()) =~= y);
}

/// Parsing characters back from their encoding yields the characters.
pub proof fn lemma_parse_chars_enc(b: Seq<u8>, pos: int, w: Seq<char>)
    requires
        0 <= pos,
        pos + enc_chars(w).len() <= b.len(),
        b.subrange(pos, pos + enc_chars(w).len()) == enc_chars(w),
    ensures
        parse_chars(b, pos, w.len()) == Some((w, pos + enc_chars(w).len())),
    decreases w.len(),
{
    lemma_auto_spec_u32_to_from_le_bytes();
    lemma_enc_chars_len(w);
    if w.len() == 0 {
        assert(parse_chars(b, pos, 0) == Some((Seq::<char>::empty(), pos)));
        assert(w =~= Seq::<char>::empty());
    } else {
        let head = spec_u32_to_le_bytes(w[0] as u32);
        let tail = enc_chars(w.drop_first());
        lemma_enc_chars_len(w.drop_first());
        lemma_subrange_split(b, pos, head, tail);
        assert(b.subrange(pos, pos + 4) == head);
        let x = spec_u32_from_le_bytes(b.subrange(pos, pos + 4));
        assert(x == w[0] as u32);
        vstd::utf8::char_is_scalar(w[0]);
        assert(is_scalar_u32(x));
        vstd::utf8::char_u32_cast(w[0], x);
        assert(x as char == w[0]);
        lemma_parse_chars_enc(b, pos + 4, w.drop_first());
        assert(seq![w[0]] + w.drop_first() =~= w);
    }
}

/// Parsing a string back from its encoding yields the string.
pub proof fn lemma_parse_str_enc(b: Seq<u8>, pos: int, w: Seq<char>)
    requires
        0 <= pos,
        w.len() <= usize::MAX,
        pos + enc_str(w).len() <= b.len(),
        b.subrange(pos, pos + enc_str(w).len()) == enc_str(w),
    ensures
        parse_str(b, pos) == Some((w, pos + enc_str(w).len())),
{
    lemma_auto_spec_u64_to_from_le_bytes();
    lemma_enc_chars_len(w);
    let head = spec_u64_to_le_bytes(w.len() as u64);
    let tail = enc_chars(w);
    lemma_subrange_split(b, pos, head, tail);
    assert(b.subrange(pos, pos + 8) == head);
    assert(spec_u64_from_le_bytes(b.subrange(pos, pos + 8)) == w.len() as u64);
    assert((w.len() as u64) as nat == w.len());
    lemma_parse_chars_enc(b, pos + 8, w);
}

/// Parsing the rule list back from its encoding yields the rules.
pub proof fn lemma_parse_pairs_enc(b: Seq<u8>, pos: int, ms: Seq<(Seq<char>, Seq<char>)>)
    requires
        0 <= pos,
        forall|i: int|
            0 <= i < ms.len() ==> (#[trigger] ms[i]).0.len() <= usize::MAX && ms[i].1.len()
                <= usize::MAX,
        pos + enc_pairs(ms).len() <= b.len(),
        b.subrange(pos, pos + enc_pairs(ms).len()) == enc_pairs(ms),
    ensures
        parse_pairs(b, pos, ms.len()) == Some((ms, pos + enc_pairs(ms).len())),
    decreases ms.len(),
{
    if ms.len() == 0 {
        assert(ms =~= Seq::<(Seq<char>, Seq<char>)>::empty());
    } else {
        let e0 = enc_str(ms[0].0);
        let e1 = enc_str(ms[0].1);
        let rest = enc_pairs(ms.drop_first());
        assert(enc_pairs(ms) == e0 + e1 + rest);
        assert(e0 + e1 + rest =~= e0 + (e1 + rest));
        lemma_subrange_split(b, pos, e0, e1 + rest);
        lemma_subrange_split(b, pos + e0.len(), e1, rest);
        lemma_parse_str_enc(b, pos, ms[0].0);
        lemma_parse_str_enc(b, pos + e0.len(), ms[0].1);
        lemma_parse_pairs_enc(b, pos + e0.len() + e1.len(), ms.drop_first());
        assert(seq![ms[0]] + ms.drop_first() =~= ms);
    }
}

/// Parsing the token list back from its encoding yields the tokens.
pub proof fn lemma_parse_strs_enc(b: Seq<u8>, pos: int, ts: Seq<Seq<char>>)
    requires
        0 <= pos,
        forall|i: int| 0 <= i < ts.len() ==> (#[trigger] ts[i]).len() <= usize::MAX,
        pos + enc_strs(ts).len() <= b.len(),
        b.subrange(pos, pos + enc_strs(ts).len()) == enc_strs(ts),
    ensures
        parse_strs(b, pos, ts.len()) == Some((ts, pos + enc_strs(ts).len())),
    decreases ts.len(),
{
    if ts.len() == 0 {
        assert(ts =~= Seq::<Seq<char>>::empty());
    } else {
        let e0 = enc_str(ts[0]);
        let rest = enc_strs(ts.drop_first());
        assert(enc_strs(ts) == e0 + rest);
        lemma_subrange_split(b, pos, e0, rest);
        lemma_parse_str_enc(b, pos, ts[0]);
        lemma_parse_strs_enc(b, pos + e0.len(), ts.drop_first());
        assert(seq![ts[0]] + ts.drop_first() =~= ts);
    }
}

/// The round trip: decoding what encoding produced yields the identical
/// model — the same merge rules in the same order and the same token table.
pub proof fn lemma_encode_decode(ms: Seq<(Seq<char>, Seq<char>)>, ts: Seq<Seq<char>>)
    requires
        wf_model(ms, ts),
        ms.len() <= usize::MAX,
        ts.len() <= usize::MAX,
        forall|i: int|
            0 <= i < ms.len() ==> (#[trigger] ms[i]).0.len() <= usize::MAX && ms[i].1.len()
                <= usize::MAX,
        forall|i: int| 0 <= i < ts.len() ==> (#[trigger] ts[i]).len() <= usize::MAX,
    ensures
        spec_decode(spec_encode(ms, ts)) == Some((ms, ts)),
{
    lemma_auto_spec_u64_to_from_le_bytes();
    let b = spec_encode(ms, ts);
    let a0 = spec_u64_to_le_bytes(ms.len() as u64);
    let a1 = enc_pairs(ms);
    let a2 = spec_u64_to_le_bytes(ts.len() as u64);
    let a3 = enc_strs(ts);
    assert(b == a0 + a1 + a2 + a3);
    assert(b =~= a0 + (a1 + (a2 + a3)));
    assert(b.subrange(0, b.len() as int) =~= b);
    lemma_subrange_split(b, 0, a0, a1 + (a2 + a3));
    lemma_subrange_split(b, a0.len() as int, a1, a2 + a3);
    lemma_subrange_split(b, a0.len() + a1.len() as int, a2, a3);
    assert(spec_u64_from_le_bytes(b.subrange(0, 8)) == ms.len() as u64);
    assert((ms.len() as u64) as nat == ms.len());
    lemma_parse_pairs_enc(b, 8, ms);
    let p2: int = 8 + a1.len() as int;
    assert(spec_u64_from_le_bytes(b.subrange(p2 as int, p2 + 8)) == ts.len() as u64);
    assert((ts.len() as u64) as nat == ts.len());
    lemma_parse_strs_enc(b, p2 + 8, ts);
    assert(p2 + 8 + a3.len() == b.len());
}

/// Append a `u64` to the blob.
fn write_u64(out: &mut Vec<u8>, x: u64)
    ensures
        final(out)@ == old(out)@ + spec_u64_to_le_bytes(x),
{
    let mut b = u64_to_le_bytes(x);
    out.append(&mut b);
}

/// Append one length-prefixed string to the blob.
fn write_str(out: &mut Vec<u8>, s: &String)
    ensures
        final(out)@ == old(out)@ + enc_str(s@),
{
    let len = s.as_str().unicode_len();
    write_u64(out, len as u64);
    let ghost base = out@;
    let mut i: usize = 0;
    proof {
        assert(s@.take(0) =~= Seq::<char>::empty());
        assert(base + Seq::<u8>::empty() =~= base);
    }
    while i < len
        invariant
            i <= len,
            len == s@.len(),
            out@ == base + enc_chars(s@.take(i as int)),
            base == old(out)@ + spec_u64_to_le_bytes(s@.len() as u64),
        decreases len - i,
    {
        let c = s.as_str().get_char(i);
        let mut cb = u32_to_le_bytes(c as u32);
        proof {
            assert(s@.take(i + 1) =~= s@.take(i as int).push(s@[i as int]));
            lemma_enc_chars_push(s@.take(i as int), c);
            assert(base + enc_chars(s@.take(i as int)) + spec_u32_to_le_bytes(c as u32) =~= base
                + (enc_chars(s@.take(i as int)) + spec_u32_to_le_bytes(c as u32)));
        }
        out.append(&mut cb);
        i = i + 1;
    }
    proof {
        assert(s@.take(len as int) =~= s@);
        assert((len as u64) as nat == s@.len());
        assert(old(out)@ + spec_u64_to_le_bytes(s@.len() as u64) + enc_chars(s@) =~= old(out)@
            + enc_str(s@));
    }
}

/// Read a `u64` at `pos`; the caller has checked the bounds.
fn read_u64(bytes: &Vec<u8>, pos: usize) -> (x: u64)
    requires
        pos + 8 <= bytes@.len(),
    ensures
        parse_u64(bytes@, pos as int) == Some((x, pos + 8)),
{
    let bl = bytes.len();
    proof {
        assert(pos + 8 <= bl);
    }
    let sl = slice_subrange(bytes.as_slice(), pos, pos + 8);
    u64_from_le_bytes(sl)
}

/// Read one length-prefixed string at `pos`.
fn read_str(bytes: &Vec<u8>, pos: usize) -> (r: Option<(String, usize)>)
    ensures
        (match r {
            Some(sp) => parse_str(bytes@, pos as int) == Some((sp.0@, sp.1 as int)) && sp.1
                <= bytes@.len(),
            None => parse_str(bytes@, pos as int) is None,
        }),
{
    if bytes.len() < 8 || pos > bytes.len() - 8 {
        proof {
            assert(parse_u64(bytes@, pos as int) is None);
            assert(parse_str(bytes@, pos as int) is None);
        }
        return None;
    }
    let n64 = read_u64(bytes, pos);
    if n64 > bytes.len() as u64 {
        proof {
            lemma_parse_chars_bounds(bytes@, pos + 8, n64 as nat);
            if parse_chars(bytes@, pos + 8, n64 as nat) is Some {
                assert(false);
            }
            assert(parse_str(bytes@, pos as int) is None);
        }
        return None;
    }
    let n = n64 as usize;
    let mut s = String::new();
    let mut p: usize = pos + 8;
    let mut k: usize = 0;
    proof {
        assert(parse_chars(bytes@, p as int, (n - k) as nat) == parse_chars(
            bytes@,
            pos + 8,
            n as nat,
        ));
    }
    while k < n
        invariant
            k <= n,
            n == n64 as usize,
            n64 as nat == n as nat,
            pos + 8 <= p <= bytes@.len(),
            s@.len() == k,
            parse_u64(bytes@, pos as int) == Some((n64, pos + 8)),
            parse_str(bytes@, pos as int) == parse_chars(bytes@, pos + 8, n as nat),
            (match parse_chars(bytes@, p as int, (n - k) as nat) {
                Some(cp) => parse_chars(bytes@, pos + 8, n as nat) == Some((s@ + cp.0, cp.1)),
                None => parse_chars(bytes@, pos + 8, n as nat) is None,
            }),
        decreases n - k,
    {
        if bytes.len() - p < 4 {
            proof {
                assert(parse_chars(bytes@, p as int, (n - k) as nat) is None);
            }
            return None;
        }
        let sl = slice_subrange(bytes.as_slice(), p, p + 4);
        let x = u32_from_le_bytes(sl);
        let copt = char_from_u32(x);
        match copt {
            None => {
                proof {
                    assert(parse_chars(bytes@, p as int, (n - k) as nat) is None);
                }
                return None;
            },
            Some(c) => {
                proof {
                    vstd::utf8::char_u32_cast(c, x);
                    assert(x as char == c);
                    let inner = parse_chars(bytes@, p + 4, (n - k - 1) as nat);
                    if inner is Some {
                        let iv = inner->0;
                        assert(s@.push(c) + iv.0 =~= s@ + (seq![c] + iv.0));
                    }
                }
                push_char(&mut s, c);
                p = p + 4;
                k = k + 1;
            },
        }
    }
    proof {
        assert(parse_chars(bytes@, p as int, 0) == Some((Seq::<char>::empty(), p as int)));
        assert(s@ + Seq::<char>::empty() =~= s@);
    }
    Some((s, p))
}

/// Check that a parsed model is well formed: the token table strictly
/// sorted, every token and both sides of every rule nonempty.
fn check_model(merges: &Vec<Pair>, tokens: &Vec<String>) -> (r: bool)
    ensures
        r == wf_model(merge_views(merges@), token_views(tokens@)),
{
    let ghost ms = merge_views(merges@);
    let ghost ts = token_views(tokens@);
    let mut i: usize = 0;
    while i < merges.len()
        invariant
            i <= merges@.len(),
            ms == merge_views(merges@),
            ts == token_views(tokens@),
            forall|m: int| 0 <= m < i ==> (#[trigger] ms[m]).0.len() >= 1 && ms[m].1.len() >= 1,
        decreases merges@.len() - i,
    {
        if merges[i].left.as_str().is_empty() || merges[i].right.as_str().is_empty() {
            proof {
                assert(ms[i as int] == merges@[i as int]@);
            }
            return false;
        }
        proof {
            assert(ms[i as int] == merges@[i as int]@);
        }
        i = i + 1;
    }
    let mut j: usize = 0;
    while j < tokens.len()
        invariant
            j <= tokens@.len(),
            ms == merge_views(merges@),
            ts == token_views(tokens@),
            forall|m: int| 0 <= m < ms.len() ==> (#[trigger] ms[m]).0.len() >= 1 && ms[m].1.len() >= 1,
            forall|k: int| 0 <= k < j ==> (#[trigger] ts[k]).len() >= 1,
            forall|k: int| 0 < k < j ==> lex_lt(ts[k - 1], #[trigger] ts[k]),
        decreases tokens@.len() - j,
    {
        proof {
            assert(ts[j as int] == tokens@[j as int]@);
        }
        if tokens[j].as_str().is_empty() {
            return false;
        }
        if j > 0 {
            proof {
                assert(ts[j - 1] == tokens@[j - 1]@);
            }
            if !lex_lt_exec(&tokens[j - 1], &tokens[j]) {
                proof {
                    if wf_model(ms, ts) {
                        assert(lex_lt(ts[j - 1], ts[j as int]));
                        assert(false);
                    }
                }
                return false;
            }
        }
        j = j + 1;
    }
    proof {
        assert forall|a: int, b: int| 0 <= a < b < ts.len() implies lex_lt(ts[a], ts[b]) by {
            lemma_lex_chain(ts, a, b);
        }
    }
    true
}

/// In an adjacently sorted table every earlier token is below every later
/// one.
proof fn lemma_lex_chain(ts: Seq<Seq<char>>, a: int, b: int)
    requires
        forall|k: int| 0 < k < ts.len() ==> lex_lt(ts[k - 1], #[trigger] ts[k]),
        0 <= a < b < ts.len(),
    ensures
        lex_lt(ts[a], ts[b]),
    decreases b - a,
{
    if b == a + 1 {
    } else {
        lemma_lex_chain(ts, a, b - 1);
        lemma_lex_lt_trans(ts[a], ts[b - 1], ts[b]);
    }
}

impl Tokenizer {
    /// Encode the model to its persisted byte form. Writing the bytes to
    /// storage is the caller's task.
    pub fn save(&self) -> (r: Vec<u8>)
        ensures
            r@ == spec_encode(merge_views(self.merges@), token_views(self.tokens@)),
    {
        let ghost ms = merge_views(self.merges@);
        let ghost ts = token_views(self.tokens@);
        let mut out: Vec<u8> = Vec::new();
        write_u64(&mut out, self.merges.len() as u64);
        let ghost base = out@;
        let mut i: usize = 0;
        proof {
            assert(ms.take(0) =~= Seq::<(Seq<char>, Seq<char>)>::empty());
            assert(base + Seq::<u8>::empty() =~= base);
        }
        while i < self.merges.len()
            invariant
                i <= self.merges@.len(),
                ms == merge_views(self.merges@),
                base == Seq::<u8>::empty() + spec_u64_to_le_bytes(ms.len() as u64),
                out@ == base + enc_pairs(ms.take(i as int)),
            decreases self.merges@.len() - i,
        {
            write_str(&mut out, &self.merges[i].left);
            write_str(&mut out, &self.merges[i].right);
            proof {
                assert(ms[i as int] == self.merges@[i as int]@);
                assert(ms.take(i + 1) =~= ms.take(i as int).push(ms[i as int]));
                lemma_enc_pairs_push(ms.take(i as int), ms[i as int]);
                assert(base + enc_pairs(ms.take(i as int)) + enc_str(ms[i as int].0) + enc_str(
                    ms[i as int].1,
                ) =~= base + enc_pairs(ms.take(i + 1)));
            }
            i = i + 1;
        }
        proof {
            assert(ms.take(ms.len() as int) =~= ms);
        }
        write_u64(&mut out, self.tokens.len() as u64);
        let ghost base2 = out@;
        let mut j: usize = 0;
        proof {
            assert(ts.take(0) =~= Seq::<Seq<char>>::empty());
            assert(base2 + Seq::<u8>::empty() =~= base2);
        }
        while j < self.tokens.len()
            invariant
                j <= self.tokens@.len(),
                ts == token_views(self.tokens@),
                base2 == Seq::<u8>::empty() + spec_u64_to_le_bytes(merge_views(self.merges@).len() as u64)
                    + enc_pairs(merge_views(self.merges@)) + spec_u64_to_le_bytes(ts.len() as u64),
                out@ == base2 + enc_strs(ts.take(j as int)),
            decreases self.tokens@.len() - j,
        {
            write_str(&mut out, &self.tokens[j]);
            proof {
                assert(ts[j as int] == self.tokens@[j as int]@);
                assert(ts.take(j + 1) =~= ts.take(j as int).push(ts[j as int]));
                lemma_enc_strs_push(ts.take(j as int), ts[j as int]);
                assert(base2 + enc_strs(ts.take(j as int)) + enc_str(ts[j as int]) =~= base2
                    + enc_strs(ts.take(j + 1)));
            }
            j = j + 1;
        }
        proof {
            assert(ts.take(ts.len() as int) =~= ts);
            assert(out@ =~= spec_encode(ms, ts));
        }
        out
    }

    /// Decode a model from its persisted byte form. Fails with
    /// `SerializationFailure` exactly when the bytes are not the complete,
    /// well-formed encoding of a model.
    pub fn load(bytes: &Vec<u8>) -> (r: Result<Tokenizer, TokenizerError>)
        ensures
            (match r {
                Ok(t) => spec_decode(bytes@) == Some(
                    (merge_views(t.merges@), token_views(t.tokens@)),
                ) && t.wf(),
                Err(e) => spec_decode(bytes@) is None && e == TokenizerError::SerializationFailure,
            }),
    {
        let b = bytes;
        if b.len() < 8 {
            return Err(TokenizerError::SerializationFailure);
        }
        let nm64 = read_u64(b, 0);
        if nm64 > b.len() as u64 {
            proof {
                lemma_parse_pairs_bounds(b@, 8, nm64 as nat);
                if parse_pairs(b@, 8, nm64 as nat) is Some {
                    assert(false);
                }
                assert(spec_decode(b@) is None);
            }
            return Err(TokenizerError::SerializationFailure);
        }
        let nm = nm64 as usize;
        let mut merges: Vec<Pair> = Vec::new();
        let mut p: usize = 8;
        let mut k: usize = 0;
        proof {
            assert(parse_pairs(b@, p as int, (nm - k) as nat) == parse_pairs(b@, 8, nm as nat));
            assert(merge_views(merges@) =~= Seq::<(Seq<char>, Seq<char>)>::empty());
        }
        while k < nm
            invariant
                b@ == bytes@,
                k <= nm,
                nm == nm64 as usize,
                nm64 as nat == nm as nat,
                8 <= p <= b@.len(),
                merges@.len() == k,
                parse_u64(b@, 0) == Some((nm64, 8int)),
                (match parse_pairs(b@, p as int, (nm - k) as nat) {
                    Some(mp) => parse_pairs(b@, 8, nm as nat) == Some(
                        (merge_views(merges@) + mp.0, mp.1),
                    ),
                    None => parse_pairs(b@, 8, nm as nat) is None,
                }),
            decreases nm - k,
        {
            let lopt = read_str(b, p);
            let (left, p1) = match lopt {
                None => {
                    proof {
                        assert(parse_pair(b@, p as int) is None);
                        assert(parse_pairs(b@, p as int, (nm - k) as nat) is None);
                        assert(spec_decode(b@) is None);
                    }
                    return Err(TokenizerError::SerializationFailure);
                },
                Some(lp) => lp,
            };
            let ropt = read_str(b, p1);
            let (right, p2) = match ropt {
                None => {
                    proof {
                        assert(parse_pair(b@, p as int) is None);
                        assert(parse_pairs(b@, p as int, (nm - k) as nat) is None);
                        assert(spec_decode(b@) is None);
                    }
                    return Err(TokenizerError::SerializationFailure);
                },
                Some(rp) => rp,
            };
            let ghost mv = (left@, right@);
            let pr = Pair { left, right };
            proof {
                assert(pr@ == mv);
                assert(parse_pair(b@, p as int) == Some((mv, p2 as int)));
                let inner = parse_pairs(b@, p2 as int, (nm - k - 1) as nat);
                if inner is Some {
                    let iv = inner->0;
                    assert(merge_views(merges@.push(pr)) =~= merge_views(merges@).push(mv));
                    assert(merge_views(merges@).push(mv) + iv.0 =~= merge_views(merges@) + (
                    seq![mv] + iv.0));
                }
            }
            proof {
                lemma_parse_str_bounds(b@, p as int);
                lemma_parse_str_bounds(b@, p1 as int);
            }
            merges.push(pr);
            p = p2;
            k = k + 1;
        }
        proof {
            assert(parse_pairs(b@, p as int, 0) == Some(
                (Seq::<(Seq<char>, Seq<char>)>::empty(), p as int),
            ));
            assert(merge_views(merges@) + Seq::<(Seq<char>, Seq<char>)>::empty() =~= merge_views(
                merges@,
            ));
        }
        let ghost mviews = merge_views(merges@);
        proof {
            assert(parse_pairs(b@, 8, nm64 as nat) == Some((mviews, p as int)));
        }
        if b.len() - p < 8 {
            proof {
                assert(parse_u64(b@, p as int) is None);
                assert(spec_decode(b@) is None);
            }
            return Err(TokenizerError::SerializationFailure);
        }
        let nt64 = read_u64(b, p);
        if nt64 > b.len() as u64 {
            proof {
                lemma_parse_strs_bounds(b@, p + 8, nt64 as nat);
                if parse_strs(b@, p + 8, nt64 as nat) is Some {
                    assert(false);
                }
                assert(spec_decode(b@) is None);
            }
            return Err(TokenizerError::SerializationFailure);
        }
        let nt = nt64 as usize;
        let mut tokens: Vec<String> = Vec::new();
        let ghost pafter = p + 8;
        let mut q: usize = p + 8;
        let mut t: usize = 0;
        proof {
            assert(parse_strs(b@, q as int, (nt - t) as nat) == parse_strs(b@, pafter, nt as nat));
            assert(token_views(tokens@) =~= Seq::<Seq<char>>::empty());
        }
        while t < nt
            invariant
                b@ == bytes@,
                t <= nt,
                nt == nt64 as usize,
                nt64 as nat == nt as nat,
                pafter == p + 8,
                pafter <= q <= b@.len(),
                tokens@.len() == t,
                parse_u64(b@, 0) == Some((nm64, 8int)),
                parse_pairs(b@, 8, nm64 as nat) == Some((mviews, p as int)),
                parse_u64(b@, p as int) == Some((nt64, p + 8)),
                (match parse_strs(b@, q as int, (nt - t) as nat) {
                    Some(sp) => parse_strs(b@, pafter, nt as nat) == Some(
                        (token_views(tokens@) + sp.0, sp.1),
                    ),
                    None => parse_strs(b@, pafter, nt as nat) is None,
                }),
            decreases nt - t,
        {
            let sopt = read_str(b, q);
            let (tok, q1) = match sopt {
                None => {
                    proof {
                        assert(parse_strs(b@, q as int, (nt - t) as nat) is None);
                        assert(spec_decode(b@) is None);
                    }
                    return Err(TokenizerError::SerializationFailure);
                },
                Some(sp) => sp,
            };
            proof {
                let inner = parse_strs(b@, q1 as int, (nt - t - 1) as nat);
                if inner is Some {
                    let iv = inner->0;
                    assert(token_views(tokens@.push(tok)) =~= token_views(tokens@).push(tok@));
                    assert(token_views(tokens@).push(tok@) + iv.0 =~= token_views(tokens@)
                        + (seq![tok@] + iv.0));
                }
            }
            proof {
                lemma_parse_str_bounds(b@, q as int);
            }
            tokens.push(tok);
            q = q1;
            t = t + 1;
        }
        proof {
            assert(parse_strs(b@, q as int, 0) == Some((Seq::<Seq<char>>::empty(), q as int)));
            assert(token_views(tokens@) + Seq::<Seq<char>>::empty() =~= token_views(tokens@));
        }
        proof {
            assert(parse_strs(b@, pafter, nt64 as nat) == Some(
                (token_views(tokens@), q as int),
            ));
        }
        if q != b.len() {
            proof {
                assert(spec_decode(b@) is None);
            }
            return Err(TokenizerError::SerializationFailure);
        }
        if !check_model(&merges, &tokens) {
            proof {
                assert(spec_decode(b@) is None);
            }
            return Err(TokenizerError::SerializationFailure);
        }
        proof {
            assert(spec_decode(b@) == Some((merge_views(merges@), token_views(tokens@))));
        }
        Ok(Tokenizer { merges, tokens })
    }
}

} // verus!
