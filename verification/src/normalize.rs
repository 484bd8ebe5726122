//! Text cleaning and word splitting, shared by training and encoding.
//!
//! [`normalize_line`] keeps only alphanumeric and whitespace characters and
//! lower-cases the rest; [`split_words`] splits on whitespace runs,
//! discarding empty fragments. Both are pure; normalization is idempotent
//! on ASCII text (stated on the result of [`normalize_line`]).

use vstd::prelude::*;
use crate::chars::{
    ascii_lower, exec_is_alnum, exec_is_wspace, exec_lower, is_wspace, keep, lower_of,
};

verus! {

/// The normalized form of a line: characters that are neither alphanumeric
/// nor whitespace are dropped, the rest are replaced by their Unicode
/// lowercase mapping.
pub open spec fn normalize_spec(s: Seq<char>) -> Seq<char>
    decreases s.len(),
{
    if s.len() == 0 {
        Seq::<char>::empty()
    } else {
        (if keep(s[0]) {
            lower_of(s[0])
        } else {
            Seq::<char>::empty()
        }) + normalize_spec(s.drop_first())
    }
}

/// Normalization treats each appended character independently.
pub proof fn lemma_normalize_push(s: Seq<char>, c: char)
    ensures
        normalize_spec(s.push(c)) == normalize_spec(s) + (if keep(c) {
            lower_of(c)
        } else {
            Seq::<char>::empty()
        }),
    decreases s.len(),
{
    let tail = if keep(c) {
        lower_of(c)
    } else {
        Seq::<char>::empty()
    };
    if s.len() == 0 {
        assert(s.push(c)[0] == c);
        assert(s.push(c).drop_first() =~= s);
        assert(normalize_spec(Seq::<char>::empty()) =~= Seq::<char>::empty());
        assert(s =~= Seq::<char>::empty());
        assert(normalize_spec(s.push(c)) =~= tail);
        assert(normalize_spec(s) + tail =~= tail);
    } else {
        assert(s.push(c)[0] == s[0]);
        assert(s.push(c).drop_first() =~= s.drop_first().push(c));
        lemma_normalize_push(s.drop_first(), c);
        let head = if keep(s[0]) {
            lower_of(s[0])
        } else {
            Seq::<char>::empty()
        };
        assert(head + (normalize_spec(s.drop_first()) + tail) =~= (head + normalize_spec(
            s.drop_first(),
        )) + tail);
    }
}

/// The length of the longest non-whitespace prefix.
pub open spec fn leading_word_len(s: Seq<char>) -> nat
    decreases s.len(),
{
    if s.len() == 0 || is_wspace(s[0]) {
        0
    } else {
        1 + leading_word_len(s.drop_first())
    }
}

/// The leading word is never longer than the sequence.
pub proof fn lemma_leading_word_len_le(s: Seq<char>)
    ensures
        leading_word_len(s) <= s.len(),
    decreases s.len(),
{
    if s.len() == 0 || is_wspace(s[0]) {
    } else {
        lemma_leading_word_len_le(s.drop_first());
    }
}

/// The whitespace-delimited words of a character sequence, in order, without
/// empty fragments.
pub open spec fn words_of(s: Seq<char>) -> Seq<Seq<char>>
    decreases s.len(),
    via words_of_dec
{
    if s.len() == 0 {
        Seq::<Seq<char>>::empty()
    } else if is_wspace(s[0]) {
        words_of(s.drop_first())
    } else {
        let n = leading_word_len(s);
        seq![s.take(n as int)] + words_of(s.skip(n as int))
    }
}

#[via_fn]
proof fn words_of_dec(s: Seq<char>) {
    if s.len() > 0 && !is_wspace(s[0]) {
        lemma_leading_word_len_le(s);
    }
}

/// A stretch of non-whitespace closed by the end or by whitespace is the
/// leading word.
pub proof fn lemma_leading_word_len(s: Seq<char>, m: int)
    requires
        0 <= m <= s.len(),
        forall|k: int| 0 <= k < m ==> !is_wspace(s[k]),
        m == s.len() || is_wspace(s[m]),
    ensures
        leading_word_len(s) == m,
    decreases m,
{
    if m == 0 {
    } else {
        lemma_leading_word_len(s.drop_first(), m - 1);
    }
}

/// Every character of every word occurs in the split sequence.
pub proof fn lemma_words_of_chars(s: Seq<char>, w: Seq<char>, c: int)
    requires
        words_of(s).contains(w),
        0 <= c < w.len(),
    ensures
        s.contains(w[c]),
    decreases s.len(),
{
    if s.len() == 0 {
    } else if is_wspace(s[0]) {
        lemma_words_of_chars(s.drop_first(), w, c);
        let i = choose|i: int| 0 <= i < s.drop_first().len() && s.drop_first()[i] == w[c];
        assert(s[i + 1] == w[c]);
    } else {
        let n = leading_word_len(s) as int;
        lemma_leading_word_len_le(s);
        let ws = words_of(s.skip(n));
        let k = choose|k: int| 0 <= k < words_of(s).len() && words_of(s)[k] == w;
        if k == 0 {
            assert(w == s.take(n));
            assert(s[c] == w[c]);
        } else {
            assert(ws[k - 1] == w);
            assert(ws.contains(w));
            lemma_words_of_chars(s.skip(n), w, c);
            let i = choose|i: int| 0 <= i < s.skip(n).len() && s.skip(n)[i] == w[c];
            assert(s[i + n] == w[c]);
        }
    }
}

/// The characters of the leading word are not whitespace.
proof fn lemma_leading_word_len_chars(s: Seq<char>)
    ensures
        forall|j: int| 0 <= j < leading_word_len(s) ==> !is_wspace(#[trigger] s[j]),
    decreases s.len(),
{
    if s.len() == 0 || is_wspace(s[0]) {
    } else {
        lemma_leading_word_len_chars(s.drop_first());
        lemma_leading_word_len_le(s);
        assert forall|j: int| 0 <= j < leading_word_len(s) implies !is_wspace(
            #[trigger] s[j],
        ) by {
            if j > 0 {
                assert(s.drop_first()[j - 1] == s[j]);
            }
        }
    }
}

/// Every word is nonempty and holds no whitespace.
pub proof fn lemma_words_of_word_shape(s: Seq<char>, w: Seq<char>)
    requires
        words_of(s).contains(w),
    ensures
        w.len() >= 1,
        forall|c: int| 0 <= c < w.len() ==> !is_wspace(#[trigger] w[c]),
    decreases s.len(),
{
    if s.len() == 0 {
    } else if is_wspace(s[0]) {
        lemma_words_of_word_shape(s.drop_first(), w);
    } else {
        let n = leading_word_len(s) as int;
        lemma_leading_word_len_le(s);
        let k = choose|k: int| 0 <= k < words_of(s).len() && words_of(s)[k] == w;
        if k == 0 {
            assert(w == s.take(n));
            lemma_leading_word_len_chars(s);
            assert forall|c: int| 0 <= c < w.len() implies !is_wspace(#[trigger] w[c]) by {
                assert(w[c] == s[c]);
            }
        } else {
            assert(words_of(s.skip(n))[k - 1] == w);
            assert(words_of(s.skip(n)).contains(w));
            lemma_words_of_word_shape(s.skip(n), w);
        }
    }
}

/// A nonempty whitespace-free sequence — such as any word — is its own
/// single word.
pub proof fn lemma_single_word(w: Seq<char>)
    requires
        w.len() >= 1,
        forall|c: int| 0 <= c < w.len() ==> !is_wspace(#[trigger] w[c]),
    ensures
        words_of(w) == seq![w],
{
    lemma_leading_word_len(w, w.len() as int);
    assert(w.take(w.len() as int) =~= w);
    assert(w.skip(w.len() as int) =~= Seq::<char>::empty());
    assert(words_of(Seq::<char>::empty()) =~= Seq::<Seq<char>>::empty());
    assert(words_of(w) =~= seq![w]);
}

/// Keep only alphanumeric and whitespace characters and replace the rest by
/// their Unicode lowercase mapping. On ASCII text the result is already
/// normalized: normalizing twice equals normalizing once.
pub fn normalize_line(line: &str) -> (r: String)
    ensures
        r@ == normalize_spec(line@),
        (forall|k: int| 0 <= k < line@.len() ==> (line@[k] as u32) < 0x80) ==> normalize_spec(r@)
            == r@,
{
    let len = line.unicode_len();
    let mut out = String::new();
    let mut i: usize = 0;
    proof {
        assert(line@.take(0) =~= Seq::<char>::empty());
    }
    while i < len
        invariant
            i <= len,
            len == line@.len(),
            out@ == normalize_spec(line@.take(i as int)),
            (forall|k: int| 0 <= k < i ==> (line@[k] as u32) < 0x80) ==> normalize_spec(out@)
                == out@,
        decreases len - i,
    {
        let c = line.get_char(i);
        let al = exec_is_alnum(c);
        let ws = exec_is_wspace(c);
        proof {
            assert(line@.take(i + 1) =~= line@.take(i as int).push(line@[i as int]));
            lemma_normalize_push(line@.take(i as int), c);
        }
        if al || ws {
            let low = exec_lower(c);
            proof {
                assert(out@ + low@ =~= normalize_spec(line@.take(i + 1)));
                if (c as u32) < 0x80 && (forall|k: int| 0 <= k < i ==> (line@[k] as u32) < 0x80) {
                    // on ASCII the one emitted character is kept and is its
                    // own lowercase, so the output stays normalized
                    let d = ascii_lower(c);
                    assert(low@ == seq![d]);
                    assert(keep(d));
                    assert(lower_of(d) == seq![d]);
                    lemma_normalize_push(out@, d);
                    assert(out@ + low@ =~= out@.push(d));
                    assert(normalize_spec(out@.push(d)) == normalize_spec(out@) + lower_of(d));
                    assert(normalize_spec(out@) + lower_of(d) =~= out@.push(d));
                }
            }
            out.append(low.as_str());
        } else {
            proof {
                assert(normalize_spec(line@.take(i as int)) + Seq::<char>::empty() =~= out@);
            }
        }
        i = i + 1;
    }
    proof {
        assert(line@.take(len as int) =~= line@);
    }
    out
}

/// Split a (normalized) line on whitespace runs, discarding empty fragments.
pub fn split_words(s: &String) -> (r: Vec<String>)
    ensures
        r@.map_values(|w: String| w@) == words_of(s@),
{
    let len = s.as_str().unicode_len();
    let mut r: Vec<String> = Vec::new();
    let mut i: usize = 0;
    proof {
        assert(s@.skip(0) =~= s@);
        assert(r@.map_values(|w: String| w@) + words_of(s@) =~= words_of(s@));
    }
    while i < len
        invariant
            i <= len,
            len == s@.len(),
            r@.map_values(|w: String| w@) + words_of(s@.skip(i as int)) == words_of(s@),
        decreases len - i,
    {
        let c = s.as_str().get_char(i);
        if exec_is_wspace(c) {
            proof {
                assert(s@.skip(i as int).drop_first() =~= s@.skip(i + 1));
            }
            i = i + 1;
        } else {
            let mut j: usize = i + 1;
            while j < len
                invariant
                    i < j <= len,
                    len == s@.len(),
                    forall|k: int| i <= k < j ==> !is_wspace(s@[k]),
                ensures
                    i < j <= len,
                    forall|k: int| i <= k < j ==> !is_wspace(s@[k]),
                    j == len || is_wspace(s@[j as int]),
                decreases len - j,
            {
                let cj = s.as_str().get_char(j);
                if exec_is_wspace(cj) {
                    break ;
                }
                j = j + 1;
            }
            let w = s.as_str().substring_char(i, j).to_owned();
            proof {
                let su = s@.skip(i as int);
                assert(forall|k: int| 0 <= k < j - i ==> su[k] == s@[k + i]);
                lemma_leading_word_len(su, j - i);
                assert(su.take(j - i) =~= s@.subrange(i as int, j as int));
                assert(su.skip(j - i) =~= s@.skip(j as int));
                assert(words_of(su) == seq![w@] + words_of(s@.skip(j as int)));
                assert(r@.push(w).map_values(|w: String| w@) =~= r@.map_values(
                    |w: String| w@,
                ).push(w@));
                assert(r@.map_values(|w: String| w@).push(w@) + words_of(s@.skip(j as int)) =~= r@
                    .map_values(|w: String| w@) + (seq![w@] + words_of(s@.skip(j as int))));
            }
            r.push(w);
            i = j;
        }
    }
    proof {
        assert(s@.skip(len as int) =~= Seq::<char>::empty());
        assert(r@.map_values(|w: String| w@) + Seq::<Seq<char>>::empty() =~= r@.map_values(
            |w: String| w@,
        ));
    }
    r
}

} // verus!
