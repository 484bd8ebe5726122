//! The BPE tokenizer: the ordered merge-rule list, the token/id table, and
//! the algorithms that build and apply them.

use vstd::prelude::*;
use vstd::string::StrSliceExecFns;
use vstd::string::StringExecFns;
use crate::chars::{
    lemma_lex_lt_connex, lemma_lex_lt_irrefl, lemma_lex_lt_trans, lex_lt, lex_lt_exec, push_char,
};
use crate::counter::{
    count_of, is_first_max, lemma_count_of_absent, lemma_count_of_at, lemma_count_pos_present,
    sat_add, Counter, Key,
};
use crate::normalize::{normalize_line, normalize_spec, split_words, words_of};
use crate::{TokenID, UNK};

verus! {

/// An ordered pair of adjacent tokens: the left-hand side of a merge rule.
/// The rule replaces the two tokens by their concatenation.
pub struct Pair {
    pub left: String,
    pub right: String,
}

impl View for Pair {
    type V = (Seq<char>, Seq<char>);

    open spec fn view(&self) -> (Seq<char>, Seq<char>) {
        (self.left@, self.right@)
    }
}

impl Key for Pair {
    fn key_eq(&self, other: &Self) -> (r: bool) {
        self.left.eq(&other.left) && self.right.eq(&other.right)
    }

    fn key_clone(&self) -> (r: Self) {
        Pair { left: self.left.clone(), right: self.right.clone() }
    }
}

/// The views of a sequence of tokens.
pub open spec fn token_views(ts: Seq<String>) -> Seq<Seq<char>> {
    ts.map_values(|t: String| t@)
}

/// The views of a sequence of merge rules.
pub open spec fn merge_views(ms: Seq<Pair>) -> Seq<(Seq<char>, Seq<char>)> {
    ms.map_values(|p: Pair| p@)
}

/// Strictly sorted under [`lex_lt`]: sorted and free of duplicates.
pub open spec fn strict_sorted(ts: Seq<Seq<char>>) -> bool {
    forall|i: int, j: int| 0 <= i < j < ts.len() ==> lex_lt(ts[i], ts[j])
}

/// A well-formed model: the token table is strictly sorted (so ids are dense
/// and the table is a bijection), tokens are nonempty, and both sides of
/// every merge rule are nonempty.
pub open spec fn wf_model(ms: Seq<(Seq<char>, Seq<char>)>, ts: Seq<Seq<char>>) -> bool {
    &&& strict_sorted(ts)
    &&& forall|i: int| 0 <= i < ts.len() ==> ts[i].len() >= 1
    &&& forall|i: int| 0 <= i < ms.len() ==> (#[trigger] ms[i]).0.len() >= 1 && ms[i].1.len() >= 1
}

/// A trained tokenizer: the ordered merge rules and the token table. The
/// token at index `i` has id `i`; the table is sorted, so it is a bijection
/// between ids and tokens.
pub struct Tokenizer {
    pub merges: Vec<Pair>,
    pub tokens: Vec<String>,
}

impl Tokenizer {
    pub open spec fn wf(&self) -> bool {
        wf_model(merge_views(self.merges@), token_views(self.tokens@))
    }
}

/// One left-to-right pass replacing every adjacent occurrence of `(l, r)` by
/// the concatenation `l + r`. The position is re-examined after a
/// replacement, so the freshly merged token is compared against what
/// follows.
pub open spec fn apply_merge(ts: Seq<Seq<char>>, l: Seq<char>, r: Seq<char>) -> Seq<Seq<char>>
    decreases ts.len(),
{
    if ts.len() < 2 {
        ts
    } else if ts[0] == l && ts[1] == r {
        apply_merge(seq![l + r] + ts.skip(2), l, r)
    } else {
        seq![ts[0]] + apply_merge(ts.drop_first(), l, r)
    }
}

/// Replay a list of merge rules in order.
pub open spec fn apply_merges(ts: Seq<Seq<char>>, ms: Seq<(Seq<char>, Seq<char>)>) -> Seq<
    Seq<char>,
>
    decreases ms.len(),
{
    if ms.len() == 0 {
        ts
    } else {
        apply_merges(apply_merge(ts, ms[0].0, ms[0].1), ms.drop_first())
    }
}

/// Replaying one more rule applies it after the earlier ones.
pub proof fn lemma_apply_merges_push(
    ts: Seq<Seq<char>>,
    ms: Seq<(Seq<char>, Seq<char>)>,
    m: (Seq<char>, Seq<char>),
)
    ensures
        apply_merges(ts, ms.push(m)) == apply_merge(apply_merges(ts, ms), m.0, m.1),
    decreases ms.len(),
{
    if ms.len() == 0 {
        assert(ms.push(m)[0] == m);
        assert(ms.push(m).drop_first() =~= Seq::<(Seq<char>, Seq<char>)>::empty());
        assert(apply_merges(ts, ms) == ts);
        assert(apply_merges(apply_merge(ts, m.0, m.1), Seq::<(Seq<char>, Seq<char>)>::empty())
            == apply_merge(ts, m.0, m.1));
    } else {
        assert(ms.push(m)[0] == ms[0]);
        assert(ms.push(m).drop_first() =~= ms.drop_first().push(m));
        lemma_apply_merges_push(apply_merge(ts, ms[0].0, ms[0].1), ms.drop_first(), m);
    }
}

/// The initial split of a word: its characters one by one, closed by the
/// single-space boundary token.
pub open spec fn initial_split(w: Seq<char>) -> Seq<Seq<char>> {
    w.map_values(|c: char| seq![c]).push(seq![' '])
}

/// The token sequence of one word: the initial split with all merge rules
/// replayed in order.
pub open spec fn spec_word_tokens(ms: Seq<(Seq<char>, Seq<char>)>, w: Seq<char>) -> Seq<Seq<char>> {
    apply_merges(initial_split(w), ms)
}

/// The token sequence of a whole line: normalize, split into words, process
/// each word, and concatenate in word order.
pub open spec fn spec_line_tokens(ms: Seq<(Seq<char>, Seq<char>)>, s: Seq<char>) -> Seq<Seq<char>> {
    words_of(normalize_spec(s)).flat_map(|w: Seq<char>| spec_word_tokens(ms, w))
}

/// The id of a token: its index in the table, or [`UNK`] when absent.
pub open spec fn spec_id(ts: Seq<Seq<char>>, t: Seq<char>) -> usize {
    if exists|i: int| 0 <= i < ts.len() && ts[i] == t {
        (choose|i: int| 0 <= i < ts.len() && ts[i] == t) as usize
    } else {
        UNK
    }
}

/// What tokenizing a line returns: the id of each of the line's tokens.
pub open spec fn spec_tokenize(
    ms: Seq<(Seq<char>, Seq<char>)>,
    ts: Seq<Seq<char>>,
    s: Seq<char>,
) -> Seq<TokenID> {
    spec_line_tokens(ms, s).map_values(|t: Seq<char>| spec_id(ts, t))
}

/// The length of the longest prefix without a newline.
pub open spec fn first_nl_len(s: Seq<char>) -> nat
    decreases s.len(),
{
    if s.len() == 0 || s[0] == '\n' {
        0
    } else {
        1 + first_nl_len(s.drop_first())
    }
}

/// The prefix before the first newline is never longer than the sequence.
pub proof fn lemma_first_nl_len_le(s: Seq<char>)
    ensures
        first_nl_len(s) <= s.len(),
    decreases s.len(),
{
    if s.len() == 0 || s[0] == '\n' {
    } else {
        lemma_first_nl_len_le(s.drop_first());
    }
}

/// A stretch without newlines closed by the end or by a newline is the
/// leading line.
pub proof fn lemma_first_nl_len(s: Seq<char>, m: int)
    requires
        0 <= m <= s.len(),
        forall|k: int| 0 <= k < m ==> s[k] != '\n',
        m == s.len() || s[m] == '\n',
    ensures
        first_nl_len(s) == m,
    decreases m,
{
    if m == 0 {
    } else {
        lemma_first_nl_len(s.drop_first(), m - 1);
    }
}

/// The newline-separated lines of a text; a trailing newline closes the
/// last line without opening an empty one.
pub open spec fn lines_of(s: Seq<char>) -> Seq<Seq<char>>
    decreases s.len(),
    via lines_of_dec
{
    if s.len() == 0 {
        Seq::<Seq<char>>::empty()
    } else {
        let n = first_nl_len(s);
        if n == s.len() {
            seq![s]
        } else {
            seq![s.take(n as int)] + lines_of(s.skip(n as int + 1))
        }
    }
}

#[via_fn]
proof fn lines_of_dec(s: Seq<char>) {
    if s.len() > 0 {
        lemma_first_nl_len_le(s);
    }
}

/// The character occurs in some normalized corpus line.
pub open spec fn corpus_char(lines: Seq<String>, c: char) -> bool {
    exists|k: int| 0 <= k < lines.len() && normalize_spec((#[trigger] lines[k])@).contains(c)
}

/// Every character of the token is the boundary or occurs in the
/// normalized corpus.
pub open spec fn chars_from(lines: Seq<String>, t: Seq<char>) -> bool {
    forall|c: int| 0 <= c < t.len() ==> t[c] == ' ' || corpus_char(lines, #[trigger] t[c])
}

/// A word of the corpus: a word of some normalized line.
pub open spec fn corpus_word(lines: Seq<String>, w: Seq<char>) -> bool {
    exists|k: int|
        0 <= k < lines.len() && words_of(normalize_spec((#[trigger] lines[k])@)).contains(w)
}

/// The word is one of the counter's keys.
pub open spec fn key_present(ev: Seq<(Seq<char>, usize)>, w: Seq<char>) -> bool {
    exists|idx: int| 0 <= idx < ev.len() && (#[trigger] ev[idx]).0 == w
}

/// A token of one of the splits, at the view level.
pub open spec fn splits_token_v(ss: Seq<Seq<Seq<char>>>, t: Seq<char>) -> bool {
    exists|a: int, b: int| 0 <= a < ss.len() && 0 <= b < ss[a].len() && (#[trigger] ss[a][b]) == t
}

/// The two token predicates agree across the view map.
pub proof fn lemma_splits_token_views(ss: Seq<Vec<String>>, t: Seq<char>)
    ensures
        splits_token(ss, t) == splits_token_v(split_views(ss), t),
{
    if splits_token(ss, t) {
        let (a, b) = choose|a: int, b: int|
            0 <= a < ss.len() && 0 <= b < ss[a]@.len() && (#[trigger] ss[a]@[b])@ == t;
        assert(split_views(ss)[a][b] == t);
    }
    if splits_token_v(split_views(ss), t) {
        let (a, b) = choose|a: int, b: int|
            0 <= a < split_views(ss).len() && 0 <= b < split_views(ss)[a].len() && (
            #[trigger] split_views(ss)[a][b]) == t;
        assert(ss[a]@[b]@ == t);
        assert(splits_token(ss, t));
    }
}

/// One learning step may record `q`: it occurs adjacently in some split,
/// and no pair has a larger capped, frequency-weighted count.
pub open spec fn bpe_step_ok(
    ss: Seq<Seq<Seq<char>>>,
    fs: Seq<usize>,
    q: (Seq<char>, Seq<char>),
) -> bool {
    &&& exists|a: int| 0 <= a < ss.len() && count_adj(#[trigger] ss[a], q) >= 1
    &&& forall|q2: (Seq<char>, Seq<char>)|
        cap(#[trigger] pair_weight(ss, fs, q2)) <= cap(pair_weight(ss, fs, q))
}

/// The splits after merging `q` everywhere.
pub open spec fn bpe_next(ss: Seq<Seq<Seq<char>>>, q: (Seq<char>, Seq<char>)) -> Seq<
    Seq<Seq<char>>,
> {
    ss.map_values(|s: Seq<Seq<char>>| apply_merge(s, q.0, q.1))
}

/// A vocabulary as observed between merges: sorted, holding every token of
/// the splits, and nothing else but possibly the boundary token.
pub open spec fn step_vocab(ss: Seq<Seq<Seq<char>>>, vs: Seq<Seq<char>>) -> bool {
    &&& strict_sorted(vs)
    &&& forall|t: Seq<char>| splits_token_v(ss, t) ==> vs.contains(t)
    &&& forall|k: int|
        0 <= k < vs.len() ==> (splits_token_v(ss, #[trigger] vs[k]) || vs[k] == seq![' '])
}

/// The merge rules `ms` are a valid learning run from the splits `ss` with
/// word frequencies `fs`: each rule was recorded while some current
/// vocabulary was still below the target, and each was a most frequent
/// occurring pair of the splits of its moment.
pub open spec fn bpe_run_ok(
    ss: Seq<Seq<Seq<char>>>,
    fs: Seq<usize>,
    target: usize,
    ms: Seq<(Seq<char>, Seq<char>)>,
) -> bool
    decreases ms.len(),
{
    if ms.len() == 0 {
        true
    } else {
        &&& (exists|vs: Seq<Seq<char>>| #[trigger] step_vocab(ss, vs) && vs.len() < target)
        &&& bpe_step_ok(ss, fs, ms[0])
        &&& bpe_run_ok(bpe_next(ss, ms[0]), fs, target, ms.drop_first())
    }
}

/// The splits left after replaying a learning run.
pub open spec fn bpe_run_splits(
    ss: Seq<Seq<Seq<char>>>,
    ms: Seq<(Seq<char>, Seq<char>)>,
) -> Seq<Seq<Seq<char>>>
    decreases ms.len(),
{
    if ms.len() == 0 {
        ss
    } else {
        bpe_run_splits(bpe_next(ss, ms[0]), ms.drop_first())
    }
}

/// The run may stop: the vocabulary reached the target, or no weighted pair
/// is left to merge.
pub open spec fn bpe_done(ss: Seq<Seq<Seq<char>>>, fs: Seq<usize>, target: usize) -> bool {
    (exists|vs: Seq<Seq<char>>| #[trigger] step_vocab(ss, vs) && vs.len() >= target) || (forall|
        q: (Seq<char>, Seq<char>),
    |
        #[trigger] pair_weight(ss, fs, q) == 0)
}

/// Extending a valid run by one valid step.
pub proof fn lemma_bpe_run_snoc(
    ss: Seq<Seq<Seq<char>>>,
    fs: Seq<usize>,
    target: usize,
    ms: Seq<(Seq<char>, Seq<char>)>,
    m: (Seq<char>, Seq<char>),
)
    requires
        bpe_run_ok(ss, fs, target, ms),
        exists|vs: Seq<Seq<char>>|
            #[trigger] step_vocab(bpe_run_splits(ss, ms), vs) && vs.len() < target,
        bpe_step_ok(bpe_run_splits(ss, ms), fs, m),
    ensures
        bpe_run_ok(ss, fs, target, ms.push(m)),
        bpe_run_splits(ss, ms.push(m)) == bpe_next(bpe_run_splits(ss, ms), m),
    decreases ms.len(),
{
    if ms.len() == 0 {
        assert(ms.push(m)[0] == m);
        assert(ms.push(m).drop_first() =~= Seq::<(Seq<char>, Seq<char>)>::empty());
        assert(bpe_run_splits(ss, ms) == ss);
        assert(bpe_run_ok(bpe_next(ss, m), fs, target, Seq::<(Seq<char>, Seq<char>)>::empty()));
        assert(bpe_run_splits(bpe_next(ss, m), Seq::<(Seq<char>, Seq<char>)>::empty()) == bpe_next(
            ss,
            m,
        ));
    } else {
        assert(ms.push(m)[0] == ms[0]);
        assert(ms.push(m).drop_first() =~= ms.drop_first().push(m));
        assert(bpe_run_splits(ss, ms) == bpe_run_splits(bpe_next(ss, ms[0]), ms.drop_first()));
        let vs0 = choose|vs: Seq<Seq<char>>|
            #[trigger] step_vocab(bpe_run_splits(ss, ms), vs) && vs.len() < target;
        assert(step_vocab(bpe_run_splits(bpe_next(ss, ms[0]), ms.drop_first()), vs0) && vs0.len()
            < target);
        lemma_bpe_run_snoc(bpe_next(ss, ms[0]), fs, target, ms.drop_first(), m);
    }
}

/// Replaying a run rewrites each word's split independently: the final
/// split of the word at `i` is its initial split with all recorded rules
/// applied in order, exactly what the encoder computes for that word.
pub proof fn lemma_bpe_run_splits_pointwise(
    ss: Seq<Seq<Seq<char>>>,
    ms: Seq<(Seq<char>, Seq<char>)>,
    i: int,
)
    requires
        0 <= i < ss.len(),
    ensures
        bpe_run_splits(ss, ms).len() == ss.len(),
        bpe_run_splits(ss, ms)[i] == apply_merges(ss[i], ms),
    decreases ms.len(),
{
    if ms.len() == 0 {
    } else {
        assert(bpe_next(ss, ms[0])[i] == apply_merge(ss[i], ms[0].0, ms[0].1));
        lemma_bpe_run_splits_pointwise(bpe_next(ss, ms[0]), ms.drop_first(), i);
    }
}

/// The model `(ms, ts)` is the outcome of a valid learning run on the word
/// table `(ws, fs)`: `ws` are distinct corpus words and every corpus word
/// is among them, the frequencies are positive, the rules `ms` form a
/// valid run from the words' initial splits, the run was allowed to stop,
/// and the token table holds exactly the final splits' tokens plus the
/// boundary token.
pub open spec fn trained_from(
    lines: Seq<String>,
    target: usize,
    ms: Seq<(Seq<char>, Seq<char>)>,
    ts: Seq<Seq<char>>,
    ws: Seq<Seq<char>>,
    fs: Seq<usize>,
) -> bool {
    let ss0 = ws.map_values(|w: Seq<char>| initial_split(w));
    let ssf = bpe_run_splits(ss0, ms);
    &&& ws.no_duplicates()
    &&& ws.len() == fs.len()
    &&& (forall|i: int| 0 <= i < ws.len() ==> corpus_word(lines, #[trigger] ws[i]))
    &&& (forall|w: Seq<char>| #[trigger] corpus_word(lines, w) ==> ws.contains(w))
    &&& (forall|i: int| 0 <= i < fs.len() ==> #[trigger] fs[i] >= 1)
    &&& bpe_run_ok(ss0, fs, target, ms)
    &&& bpe_done(ssf, fs, target)
    &&& (forall|t: Seq<char>| ts.contains(t) <==> (splits_token_v(ssf, t) || t == seq![' ']))
}

/// Encoder-trainer consistency: every token of a trained word's final
/// split is in the token table. The final split is what the encoder
/// computes for that word, so a corpus word encodes without the unknown
/// sentinel.
pub proof fn lemma_trained_word_tokens(
    lines: Seq<String>,
    target: usize,
    ms: Seq<(Seq<char>, Seq<char>)>,
    ts: Seq<Seq<char>>,
    ws: Seq<Seq<char>>,
    fs: Seq<usize>,
    i: int,
)
    requires
        trained_from(lines, target, ms, ts, ws, fs),
        0 <= i < ws.len(),
    ensures
        forall|b: int|
            0 <= b < apply_merges(initial_split(ws[i]), ms).len() ==> ts.contains(
                #[trigger] apply_merges(initial_split(ws[i]), ms)[b],
            ),
{
    let ss0 = ws.map_values(|w: Seq<char>| initial_split(w));
    lemma_bpe_run_splits_pointwise(ss0, ms, i);
    assert(ss0[i] == initial_split(ws[i]));
    let ssf = bpe_run_splits(ss0, ms);
    assert forall|b: int|
        0 <= b < apply_merges(initial_split(ws[i]), ms).len() implies ts.contains(
        #[trigger] apply_merges(initial_split(ws[i]), ms)[b],
    ) by {
        assert(ssf[i][b] == apply_merges(initial_split(ws[i]), ms)[b]);
        assert(splits_token_v(ssf, ssf[i][b]));
    }
}

/// A token present in the table gets a real id, never the sentinel.
pub proof fn lemma_contained_token_id(ts: Seq<Seq<char>>, t: Seq<char>)
    requires
        ts.contains(t),
        ts.len() <= usize::MAX,
    ensures
        (spec_id(ts, t) as int) < ts.len(),
        spec_id(ts, t) != UNK,
        ts[spec_id(ts, t) as int] == t,
{
    let k = choose|k: int| 0 <= k < ts.len() && ts[k] == t;
    assert(0 <= k < ts.len() && ts[k] == t);
    let i = choose|i: int| 0 <= i < ts.len() && ts[i] == t;
    assert(0 <= i < ts.len() && ts[i] == t);
}

/// The token is generated by the learning process: a single corpus
/// character, the boundary token, or the output (concatenation) of one of
/// the first `upto` merge rules.
pub open spec fn from_rules(
    lines: Seq<String>,
    ms: Seq<(Seq<char>, Seq<char>)>,
    upto: int,
    t: Seq<char>,
) -> bool {
    (t.len() == 1 && (t[0] == ' ' || corpus_char(lines, t[0]))) || exists|j: int|
        0 <= j < upto && j < ms.len() && t == (#[trigger] ms[j]).0 + ms[j].1
}

/// Generation is stable when later rules are appended.
proof fn lemma_from_rules_push(
    lines: Seq<String>,
    ms: Seq<(Seq<char>, Seq<char>)>,
    m: (Seq<char>, Seq<char>),
    upto: int,
    t: Seq<char>,
)
    requires
        from_rules(lines, ms, upto, t),
        upto <= ms.len(),
    ensures
        from_rules(lines, ms.push(m), upto, t),
{
    if !(t.len() == 1 && (t[0] == ' ' || corpus_char(lines, t[0]))) {
        let j = choose|j: int| 0 <= j < upto && j < ms.len() && t == (#[trigger] ms[j]).0 + ms[j].1;
        assert(ms.push(m)[j] == ms[j]);
    }
}

/// The characters of a corpus word occur in the corpus.
proof fn lemma_corpus_word_chars(lines: Seq<String>, w: Seq<char>, c: int)
    requires
        corpus_word(lines, w),
        0 <= c < w.len(),
    ensures
        corpus_char(lines, w[c]),
{
    let k = choose|k: int|
        0 <= k < lines.len() && words_of(normalize_spec((#[trigger] lines[k])@)).contains(w);
    crate::normalize::lemma_words_of_chars(normalize_spec(lines[k]@), w, c);
}

/// Concatenation keeps character provenance.
proof fn lemma_chars_from_concat(lines: Seq<String>, a: Seq<char>, b: Seq<char>)
    requires
        chars_from(lines, a),
        chars_from(lines, b),
    ensures
        chars_from(lines, a + b),
{
    assert forall|c: int| 0 <= c < (a + b).len() implies ((a + b)[c] == ' ' || corpus_char(
        lines,
        #[trigger] (a + b)[c],
    )) by {
        if c < a.len() {
            assert((a + b)[c] == a[c]);
        } else {
            assert((a + b)[c] == b[c - a.len()]);
        }
    }
}

/// The string a token id decodes to: the token at that index, or `"UNK"`
/// for the sentinel and for any id outside the table.
pub open spec fn spec_token_str(ts: Seq<Seq<char>>, id: TokenID) -> Seq<char> {
    if (id as int) < ts.len() {
        ts[id as int]
    } else {
        seq!['U', 'N', 'K']
    }
}

/// Occurrences of the adjacent pair `q` in one token sequence, counted by
/// the same left-to-right scan that merging uses.
pub open spec fn count_adj(ts: Seq<Seq<char>>, q: (Seq<char>, Seq<char>)) -> nat
    decreases ts.len(),
{
    if ts.len() < 2 {
        0
    } else {
        (if ts[0] == q.0 && ts[1] == q.1 {
            1nat
        } else {
            0nat
        }) + count_adj(ts.drop_first(), q)
    }
}

/// The views of a sequence of splits.
pub open spec fn split_views(ss: Seq<Vec<String>>) -> Seq<Seq<Seq<char>>> {
    ss.map_values(|s: Vec<String>| token_views(s@))
}

/// The counts of a counter's entries.
pub open spec fn freqs_of(s: Seq<(Seq<char>, usize)>) -> Seq<usize> {
    s.map_values(|e: (Seq<char>, usize)| e.1)
}

/// The frequency of the pair `q` over all splits, each split weighted by its
/// word's corpus frequency.
pub open spec fn pair_weight(
    ss: Seq<Seq<Seq<char>>>,
    fs: Seq<usize>,
    q: (Seq<char>, Seq<char>),
) -> nat
    decreases ss.len(),
{
    if ss.len() == 0 || fs.len() == 0 {
        0
    } else {
        count_adj(ss[0], q) * (fs[0] as nat) + pair_weight(ss.drop_first(), fs.drop_first(), q)
    }
}

/// A mathematical count clipped to `usize`, matching saturating counter
/// arithmetic.
pub open spec fn cap(n: nat) -> usize {
    if n > usize::MAX {
        usize::MAX
    } else {
        n as usize
    }
}

/// Appending a token adds at most the one closing pair to the count.
pub proof fn lemma_count_adj_push(ts: Seq<Seq<char>>, x: Seq<char>, q: (Seq<char>, Seq<char>))
    ensures
        count_adj(ts.push(x), q) == count_adj(ts, q) + (if ts.len() >= 1 && ts.last() == q.0 && x
            == q.1 {
            1nat
        } else {
            0nat
        }),
    decreases ts.len(),
{
    if ts.len() == 0 {
        assert(ts.push(x).len() == 1);
        assert(count_adj(ts.push(x), q) == 0);
    } else if ts.len() == 1 {
        assert(ts.push(x)[0] == ts[0]);
        assert(ts.push(x)[1] == x);
        assert(ts.push(x).drop_first() =~= seq![x]);
        assert(count_adj(seq![x], q) == 0);
        assert(ts.last() == ts[0]);
    } else {
        assert(ts.push(x)[0] == ts[0]);
        assert(ts.push(x)[1] == ts[1]);
        assert(ts.push(x).drop_first() =~= ts.drop_first().push(x));
        lemma_count_adj_push(ts.drop_first(), x, q);
        assert(ts.drop_first().last() == ts.last());
    }
}

/// The pair `q` occurs adjacently exactly when its count is positive.
pub proof fn lemma_count_adj_occurrence(ts: Seq<Seq<char>>, q: (Seq<char>, Seq<char>))
    ensures
        count_adj(ts, q) >= 1 <==> exists|j: int|
            0 <= j < ts.len() - 1 && #[trigger] ts[j] == q.0 && ts[j + 1] == q.1,
    decreases ts.len(),
{
    if ts.len() < 2 {
    } else {
        lemma_count_adj_occurrence(ts.drop_first(), q);
        if ts[0] == q.0 && ts[1] == q.1 {
            assert(exists|j: int|
                0 <= j < ts.len() - 1 && #[trigger] ts[j] == q.0 && ts[j + 1] == q.1) by {
                assert(ts[0] == q.0 && ts[0int + 1] == q.1);
            }
        } else {
            if count_adj(ts, q) >= 1 {
                let j = choose|j: int|
                    0 <= j < ts.drop_first().len() - 1 && #[trigger] ts.drop_first()[j] == q.0
                        && ts.drop_first()[j + 1] == q.1;
                assert(ts[j + 1] == q.0 && ts[j + 1 + 1] == q.1);
            }
            if exists|j: int| 0 <= j < ts.len() - 1 && #[trigger] ts[j] == q.0 && ts[j + 1]
                == q.1 {
                let j = choose|j: int|
                    0 <= j < ts.len() - 1 && #[trigger] ts[j] == q.0 && ts[j + 1] == q.1;
                assert(j >= 1);
                assert(ts.drop_first()[j - 1] == q.0 && ts.drop_first()[j - 1 + 1] == q.1);
            }
        }
    }
}

/// Weighted pair frequency grows split by split.
pub proof fn lemma_pair_weight_push(
    ss: Seq<Seq<Seq<char>>>,
    fs: Seq<usize>,
    s: Seq<Seq<char>>,
    f: usize,
    q: (Seq<char>, Seq<char>),
)
    requires
        ss.len() == fs.len(),
    ensures
        pair_weight(ss.push(s), fs.push(f), q) == pair_weight(ss, fs, q) + count_adj(s, q) * f,
    decreases ss.len(),
{
    if ss.len() == 0 {
        assert(ss.push(s)[0] == s);
        assert(fs.push(f)[0] == f);
        assert(ss.push(s).drop_first() =~= ss);
        assert(fs.push(f).drop_first() =~= fs);
    } else {
        assert(ss.push(s)[0] == ss[0]);
        assert(fs.push(f)[0] == fs[0]);
        assert(ss.push(s).drop_first() =~= ss.drop_first().push(s));
        assert(fs.push(f).drop_first() =~= fs.drop_first().push(f));
        lemma_pair_weight_push(ss.drop_first(), fs.drop_first(), s, f, q);
    }
}

/// Every token of a merge pass is a token of the input or the merged token.
pub proof fn lemma_apply_merge_tokens(ts: Seq<Seq<char>>, l: Seq<char>, r: Seq<char>, t: Seq<char>)
    requires
        apply_merge(ts, l, r).contains(t),
    ensures
        ts.contains(t) || t == l + r,
    decreases ts.len(),
{
    if ts.len() < 2 {
    } else if ts[0] == l && ts[1] == r {
        let hs = seq![l + r] + ts.skip(2);
        lemma_apply_merge_tokens(hs, l, r, t);
        if hs.contains(t) {
            let k = choose|k: int| 0 <= k < hs.len() && hs[k] == t;
            if k == 0 {
            } else {
                assert(ts[k + 1] == t);
            }
        }
    } else {
        let rest = apply_merge(ts.drop_first(), l, r);
        assert(apply_merge(ts, l, r) == seq![ts[0]] + rest);
        let k = choose|k: int| 0 <= k < (seq![ts[0]] + rest).len() && (seq![ts[0]] + rest)[k] == t;
        if k == 0 {
            assert(ts[0] == t);
        } else {
            assert(rest[k - 1] == t);
            assert(rest.contains(t));
            lemma_apply_merge_tokens(ts.drop_first(), l, r, t);
            if ts.drop_first().contains(t) {
                let m = choose|m: int| 0 <= m < ts.drop_first().len() && ts.drop_first()[m] == t;
                assert(ts[m + 1] == t);
            }
        }
    }
}

/// A merge pass never lengthens a token sequence, and strictly shortens it
/// when the pair occurs.
pub proof fn lemma_apply_merge_len(ts: Seq<Seq<char>>, l: Seq<char>, r: Seq<char>)
    ensures
        apply_merge(ts, l, r).len() <= ts.len(),
        count_adj(ts, (l, r)) >= 1 ==> apply_merge(ts, l, r).len() < ts.len(),
    decreases ts.len(),
{
    if ts.len() < 2 {
    } else if ts[0] == l && ts[1] == r {
        lemma_apply_merge_len(seq![l + r] + ts.skip(2), l, r);
    } else {
        lemma_apply_merge_len(ts.drop_first(), l, r);
    }
}

/// The total number of tokens across all splits.
pub open spec fn sum_len(ss: Seq<Vec<String>>) -> nat
    decreases ss.len(),
{
    if ss.len() == 0 {
        0
    } else {
        ss[0]@.len() + sum_len(ss.drop_first())
    }
}

/// Pointwise no-longer splits have a no-larger total.
pub proof fn lemma_sum_len_le(a: Seq<Vec<String>>, b: Seq<Vec<String>>)
    requires
        a.len() == b.len(),
        forall|i: int| 0 <= i < a.len() ==> (#[trigger] b[i])@.len() <= a[i]@.len(),
    ensures
        sum_len(b) <= sum_len(a),
    decreases a.len(),
{
    if a.len() > 0 {
        lemma_sum_len_le(a.drop_first(), b.drop_first());
    }
}

/// Pointwise no-longer splits with one strictly shorter have a strictly
/// smaller total.
pub proof fn lemma_sum_len_lt(a: Seq<Vec<String>>, b: Seq<Vec<String>>, k: int)
    requires
        a.len() == b.len(),
        forall|i: int| 0 <= i < a.len() ==> (#[trigger] b[i])@.len() <= a[i]@.len(),
        0 <= k < a.len(),
        b[k]@.len() < a[k]@.len(),
    ensures
        sum_len(b) < sum_len(a),
    decreases a.len(),
{
    if k == 0 {
        lemma_sum_len_le(a.drop_first(), b.drop_first());
    } else {
        lemma_sum_len_lt(a.drop_first(), b.drop_first(), k - 1);
    }
}

/// A token different from both sides of the pair survives a merge pass.
pub proof fn lemma_apply_merge_keeps(ts: Seq<Seq<char>>, l: Seq<char>, r: Seq<char>, t: Seq<char>)
    requires
        ts.contains(t),
        t != l,
        t != r,
    ensures
        apply_merge(ts, l, r).contains(t),
    decreases ts.len(),
{
    if ts.len() < 2 {
    } else if ts[0] == l && ts[1] == r {
        let hs = seq![l + r] + ts.skip(2);
        let i = choose|i: int| 0 <= i < ts.len() && ts[i] == t;
        assert(i >= 2);
        assert(hs[i - 1] == ts.skip(2)[i - 2]);
        assert(hs[i - 1] == t);
        assert(hs.contains(t));
        lemma_apply_merge_keeps(hs, l, r, t);
    } else {
        let rest = apply_merge(ts.drop_first(), l, r);
        let i = choose|i: int| 0 <= i < ts.len() && ts[i] == t;
        if i == 0 {
            assert((seq![ts[0]] + rest)[0] == t);
        } else {
            assert(ts.drop_first()[i - 1] == t);
            assert(ts.drop_first().contains(t));
            lemma_apply_merge_keeps(ts.drop_first(), l, r, t);
            let j = choose|j: int| 0 <= j < rest.len() && rest[j] == t;
            assert((seq![ts[0]] + rest)[j + 1] == t);
        }
        assert((seq![ts[0]] + rest).contains(t));
    }
}

/// No recorded rule consumed the boundary token.
pub open spec fn boundary_free(ms: Seq<(Seq<char>, Seq<char>)>) -> bool {
    forall|m: int| 0 <= m < ms.len() ==> (#[trigger] ms[m]).0 != seq![' '] && ms[m].1 != seq![' ']
}

/// Two duplicate-free sequences with the same elements have the same
/// length.
pub proof fn lemma_same_elements_same_len(a: Seq<Seq<char>>, b: Seq<Seq<char>>)
    requires
        a.no_duplicates(),
        b.no_duplicates(),
        forall|t: Seq<char>| a.contains(t) <==> b.contains(t),
    ensures
        a.len() == b.len(),
{
    broadcast use vstd::seq_lib::seq_to_set_is_finite;
    broadcast use vstd::set::group_set_axioms;

    a.unique_seq_to_set();
    b.unique_seq_to_set();
    assert(a.to_set() =~= b.to_set());
}

/// A strictly sorted sequence has no duplicates.
pub proof fn lemma_strict_sorted_no_duplicates(ts: Seq<Seq<char>>)
    requires
        strict_sorted(ts),
    ensures
        ts.no_duplicates(),
{
    assert forall|i: int, j: int| 0 <= i < ts.len() && 0 <= j < ts.len() && i != j implies ts[i]
        != ts[j] by {
        if ts[i] == ts[j] {
            if i < j {
                lemma_lex_lt_irrefl(ts[i]);
            } else {
                lemma_lex_lt_irrefl(ts[j]);
            }
        }
    }
}

/// Distinct sequences drawn from a distinct pool plus one extra element are
/// at most one longer than the pool.
pub proof fn lemma_distinct_source_len(a: Seq<Seq<char>>, b: Seq<Seq<char>>, x: Seq<char>)
    requires
        a.no_duplicates(),
        forall|i: int| 0 <= i < a.len() ==> b.contains(#[trigger] a[i]) || a[i] == x,
    ensures
        a.len() <= b.len() + 1,
{
    broadcast use vstd::seq_lib::seq_to_set_is_finite;
    broadcast use vstd::set::group_set_axioms;

    a.unique_seq_to_set();
    b.lemma_cardinality_of_set();
    let bs = b.to_set().insert(x);
    assert forall|t: Seq<char>| a.to_set().contains(t) implies bs.contains(t) by {
        let i = choose|i: int| 0 <= i < a.len() && a[i] == t;
        assert(b.contains(a[i]) || a[i] == x);
    }
    vstd::set_lib::lemma_len_subset(a.to_set(), bs);
    if b.to_set().contains(x) {
        assert(bs =~= b.to_set());
    }
}

/// Insert a token into a sorted vocabulary unless it is already there.
fn vocab_insert(v: &mut Vec<String>, x: String)
    requires
        strict_sorted(token_views(old(v)@)),
    ensures
        strict_sorted(token_views(final(v)@)),
        forall|t: Seq<char>|
            token_views(final(v)@).contains(t) <==> (token_views(old(v)@).contains(t) || t == x@),
        old(v)@.len() <= final(v)@.len() <= old(v)@.len() + 1,
{
    let ghost tv = token_views(v@);
    let n = v.len();
    let mut k: usize = 0;
    while k < n
        invariant
            k <= n,
            n == v@.len(),
            v@ == old(v)@,
            tv == token_views(v@),
            forall|j: int| 0 <= j < k ==> lex_lt(tv[j], x@),
        ensures
            k <= n,
            v@ == old(v)@,
            forall|j: int| 0 <= j < k ==> lex_lt(tv[j], x@),
            k < n ==> !lex_lt(tv[k as int], x@),
        decreases n - k,
    {
        if !lex_lt_exec(&v[k], &x) {
            break ;
        }
        k = k + 1;
    }
    if k < n && v[k].eq(&x) {
        proof {
            assert(tv[k as int] == x@);
            assert(token_views(v@).contains(x@));
        }
        return ;
    }
    proof {
        // every token at or after the insertion point is strictly greater
        assert forall|j: int| k <= j < n implies lex_lt(x@, tv[j]) by {
            if !lex_lt(x@, tv[k as int]) {
                lemma_lex_lt_connex(x@, tv[k as int]);
                assert(false);
            }
            if j > k {
                lemma_lex_lt_trans(x@, tv[k as int], tv[j]);
            }
        }
    }
    let ghost xs = x@;
    v.insert(k, x);
    proof {
        let nv = token_views(v@);
        assert(nv =~= tv.insert(k as int, xs));
        assert(forall|j: int| 0 <= j < k ==> nv[j] == tv[j]);
        assert(nv[k as int] == xs);
        assert(forall|j: int| k < j < nv.len() ==> nv[j] == tv[j - 1]);
        assert forall|i: int, j: int| 0 <= i < j < nv.len() implies lex_lt(nv[i], nv[j]) by {}
        assert forall|t: Seq<char>| nv.contains(t) implies (tv.contains(t) || t == xs) by {
            let i = choose|i: int| 0 <= i < nv.len() && nv[i] == t;
            if i < k {
                assert(tv[i] == t);
            } else if i > k {
                assert(tv[i - 1] == t);
            }
        }
        assert forall|t: Seq<char>| tv.contains(t) || t == xs implies nv.contains(t) by {
            if tv.contains(t) {
                let i = choose|i: int| 0 <= i < tv.len() && tv[i] == t;
                if i < k {
                    assert(nv[i] == t);
                } else {
                    assert(nv[i + 1] == t);
                }
            } else {
                assert(nv[k as int] == t);
            }
        }
    }
}

/// Whether `t` is a token of one of the first splits: all of the splits
/// before `i`, and the first `j` tokens of split `i`.
pub open spec fn splits_token_upto(ss: Seq<Vec<String>>, i: int, j: int, t: Seq<char>) -> bool {
    exists|a: int, b: int|
        0 <= a < ss.len() && 0 <= b < ss[a]@.len() && (a < i || (a == i && b < j)) && #[trigger] ss[a]@[b]@
            == t
}

/// Whether `t` is a token of some split.
pub open spec fn splits_token(ss: Seq<Vec<String>>, t: Seq<char>) -> bool {
    exists|a: int, b: int| 0 <= a < ss.len() && 0 <= b < ss[a]@.len() && #[trigger] ss[a]@[b]@ == t
}

/// The exact current vocabulary: the distinct tokens appearing across all
/// splits, sorted.
fn rebuild_vocab(splits: &Vec<Vec<String>>) -> (r: Vec<String>)
    ensures
        strict_sorted(token_views(r@)),
        forall|t: Seq<char>| token_views(r@).contains(t) <==> splits_token(splits@, t),
{
    let mut r: Vec<String> = Vec::new();
    let mut i: usize = 0;
    let n = splits.len();
    proof {
        assert(token_views(r@) =~= Seq::<Seq<char>>::empty());
    }
    while i < n
        invariant
            i <= n,
            n == splits@.len(),
            strict_sorted(token_views(r@)),
            forall|t: Seq<char>|
                token_views(r@).contains(t) <==> splits_token_upto(splits@, i as int, 0, t),
        decreases n - i,
    {
        let m = splits[i].len();
        let mut j: usize = 0;
        while j < m
            invariant
                j <= m,
                i < n,
                n == splits@.len(),
                m == splits@[i as int]@.len(),
                strict_sorted(token_views(r@)),
                forall|t: Seq<char>|
                    token_views(r@).contains(t) <==> splits_token_upto(splits@, i as int, j as int, t),
            decreases m - j,
        {
            let ghost before = token_views(r@);
            let tok = splits[i][j].clone();
            vocab_insert(&mut r, tok);
            proof {
                assert(splits@[i as int]@[j as int]@ == tok@);
                assert forall|t: Seq<char>|
                    token_views(r@).contains(t) implies splits_token_upto(
                    splits@,
                    i as int,
                    j + 1,
                    t,
                ) by {
                    if before.contains(t) {
                        let (a, b) = choose|a: int, b: int|
                            0 <= a < splits@.len() && 0 <= b < splits@[a]@.len() && (a < i as int || (
                            a == i as int && b < j as int)) && splits@[a]@[b]@ == t;
                        assert(splits@[a]@[b]@ == t);
                    } else {
                        assert(t == tok@);
                        assert(splits@[i as int]@[j as int]@ == t);
                    }
                }
                assert forall|t: Seq<char>|
                    splits_token_upto(splits@, i as int, j + 1, t) implies token_views(
                    r@,
                ).contains(t) by {
                    let (a, b) = choose|a: int, b: int|
                        0 <= a < splits@.len() && 0 <= b < splits@[a]@.len() && (a < i as int || (a
                            == i as int && b < j + 1)) && splits@[a]@[b]@ == t;
                    if a < i as int || (a == i as int && b < j as int) {
                        assert(splits_token_upto(splits@, i as int, j as int, t));
                    } else {
                        assert(t == tok@);
                    }
                }
            }
            j = j + 1;
        }
        proof {
            assert forall|t: Seq<char>|
                splits_token_upto(splits@, i + 1, 0, t) implies splits_token_upto(
                splits@,
                i as int,
                m as int,
                t,
            ) by {
                let (a, b) = choose|a: int, b: int|
                    0 <= a < splits@.len() && 0 <= b < splits@[a]@.len() && (a < i + 1 || (a == i + 1
                        && b < 0)) && splits@[a]@[b]@ == t;
                assert(a <= i as int);
                if a == i as int {
                    assert(b < m as int);
                }
                assert(splits_token_upto(splits@, i as int, m as int, t));
            }
            assert forall|t: Seq<char>|
                splits_token_upto(splits@, i as int, m as int, t) implies splits_token_upto(
                splits@,
                i + 1,
                0,
                t,
            ) by {
                let (a, b) = choose|a: int, b: int|
                    0 <= a < splits@.len() && 0 <= b < splits@[a]@.len() && (a < i as int || (a
                        == i as int && b < m as int)) && splits@[a]@[b]@ == t;
                assert(splits_token_upto(splits@, i + 1, 0, t));
            }
        }
        i = i + 1;
    }
    proof {
        assert forall|t: Seq<char>| splits_token(splits@, t) implies splits_token_upto(
            splits@,
            n as int,
            0,
            t,
        ) by {
            let (a, b) = choose|a: int, b: int|
                0 <= a < splits@.len() && 0 <= b < splits@[a]@.len() && splits@[a]@[b]@ == t;
            assert(splits_token_upto(splits@, n as int, 0, t));
        }
        assert forall|t: Seq<char>| splits_token_upto(splits@, n as int, 0, t) implies splits_token(
            splits@,
            t,
        ) by {
            let (a, b) = choose|a: int, b: int|
                0 <= a < splits@.len() && 0 <= b < splits@[a]@.len() && (a < n as int || (a
                    == n as int && b < 0)) && splits@[a]@[b]@ == t;
            assert(splits_token(splits@, t));
        }
    }
    r
}

/// The adjacent token pair with the highest weighted frequency over all
/// splits, or `None` when the pair counter stays empty (no split has two
/// tokens left). The split at index `i` is weighted with the count of the
/// word at index `i` of `word_freqs`; counts saturate at `usize::MAX`.
/// Among equally frequent pairs the one counted first (leftmost in the
/// earliest word) wins; this fixed tie-break stands in for reference
/// behavior that was unspecified.
pub fn most_frequent_pair(splits: &Vec<Vec<String>>, word_freqs: &Counter<String>) -> (r: Option<
    Pair,
>)
    requires
        word_freqs.wf(),
        splits@.len() == word_freqs.entries_view().len(),
    ensures
        (match r {
            None => forall|q: (Seq<char>, Seq<char>)|
                #[trigger] pair_weight(
                    split_views(splits@),
                    freqs_of(word_freqs.entries_view()),
                    q,
                ) == 0,
            Some(p) => {
                &&& forall|q: (Seq<char>, Seq<char>)|
                    cap(
                        #[trigger] pair_weight(
                            split_views(splits@),
                            freqs_of(word_freqs.entries_view()),
                            q,
                        ),
                    ) <= cap(
                        pair_weight(split_views(splits@), freqs_of(word_freqs.entries_view()), p@),
                    )
                &&& exists|a: int|
                    0 <= a < split_views(splits@).len() && count_adj(
                        #[trigger] split_views(splits@)[a],
                        p@,
                    ) >= 1
            },
        }),
{
    let ghost sv = split_views(splits@);
    let ghost fs = freqs_of(word_freqs.entries_view());
    let entries = word_freqs.iter();
    let mut pc: Counter<Pair> = Counter::new();
    let n = splits.len();
    proof {
        assert(sv.len() == n);
        assert(fs.len() == n);
        assert(entries@.len() == n);
        assert forall|k: int| 0 <= k < n implies (#[trigger] entries@[k]).1 == fs[k] by {
            assert(entries@[k].1 == word_freqs.entries_view()[k].1);
            assert(fs[k] == word_freqs.entries_view()[k].1);
        }
        assert(sv.take(0) =~= Seq::<Seq<Seq<char>>>::empty());
        assert(fs.take(0) =~= Seq::<usize>::empty());
        assert forall|q: (Seq<char>, Seq<char>)|
            count_of(pc.entries_view(), q) == cap(
                #[trigger] pair_weight(sv.take(0), fs.take(0), q),
            ) by {
            assert(pair_weight(sv.take(0), fs.take(0), q) == 0);
        }
    }
    let mut i: usize = 0;
    while i < n
        invariant
            i <= n,
            n == splits@.len(),
            sv == split_views(splits@),
            fs == freqs_of(word_freqs.entries_view()),
            sv.len() == n,
            fs.len() == n,
            word_freqs.wf(),
            entries@.len() == n,
            forall|k: int| 0 <= k < n ==> (#[trigger] entries@[k]).1 == fs[k],
            pc.wf(),
            forall|q: (Seq<char>, Seq<char>)|
                count_of(pc.entries_view(), q) == cap(
                    #[trigger] pair_weight(sv.take(i as int), fs.take(i as int), q),
                ),
            forall|idx: int|
                0 <= idx < pc.entries_view().len() ==> exists|a: int|
                    0 <= a < sv.len() && count_adj(sv[a], (#[trigger] pc.entries_view()[idx]).0)
                        >= 1,
        decreases n - i,
    {
        let s = &splits[i];
        let freq = entries[i].1;
        let ghost svi = sv[i as int];
        proof {
            assert(fs[i as int] == freq);
            assert(svi == token_views(s@));
            assert(svi.len() == s@.len());
        }
        if s.len() >= 2 {
            let m = s.len() - 1;
            let mut j: usize = 0;
            proof {
                assert(svi.take(1).len() < 2);
                assert forall|q: (Seq<char>, Seq<char>)|
                    count_of(pc.entries_view(), q) == cap(
                        pair_weight(sv.take(i as int), fs.take(i as int), q) + count_adj(
                            svi.take(1),
                            q,
                        ) * (freq as nat),
                    ) by {
                    assert(count_adj(svi.take(1), q) == 0);
                }
            }
            while j < m
                invariant
                    j <= m,
                    i < n,
                    n == splits@.len(),
                    sv == split_views(splits@),
                    fs == freqs_of(word_freqs.entries_view()),
                    sv.len() == n,
                    fs.len() == n,
                    m + 1 == s@.len(),
                    svi == sv[i as int],
                    svi == token_views(s@),
                    fs[i as int] == freq,
                    pc.wf(),
                    forall|q: (Seq<char>, Seq<char>)|
                        count_of(pc.entries_view(), q) == cap(
                            #[trigger] pair_weight(sv.take(i as int), fs.take(i as int), q)
                                + count_adj(svi.take(j + 1), q) * (freq as nat),
                        ),
                    forall|idx: int|
                        0 <= idx < pc.entries_view().len() ==> exists|a: int|
                            0 <= a < sv.len() && count_adj(
                                sv[a],
                                (#[trigger] pc.entries_view()[idx]).0,
                            ) >= 1,
                decreases m - j,
            {
                let p = Pair { left: s[j].clone(), right: s[j + 1].clone() };
                let ghost pv = p@;
                let ghost oldev = pc.entries_view();
                proof {
                    assert(pv.0 == svi[j as int] && pv.1 == svi[j + 1]);
                }
                pc.increment(p, freq);
                proof {
                    let newev = pc.entries_view();
                    // one more adjacent occurrence is now counted
                    assert(svi.take(j + 2) =~= svi.take(j + 1).push(svi[j + 1]));
                    assert(svi.take(j + 1).last() == svi[j as int]);
                    assert forall|q: (Seq<char>, Seq<char>)|
                        count_of(newev, q) == cap(
                            #[trigger] pair_weight(sv.take(i as int), fs.take(i as int), q)
                                + count_adj(svi.take(j + 2), q) * (freq as nat),
                        ) by {
                        lemma_count_adj_push(svi.take(j + 1), svi[j + 1], q);
                        let w = pair_weight(sv.take(i as int), fs.take(i as int), q);
                        let c = count_adj(svi.take(j + 1), q);
                        if q == pv {
                            assert(count_adj(svi.take(j + 2), q) == c + 1);
                            assert((c + 1) * (freq as nat) == c * (freq as nat) + freq) by (nonlinear_arith);
                            assert(sat_add(cap(w + c * (freq as nat)), freq) == cap(
                                w + c * (freq as nat) + (freq as nat),
                            ));
                        } else {
                            assert(count_adj(svi.take(j + 2), q) == c);
                        }
                    }
                    // every counted key occurs adjacently in some split
                    lemma_count_adj_occurrence(svi, pv);
                    assert(0 <= j < svi.len() - 1 && svi[j as int] == pv.0 && svi[j + 1] == pv.1);
                    assert(count_adj(sv[i as int], pv) >= 1);
                    assert forall|idx: int| 0 <= idx < newev.len() implies exists|a: int|
                        0 <= a < sv.len() && count_adj(sv[a], (#[trigger] newev[idx]).0) >= 1 by {
                        if idx < oldev.len() && newev[idx].0 == oldev[idx].0 {
                            assert(exists|a: int|
                                0 <= a < sv.len() && count_adj(sv[a], (oldev[idx]).0) >= 1);
                            let a0 = choose|a: int|
                                0 <= a < sv.len() && count_adj(sv[a], (oldev[idx]).0) >= 1;
                            assert(count_adj(sv[a0], (newev[idx]).0) >= 1);
                        } else {
                            assert(newev[idx].0 == pv);
                            assert(0 <= i as int && (i as int) < sv.len());
                            assert(count_adj(sv[i as int], (newev[idx]).0) >= 1);
                        }
                    }
                }
                j = j + 1;
            }
            proof {
                assert(svi.take(m + 1) =~= svi);
                assert(sv.take(i + 1) =~= sv.take(i as int).push(svi));
                assert(fs.take(i + 1) =~= fs.take(i as int).push(freq));
                assert forall|q: (Seq<char>, Seq<char>)|
                    count_of(pc.entries_view(), q) == cap(
                        #[trigger] pair_weight(sv.take(i + 1), fs.take(i + 1), q),
                    ) by {
                    lemma_pair_weight_push(sv.take(i as int), fs.take(i as int), svi, freq, q);
                }
            }
        } else {
            proof {
                assert(svi.len() < 2);
                assert(sv.take(i + 1) =~= sv.take(i as int).push(svi));
                assert(fs.take(i + 1) =~= fs.take(i as int).push(freq));
                assert forall|q: (Seq<char>, Seq<char>)|
                    count_of(pc.entries_view(), q) == cap(
                        #[trigger] pair_weight(sv.take(i + 1), fs.take(i + 1), q),
                    ) by {
                    lemma_pair_weight_push(sv.take(i as int), fs.take(i as int), svi, freq, q);
                    assert(count_adj(svi, q) == 0);
                }
            }
        }
        i = i + 1;
    }
    proof {
        assert(sv.take(n as int) =~= sv);
        assert(fs.take(n as int) =~= fs);
    }
    let best = pc.most_common();
    match best {
        None => {
            proof {
                assert forall|q: (Seq<char>, Seq<char>)| #[trigger] pair_weight(sv, fs, q)
                    == 0 by {
                    assert(count_of(pc.entries_view(), q) == 0);
                    assert(cap(pair_weight(sv, fs, q)) == 0);
                }
            }
            None
        },
        Some(p) => {
            let ghost ev = pc.entries_view();
            proof {
                let k0 = choose|k: int| is_first_max(ev, k) && p@ == ev[k].0;
                lemma_count_of_at(ev, k0);
                assert forall|q: (Seq<char>, Seq<char>)| cap(#[trigger] pair_weight(sv, fs, q))
                    <= cap(pair_weight(sv, fs, p@)) by {
                    if exists|idx: int| 0 <= idx < ev.len() && ev[idx].0 == q {
                        let idx = choose|idx: int| 0 <= idx < ev.len() && ev[idx].0 == q;
                        lemma_count_of_at(ev, idx);
                        assert(ev[idx].1 <= ev[k0].1);
                    } else {
                        lemma_count_of_absent(ev, q);
                    }
                }
                assert((ev[k0]).0 == p@);
                assert(exists|a: int| 0 <= a < sv.len() && count_adj(sv[a], (ev[k0]).0) >= 1);
            }
            Some(p.key_clone())
        },
    }
}

/// A token holding one character.
fn char_token(c: char) -> (r: String)
    ensures
        r@ == seq![c],
{
    let mut s = String::new();
    push_char(&mut s, c);
    proof {
        assert(Seq::<char>::empty().push(c) =~= seq![c]);
    }
    s
}

/// The boundary token: a single space, appended to every word's split.
pub fn boundary_token() -> (r: String)
    ensures
        r@ == seq![' '],
{
    char_token(' ')
}

/// The placeholder string for unknown ids.
fn unk_string() -> (r: String)
    ensures
        r@ == seq!['U', 'N', 'K'],
{
    let r = "UNK".to_owned();
    proof {
        reveal_strlit("UNK");
        assert(r@ =~= seq!['U', 'N', 'K']);
    }
    r
}

/// The initial split of one word, as executable tokens.
fn word_split(w: &String) -> (r: Vec<String>)
    ensures
        token_views(r@) == initial_split(w@),
{
    let len = w.as_str().unicode_len();
    let mut r: Vec<String> = Vec::new();
    let mut i: usize = 0;
    while i < len
        invariant
            i <= len,
            len == w@.len(),
            r@.len() == i,
            forall|k: int| 0 <= k < i ==> r@[k]@ == seq![w@[k]],
        decreases len - i,
    {
        let c = w.as_str().get_char(i);
        r.push(char_token(c));
        i = i + 1;
    }
    r.push(boundary_token());
    proof {
        assert(token_views(r@) =~= initial_split(w@));
    }
    r
}

/// One merge pass over an executable token sequence, equal to
/// [`apply_merge`].
fn apply_merge_once(ts: &Vec<String>, pair: &Pair, joined: &String) -> (r: Vec<String>)
    requires
        joined@ == pair.left@ + pair.right@,
    ensures
        token_views(r@) == apply_merge(token_views(ts@), pair.left@, pair.right@),
{
    let ghost l = pair.left@;
    let ghost rr = pair.right@;
    let ghost tv = token_views(ts@);
    if ts.len() == 0 {
        let out: Vec<String> = Vec::new();
        proof {
            assert(token_views(out@) =~= tv);
        }
        return out;
    }
    let mut out: Vec<String> = Vec::new();
    let mut cur: String = ts[0].clone();
    let mut i: usize = 1;
    proof {
        assert(seq![cur@] + tv.skip(1) =~= tv);
        assert(token_views(out@) + apply_merge(seq![cur@] + tv.skip(1), l, rr) =~= apply_merge(
            tv,
            l,
            rr,
        ));
    }
    while i < ts.len()
        invariant
            1 <= i <= ts.len(),
            tv == token_views(ts@),
            tv.len() == ts@.len(),
            joined@ == pair.left@ + pair.right@,
            l == pair.left@,
            rr == pair.right@,
            token_views(out@) + apply_merge(seq![cur@] + tv.skip(i as int), l, rr) == apply_merge(
                tv,
                l,
                rr,
            ),
        decreases ts.len() - i,
    {
        let ghost hs = seq![cur@] + tv.skip(i as int);
        proof {
            assert(hs.len() >= 2);
            assert(hs[0] == cur@);
            assert(hs[1] == tv[i as int]);
            assert(tv[i as int] == ts@[i as int]@);
        }
        if cur.eq(&pair.left) && ts[i].eq(&pair.right) {
            cur = joined.clone();
            proof {
                assert(hs.skip(2) =~= tv.skip(i + 1));
                assert(seq![l + rr] + hs.skip(2) =~= seq![cur@] + tv.skip(i + 1));
                assert(apply_merge(hs, l, rr) == apply_merge(seq![cur@] + tv.skip(i + 1), l, rr));
            }
            i = i + 1;
        } else {
            let prev = cur;
            cur = ts[i].clone();
            proof {
                assert(!(hs[0] == l && hs[1] == rr));
                assert(hs.drop_first() =~= tv.skip(i as int));
                assert(apply_merge(hs, l, rr) == seq![prev@] + apply_merge(tv.skip(i as int), l, rr));
                assert(seq![cur@] + tv.skip(i + 1) =~= tv.skip(i as int));
                assert(token_views(out@.push(prev)) =~= token_views(out@).push(prev@));
                assert(token_views(out@).push(prev@) + apply_merge(seq![cur@] + tv.skip(i + 1), l, rr)
                    =~= token_views(out@) + (seq![prev@] + apply_merge(tv.skip(i as int), l, rr)));
            }
            out.push(prev);
            i = i + 1;
        }
    }
    proof {
        assert(seq![cur@] + tv.skip(ts@.len() as int) =~= seq![cur@]);
        assert(apply_merge(seq![cur@], l, rr) == seq![cur@]);
        assert(token_views(out@.push(cur)) =~= token_views(out@) + seq![cur@]);
    }
    out.push(cur);
    out
}

/// The index of `t` in the (distinct) token table, or [`UNK`] when absent.
fn token_id(tokens: &Vec<String>, t: &String) -> (r: TokenID)
    requires
        forall|i: int, j: int|
            0 <= i < j < tokens@.len() ==> token_views(tokens@)[i] != token_views(tokens@)[j],
    ensures
        r == spec_id(token_views(tokens@), t@),
{
    let ghost ts = token_views(tokens@);
    let n = tokens.len();
    let mut i: usize = 0;
    while i < n
        invariant
            i <= n,
            n == tokens@.len(),
            ts == token_views(tokens@),
            forall|j: int| 0 <= j < i ==> ts[j] != t@,
            forall|i: int, j: int| 0 <= i < j < ts.len() ==> ts[i] != ts[j],
        decreases n - i,
    {
        if tokens[i].eq(t) {
            proof {
                assert(ts[i as int] == t@);
                let w = choose|k: int| 0 <= k < ts.len() && ts[k] == t@;
                assert(w == i as int);
            }
            return i;
        }
        i = i + 1;
    }
    proof {
        assert(forall|k: int| 0 <= k < ts.len() ==> ts[k] != t@);
    }
    UNK
}

impl Tokenizer {
    /// Learn a tokenizer from corpus lines. Words are counted over the
    /// normalized corpus; every distinct word starts as its characters plus
    /// the boundary token; while the vocabulary is smaller than
    /// `vocab_size`, the most frequent adjacent pair is merged everywhere
    /// and recorded, and the vocabulary is recomputed exactly from the
    /// splits. Ids are assigned by sorting the final vocabulary. Training
    /// never fails; the vocabulary can stay smaller than requested, and
    /// when the requested size is below the initial character alphabet the
    /// table is that alphabet (all single-character tokens). The final
    /// defensive boundary insertion can exceed the target by one.
    ///
    /// The contract pins the result as the outcome of a learning run
    /// ([`trained_from`]): the recorded rules are, in order, most frequent
    /// occurring pairs over the splits of exactly the corpus's distinct
    /// words, merged while the vocabulary was below the target, and the
    /// token table holds exactly the final splits' tokens plus the
    /// boundary, sorted. The run is existential only in the choice among
    /// equally frequent pairs, which the reference leaves unspecified;
    /// this implementation's own tie-break is fixed and stated on
    /// [`most_frequent_pair`].
    pub fn train(lines: &Vec<String>, vocab_size: usize) -> (r: Tokenizer)
        ensures
            r.wf(),
            token_views(r.tokens@).contains(seq![' ']),
            r.tokens@.len() <= vocab_size + 1 || (forall|k: int|
                0 <= k < r.tokens@.len() ==> (#[trigger] r.tokens@[k])@.len() == 1),
            (forall|k: int|
                0 <= k < lines@.len() ==> words_of(normalize_spec((#[trigger] lines@[k])@)).len()
                    == 0) ==> (r.merges@.len() == 0 && token_views(r.tokens@) == seq![seq![' ']]),
            forall|k: int| 0 <= k < r.tokens@.len() ==> chars_from(lines@, (#[trigger] r.tokens@[k])@),
            forall|m: int|
                0 <= m < merge_views(r.merges@).len() ==> from_rules(
                    lines@,
                    merge_views(r.merges@),
                    m,
                    (#[trigger] merge_views(r.merges@)[m]).0,
                ) && from_rules(lines@, merge_views(r.merges@), m, merge_views(r.merges@)[m].1),
            forall|k: int|
                0 <= k < r.tokens@.len() ==> from_rules(
                    lines@,
                    merge_views(r.merges@),
                    merge_views(r.merges@).len() as int,
                    (#[trigger] r.tokens@[k])@,
                ),
            exists|ws: Seq<Seq<char>>, fs: Seq<usize>|
                #[trigger] trained_from(
                    lines@,
                    vocab_size,
                    merge_views(r.merges@),
                    token_views(r.tokens@),
                    ws,
                    fs,
                ),
            boundary_free(merge_views(r.merges@)) ==> (r.tokens@.len() <= vocab_size || (forall|
                k: int,
            |
                0 <= k < r.tokens@.len() ==> (#[trigger] r.tokens@[k])@.len() == 1)),
    {
        let ghost no_words = forall|k: int|
            0 <= k < lines@.len() ==> words_of(normalize_spec((#[trigger] lines@[k])@)).len() == 0;
        let mut word_freqs: Counter<String> = Counter::new();
        let mut li: usize = 0;
        while li < lines.len()
            invariant
                word_freqs.wf(),
                li <= lines@.len(),
                no_words == (forall|k: int|
                    0 <= k < lines@.len() ==> words_of(
                        normalize_spec((#[trigger] lines@[k])@),
                    ).len() == 0),
                no_words ==> word_freqs.entries_view().len() == 0,
                forall|idx: int|
                    0 <= idx < word_freqs.entries_view().len() ==> corpus_word(
                        lines@,
                        (#[trigger] word_freqs.entries_view()[idx]).0,
                    ),
                forall|idx: int|
                    0 <= idx < word_freqs.entries_view().len() ==> (#[trigger] word_freqs.entries_view()[idx]).1
                        >= 1,
                forall|k: int, wj: int|
                    0 <= k < li && 0 <= wj < words_of(normalize_spec(lines@[k]@)).len()
                        ==> key_present(
                        word_freqs.entries_view(),
                        #[trigger] words_of(normalize_spec(lines@[k]@))[wj],
                    ),
            decreases lines@.len() - li,
        {
            let norm = normalize_line(lines[li].as_str());
            let words = split_words(&norm);
            proof {
                assert(words@.map_values(|w: String| w@).len() == words@.len());
            }
            let mut wi: usize = 0;
            while wi < words.len()
                invariant
                    word_freqs.wf(),
                    wi <= words@.len(),
                    li < lines@.len(),
                    words@.map_values(|w: String| w@) == words_of(
                        normalize_spec(lines@[li as int]@),
                    ),
                    no_words ==> words@.len() > 0 || word_freqs.entries_view().len() == 0,
                    forall|idx: int|
                        0 <= idx < word_freqs.entries_view().len() ==> corpus_word(
                            lines@,
                            (#[trigger] word_freqs.entries_view()[idx]).0,
                        ),
                    forall|idx: int|
                        0 <= idx < word_freqs.entries_view().len() ==> (#[trigger] word_freqs.entries_view()[idx]).1
                            >= 1,
                    forall|k: int, wj: int|
                        0 <= k < li && 0 <= wj < words_of(normalize_spec(lines@[k]@)).len()
                            ==> key_present(
                            word_freqs.entries_view(),
                            #[trigger] words_of(normalize_spec(lines@[k]@))[wj],
                        ),
                    forall|wj: int|
                        0 <= wj < wi ==> key_present(
                            word_freqs.entries_view(),
                            (#[trigger] words@[wj])@,
                        ),
                decreases words@.len() - wi,
            {
                let ghost oldev = word_freqs.entries_view();
                let w = words[wi].clone();
                let ghost wv = w@;
                proof {
                    assert(words@.map_values(|x: String| x@)[wi as int] == wv);
                    assert(words_of(normalize_spec(lines@[li as int]@)).contains(wv));
                    assert(corpus_word(lines@, wv));
                }
                word_freqs.insert(w);
                proof {
                    let newev = word_freqs.entries_view();
                    assert forall|idx: int| 0 <= idx < newev.len() implies corpus_word(
                        lines@,
                        (#[trigger] newev[idx]).0,
                    ) && newev[idx].1 >= 1 by {
                        lemma_count_of_at(newev, idx);
                        if idx < oldev.len() && newev[idx].0 == oldev[idx].0 {
                            assert(corpus_word(lines@, oldev[idx].0));
                            lemma_count_of_at(oldev, idx);
                            if newev[idx].0 == wv {
                                assert(newev[idx].1 == sat_add(count_of(oldev, wv), 1));
                            } else {
                                assert(newev[idx].1 == count_of(oldev, oldev[idx].0));
                            }
                        } else {
                            assert(newev[idx].0 == wv);
                            assert(newev[idx].1 == count_of(newev, wv));
                        }
                    }
                    // every key that was present keeps its slot, and the
                    // inserted word is now present
                    assert(count_of(newev, wv) >= 1);
                    lemma_count_pos_present(newev, wv);
                    assert(key_present(newev, wv));
                    assert forall|w2: Seq<char>| key_present(oldev, w2) implies key_present(
                        newev,
                        w2,
                    ) by {
                        let idx = choose|idx: int| 0 <= idx < oldev.len() && (#[trigger] oldev[idx]).0
                            == w2;
                        lemma_count_of_at(oldev, idx);
                        assert(count_of(oldev, w2) >= 1);
                        assert(count_of(newev, w2) >= 1);
                        lemma_count_pos_present(newev, w2);
                    }
                }
                wi = wi + 1;
            }
            proof {
                if no_words {
                    assert(words_of(normalize_spec(lines@[li as int]@)).len() == 0);
                    assert(words@.len() == 0);
                }
            }
            li = li + 1;
        }
        let n_words = word_freqs.iter().len();
        proof {
            if no_words {
                assert(n_words == 0);
            }
        }
        let mut splits: Vec<Vec<String>> = Vec::new();
        let mut ei: usize = 0;
        while ei < n_words
            invariant
                ei <= n_words,
                n_words == word_freqs.entries_view().len(),
                word_freqs.wf(),
                splits@.len() == ei,
                forall|idx: int|
                    0 <= idx < word_freqs.entries_view().len() ==> corpus_word(
                        lines@,
                        (#[trigger] word_freqs.entries_view()[idx]).0,
                    ),
                forall|a: int, b: int|
                    0 <= a < splits@.len() && 0 <= b < splits@[a]@.len() ==> (#[trigger] splits@[a]@[b])@.len() == 1,
                forall|a: int, b: int|
                    0 <= a < splits@.len() && 0 <= b < splits@[a]@.len() ==> chars_from(
                        lines@,
                        (#[trigger] splits@[a]@[b])@,
                    ),
                forall|i: int|
                    0 <= i < splits@.len() ==> token_views((#[trigger] splits@[i])@)
                        == initial_split(word_freqs.entries_view()[i].0),
            decreases n_words - ei,
        {
            let entries = word_freqs.iter();
            let w = word_split(&entries[ei].0);
            let ghost wv = entries@[ei as int].0@;
            proof {
                assert(wv == word_freqs.entries_view()[ei as int].0);
                assert(corpus_word(lines@, wv));
                assert(token_views(w@) == initial_split(wv));
                assert forall|b: int| 0 <= b < w@.len() implies (#[trigger] w@[b])@.len() == 1
                    && chars_from(lines@, w@[b]@) by {
                    assert(token_views(w@)[b] == w@[b]@);
                    if b < wv.len() {
                        assert(initial_split(wv)[b] == seq![wv[b]]);
                        lemma_corpus_word_chars(lines@, wv, b);
                        assert(w@[b]@[0] == wv[b]);
                    } else {
                        assert(w@.len() == initial_split(wv).len());
                        assert(initial_split(wv).len() == wv.len() + 1);
                        assert(b == wv.len());
                        assert(initial_split(wv)[b] == seq![' ']);
                        assert(chars_from(lines@, seq![' ']));
                    }
                }
            }
            splits.push(w);
            ei = ei + 1;
        }
        let mut vocab = rebuild_vocab(&splits);
        proof {
            if splits@.len() == 0 {
                let tv = token_views(vocab@);
                if tv.len() > 0 {
                    assert(tv.contains(tv[0]));
                    assert(splits_token(splits@, tv[0]));
                    assert(false);
                }
            }
        }
        vocab_insert(&mut vocab, boundary_token());
        proof {
            if splits@.len() == 0 {
                let tv = token_views(vocab@);
                assert(tv.contains(seq![' ']));
                assert(tv.len() == 1);
                assert(tv.contains(tv[0]));
                assert(tv[0] == seq![' ']);
                assert(tv =~= seq![seq![' ']]);
            }
        }
        proof {
            assert forall|a: int, b: int|
                0 <= a < splits@.len() && 0 <= b < splits@[a]@.len() implies token_views(
                vocab@,
            ).contains((#[trigger] splits@[a]@[b])@) by {
                assert(splits_token(splits@, splits@[a]@[b]@));
            }
            assert forall|a: int, b: int|
                0 <= a < splits@.len() && 0 <= b < splits@[a]@.len() implies (#[trigger] splits@[a]@[b])@.len()
                == 1 && (splits@[a]@[b]@[0] == ' ' || corpus_char(lines@, splits@[a]@[b]@[0])) by {
                assert(chars_from(lines@, splits@[a]@[b]@));
            }
            assert forall|k: int| 0 <= k < vocab@.len() implies (#[trigger] vocab@[k])@.len()
                == 1 && chars_from(lines@, vocab@[k]@) && (vocab@[k]@[0] == ' ' || corpus_char(
                lines@,
                vocab@[k]@[0],
            )) by {
                assert(token_views(vocab@)[k] == vocab@[k]@);
                assert(token_views(vocab@).contains(vocab@[k]@));
                if splits_token(splits@, vocab@[k]@) {
                    let (a, b) = choose|a: int, b: int|
                        0 <= a < splits@.len() && 0 <= b < splits@[a]@.len() && splits@[a]@[b]@
                            == vocab@[k]@;
                    assert(splits@[a]@[b]@.len() == 1);
                    assert(chars_from(lines@, splits@[a]@[b]@));
                    assert(vocab@[k]@[0] == splits@[a]@[b]@[0]);
                } else {
                    assert(vocab@[k]@ == seq![' ']);
                }
            }
        }
        let ghost splits0v = split_views(splits@);
        let ghost fsv = freqs_of(word_freqs.entries_view());
        let mut merges: Vec<Pair> = Vec::new();
        proof {
            assert(merge_views(merges@) =~= Seq::<(Seq<char>, Seq<char>)>::empty());
            assert(bpe_run_ok(splits0v, fsv, vocab_size, merge_views(merges@)));
            assert(bpe_run_splits(splits0v, merge_views(merges@)) == splits0v);
            assert forall|k: int| 0 <= k < vocab@.len() implies (splits_token(
                splits@,
                (#[trigger] vocab@[k])@,
            ) || vocab@[k]@ == seq![' ']) by {
                assert(token_views(vocab@)[k] == vocab@[k]@);
                assert(token_views(vocab@).contains(vocab@[k]@));
            }
            assert(splits0v.len() == word_freqs.entries_view().len());
            assert forall|i: int| 0 <= i < splits0v.len() implies #[trigger] splits0v[i]
                == initial_split(word_freqs.entries_view()[i].0) by {
                assert(splits0v[i] == token_views(splits@[i]@));
            }
            if splits@.len() > 0 {
                // every initial split closes with the boundary token
                let w0 = word_freqs.entries_view()[0].0;
                assert(token_views(splits@[0]@) == initial_split(w0));
                assert(initial_split(w0)[w0.len() as int] == seq![' ']);
                assert(splits@[0]@[w0.len() as int]@ == seq![' ']);
                assert(splits_token(splits@, seq![' ']));
            }
        }
        while vocab.len() < vocab_size
            invariant
                word_freqs.wf(),
                splits@.len() == word_freqs.entries_view().len(),
                strict_sorted(token_views(vocab@)),
                forall|a: int, b: int|
                    0 <= a < splits@.len() && 0 <= b < splits@[a]@.len() ==> token_views(
                        vocab@,
                    ).contains((#[trigger] splits@[a]@[b])@),
                forall|a: int, b: int|
                    0 <= a < splits@.len() && 0 <= b < splits@[a]@.len() ==> (#[trigger] splits@[a]@[b])@.len() >= 1,
                forall|a: int, b: int|
                    0 <= a < splits@.len() && 0 <= b < splits@[a]@.len() ==> chars_from(
                        lines@,
                        (#[trigger] splits@[a]@[b])@,
                    ),
                forall|k: int| 0 <= k < vocab@.len() ==> (#[trigger] vocab@[k])@.len() >= 1,
                forall|k: int| 0 <= k < vocab@.len() ==> chars_from(lines@, (#[trigger] vocab@[k])@),
                forall|a: int, b: int|
                    0 <= a < splits@.len() && 0 <= b < splits@[a]@.len() ==> from_rules(
                        lines@,
                        merge_views(merges@),
                        merges@.len() as int,
                        (#[trigger] splits@[a]@[b])@,
                    ),
                forall|k: int|
                    0 <= k < vocab@.len() ==> from_rules(
                        lines@,
                        merge_views(merges@),
                        merges@.len() as int,
                        (#[trigger] vocab@[k])@,
                    ),
                forall|m: int|
                    0 <= m < merge_views(merges@).len() ==> from_rules(
                        lines@,
                        merge_views(merges@),
                        m,
                        (#[trigger] merge_views(merges@)[m]).0,
                    ) && from_rules(lines@, merge_views(merges@), m, merge_views(merges@)[m].1),
                forall|m: int|
                    0 <= m < merges@.len() ==> (#[trigger] merges@[m]).left@.len() >= 1
                        && merges@[m].right@.len() >= 1,
                vocab@.len() <= vocab_size || (forall|k: int|
                    0 <= k < vocab@.len() ==> (#[trigger] vocab@[k])@.len() == 1),
                splits@.len() == 0 ==> merges@.len() == 0 && token_views(vocab@) == seq![
                    seq![' '],
                ],
                boundary_free(merge_views(merges@)) ==> (splits@.len() == 0 || splits_token(
                    splits@,
                    seq![' '],
                )),
                fsv == freqs_of(word_freqs.entries_view()),
                splits0v.len() == word_freqs.entries_view().len(),
                forall|i: int|
                    0 <= i < splits0v.len() ==> #[trigger] splits0v[i] == initial_split(
                        word_freqs.entries_view()[i].0,
                    ),
                bpe_run_ok(splits0v, fsv, vocab_size, merge_views(merges@)),
                bpe_run_splits(splits0v, merge_views(merges@)) == split_views(splits@),
                forall|k: int|
                    0 <= k < vocab@.len() ==> (splits_token(splits@, (#[trigger] vocab@[k])@)
                        || vocab@[k]@ == seq![' ']),
            ensures
                word_freqs.wf(),
                splits@.len() == word_freqs.entries_view().len(),
                strict_sorted(token_views(vocab@)),
                forall|a: int, b: int|
                    0 <= a < splits@.len() && 0 <= b < splits@[a]@.len() ==> token_views(
                        vocab@,
                    ).contains((#[trigger] splits@[a]@[b])@),
                forall|a: int, b: int|
                    0 <= a < splits@.len() && 0 <= b < splits@[a]@.len() ==> (#[trigger] splits@[a]@[b])@.len() >= 1,
                forall|a: int, b: int|
                    0 <= a < splits@.len() && 0 <= b < splits@[a]@.len() ==> chars_from(
                        lines@,
                        (#[trigger] splits@[a]@[b])@,
                    ),
                forall|k: int| 0 <= k < vocab@.len() ==> (#[trigger] vocab@[k])@.len() >= 1,
                forall|k: int| 0 <= k < vocab@.len() ==> chars_from(lines@, (#[trigger] vocab@[k])@),
                forall|a: int, b: int|
                    0 <= a < splits@.len() && 0 <= b < splits@[a]@.len() ==> from_rules(
                        lines@,
                        merge_views(merges@),
                        merges@.len() as int,
                        (#[trigger] splits@[a]@[b])@,
                    ),
                forall|k: int|
                    0 <= k < vocab@.len() ==> from_rules(
                        lines@,
                        merge_views(merges@),
                        merges@.len() as int,
                        (#[trigger] vocab@[k])@,
                    ),
                forall|m: int|
                    0 <= m < merge_views(merges@).len() ==> from_rules(
                        lines@,
                        merge_views(merges@),
                        m,
                        (#[trigger] merge_views(merges@)[m]).0,
                    ) && from_rules(lines@, merge_views(merges@), m, merge_views(merges@)[m].1),
                forall|m: int|
                    0 <= m < merges@.len() ==> (#[trigger] merges@[m]).left@.len() >= 1
                        && merges@[m].right@.len() >= 1,
                vocab@.len() <= vocab_size || (forall|k: int|
                    0 <= k < vocab@.len() ==> (#[trigger] vocab@[k])@.len() == 1),
                splits@.len() == 0 ==> merges@.len() == 0 && token_views(vocab@) == seq![
                    seq![' '],
                ],
                boundary_free(merge_views(merges@)) ==> (splits@.len() == 0 || splits_token(
                    splits@,
                    seq![' '],
                )),
                fsv == freqs_of(word_freqs.entries_view()),
                splits0v.len() == word_freqs.entries_view().len(),
                forall|i: int|
                    0 <= i < splits0v.len() ==> #[trigger] splits0v[i] == initial_split(
                        word_freqs.entries_view()[i].0,
                    ),
                bpe_run_ok(splits0v, fsv, vocab_size, merge_views(merges@)),
                bpe_run_splits(splits0v, merge_views(merges@)) == split_views(splits@),
                forall|k: int|
                    0 <= k < vocab@.len() ==> (splits_token(splits@, (#[trigger] vocab@[k])@)
                        || vocab@[k]@ == seq![' ']),
                vocab@.len() >= vocab_size || (forall|q: (Seq<char>, Seq<char>)|
                    #[trigger] pair_weight(split_views(splits@), fsv, q) == 0),
            decreases sum_len(splits@),
        {
            let ghost presplits = splits@;
            let pair = match most_frequent_pair(&splits, &word_freqs) {
                None => {
                    proof {
                        assert forall|q: (Seq<char>, Seq<char>)| #[trigger] pair_weight(
                            split_views(splits@),
                            fsv,
                            q,
                        ) == 0 by {
                            assert(pair_weight(
                                split_views(splits@),
                                freqs_of(word_freqs.entries_view()),
                                q,
                            ) == 0);
                        }
                    }
                    break ;
                },
                Some(p) => p,
            };
            proof {
                if splits@.len() == 0 {
                    let a = choose|a: int|
                        0 <= a < split_views(splits@).len() && count_adj(
                            #[trigger] split_views(splits@)[a],
                            pair@,
                        ) >= 1;
                    assert(false);
                }
            }
            let ghost pl = pair.left@;
            let ghost pr = pair.right@;
            proof {
                // the chosen pair occurs adjacently, so both sides are split
                // tokens and are nonempty
                let a = choose|a: int|
                    0 <= a < split_views(splits@).len() && count_adj(
                        #[trigger] split_views(splits@)[a],
                        pair@,
                    ) >= 1;
                lemma_count_adj_occurrence(split_views(splits@)[a], pair@);
                let j = choose|j: int|
                    0 <= j < split_views(splits@)[a].len() - 1 && #[trigger] split_views(splits@)[a][j]
                        == pair@.0 && split_views(splits@)[a][j + 1] == pair@.1;
                assert(split_views(splits@)[a] == token_views(splits@[a]@));
                assert(token_views(splits@[a]@)[j] == splits@[a]@[j]@);
                assert(token_views(splits@[a]@)[j + 1] == splits@[a]@[j + 1]@);
                assert(pl.len() >= 1);
                assert(pr.len() >= 1);
                assert(chars_from(lines@, pl));
                assert(chars_from(lines@, pr));
                assert(from_rules(lines@, merge_views(merges@), merges@.len() as int, pl));
                assert(from_rules(lines@, merge_views(merges@), merges@.len() as int, pr));
                assert(pair@ == (pl, pr));
                assert(count_adj(token_views(splits@[a]@), (pl, pr)) >= 1);
            }
            let ghost gvs = token_views(vocab@);
            proof {
                // the iteration's guard and choice form a valid learning step
                assert forall|t: Seq<char>| splits_token_v(split_views(splits@), t) implies
                    gvs.contains(t) by {
                    lemma_splits_token_views(splits@, t);
                    let (a2, b2) = choose|a2: int, b2: int|
                        0 <= a2 < splits@.len() && 0 <= b2 < splits@[a2]@.len() && (
                        #[trigger] splits@[a2]@[b2])@ == t;
                    assert(token_views(vocab@).contains(splits@[a2]@[b2]@));
                }
                assert forall|k: int| 0 <= k < gvs.len() implies (splits_token_v(
                    split_views(splits@),
                    #[trigger] gvs[k],
                ) || gvs[k] == seq![' ']) by {
                    assert(gvs[k] == vocab@[k]@);
                    if splits_token(splits@, vocab@[k]@) {
                        lemma_splits_token_views(splits@, vocab@[k]@);
                    }
                }
                assert(step_vocab(split_views(splits@), gvs));
                assert(gvs.len() < vocab_size);
                assert forall|q2: (Seq<char>, Seq<char>)| cap(#[trigger] pair_weight(
                    split_views(splits@),
                    fsv,
                    q2,
                )) <= cap(pair_weight(split_views(splits@), fsv, (pl, pr))) by {
                    assert(cap(pair_weight(
                        split_views(splits@),
                        freqs_of(word_freqs.entries_view()),
                        q2,
                    )) <= cap(pair_weight(
                        split_views(splits@),
                        freqs_of(word_freqs.entries_view()),
                        pair@,
                    )));
                }
                assert(bpe_step_ok(split_views(splits@), fsv, (pl, pr)));
            }
            let joined = pair.left.clone().concat(pair.right.as_str());
            let mut ns: Vec<Vec<String>> = Vec::new();
            let mut si: usize = 0;
            while si < splits.len()
                invariant
                    si <= splits@.len(),
                    ns@.len() == si,
                    pl == pair.left@,
                    pr == pair.right@,
                    joined@ == pl + pr,
                    pl.len() >= 1,
                    pr.len() >= 1,
                    chars_from(lines@, pl),
                    chars_from(lines@, pr),
                    forall|a: int, b: int|
                        0 <= a < splits@.len() && 0 <= b < splits@[a]@.len() ==> chars_from(
                            lines@,
                            (#[trigger] splits@[a]@[b])@,
                        ),
                    forall|a: int, b: int|
                        0 <= a < splits@.len() && 0 <= b < splits@[a]@.len() ==> from_rules(
                            lines@,
                            merge_views(merges@),
                            merges@.len() as int,
                            (#[trigger] splits@[a]@[b])@,
                        ),
                    forall|a: int, b: int|
                        0 <= a < splits@.len() && 0 <= b < splits@[a]@.len() ==> token_views(
                            vocab@,
                        ).contains((#[trigger] splits@[a]@[b])@),
                    forall|a: int, b: int|
                        0 <= a < ns@.len() && 0 <= b < ns@[a]@.len() ==> (token_views(
                            vocab@,
                        ).contains((#[trigger] ns@[a]@[b])@) || ns@[a]@[b]@ == joined@),
                    forall|a: int, b: int|
                        0 <= a < ns@.len() && 0 <= b < ns@[a]@.len() ==> (#[trigger] ns@[a]@[b])@.len() >= 1,
                    forall|a: int, b: int|
                        0 <= a < ns@.len() && 0 <= b < ns@[a]@.len() ==> chars_from(
                            lines@,
                            (#[trigger] ns@[a]@[b])@,
                        ),
                    forall|a: int, b: int|
                        0 <= a < ns@.len() && 0 <= b < ns@[a]@.len() ==> (from_rules(
                            lines@,
                            merge_views(merges@),
                            merges@.len() as int,
                            (#[trigger] ns@[a]@[b])@,
                        ) || ns@[a]@[b]@ == joined@),
                    forall|k: int| 0 <= k < vocab@.len() ==> (#[trigger] vocab@[k])@.len() >= 1,
                    forall|a: int| 0 <= a < si ==> (#[trigger] ns@[a])@.len() <= splits@[a]@.len(),
                    forall|a: int|
                        0 <= a < si && count_adj(token_views((#[trigger] splits@[a])@), (pl, pr))
                            >= 1 ==> ns@[a]@.len() < splits@[a]@.len(),
                    forall|a: int|
                        0 <= a < si ==> #[trigger] split_views(ns@)[a] == apply_merge(
                            split_views(splits@)[a],
                            pl,
                            pr,
                        ),
                decreases splits@.len() - si,
            {
                let rw = apply_merge_once(&splits[si], &pair, &joined);
                proof {
                    assert forall|b: int| 0 <= b < rw@.len() implies ((token_views(vocab@).contains(
                        (#[trigger] rw@[b])@,
                    ) || rw@[b]@ == joined@) && rw@[b]@.len() >= 1 && chars_from(
                        lines@,
                        rw@[b]@,
                    ) && (from_rules(lines@, merge_views(merges@), merges@.len() as int, rw@[b]@)
                        || rw@[b]@ == joined@)) by {
                        lemma_chars_from_concat(lines@, pl, pr);
                        assert(token_views(rw@)[b] == rw@[b]@);
                        assert(token_views(rw@).contains(rw@[b]@));
                        lemma_apply_merge_tokens(token_views(splits@[si as int]@), pl, pr, rw@[b]@);
                        if token_views(splits@[si as int]@).contains(rw@[b]@) {
                            let c = choose|c: int|
                                0 <= c < token_views(splits@[si as int]@).len() && token_views(
                                    splits@[si as int]@,
                                )[c] == rw@[b]@;
                            assert(splits@[si as int]@[c]@ == rw@[b]@);
                            assert(from_rules(
                                lines@,
                                merge_views(merges@),
                                merges@.len() as int,
                                splits@[si as int]@[c]@,
                            ));
                        } else {
                            assert(rw@[b]@ == pl + pr);
                        }
                    }
                    lemma_apply_merge_len(token_views(splits@[si as int]@), pl, pr);
                    assert(rw@.len() == apply_merge(token_views(splits@[si as int]@), pl, pr).len());
                    assert(token_views(splits@[si as int]@).len() == splits@[si as int]@.len());
                    assert(split_views(splits@)[si as int] == token_views(splits@[si as int]@));
                    assert(split_views(ns@.push(rw)) =~= split_views(ns@).push(token_views(rw@)));
                }
                ns.push(rw);
                si = si + 1;
            }
            let nv = rebuild_vocab(&ns);
            proof {
                let ov = token_views(vocab@);
                let nvv = token_views(nv@);
                lemma_strict_sorted_no_duplicates(nvv);
                assert forall|k: int| 0 <= k < nvv.len() implies ov.contains(#[trigger] nvv[k])
                    || nvv[k] == pl + pr by {
                    assert(nvv.contains(nvv[k]));
                    assert(splits_token(ns@, nvv[k]));
                    let (a, b) = choose|a: int, b: int|
                        0 <= a < ns@.len() && 0 <= b < ns@[a]@.len() && ns@[a]@[b]@ == nvv[k];
                    assert((ns@[a]@[b])@ == nvv[k]);
                }
                lemma_distinct_source_len(nvv, ov, pl + pr);
                assert(nvv.len() == nv@.len());
                assert(ov.len() == vocab@.len());
                // after a merge the exact vocabulary stays within the target
                assert(nv@.len() <= vocab_size);
                assert forall|a: int, b: int|
                    0 <= a < ns@.len() && 0 <= b < ns@[a]@.len() implies token_views(nv@).contains(
                    (#[trigger] ns@[a]@[b])@,
                ) by {
                    assert(splits_token(ns@, ns@[a]@[b]@));
                }
                assert forall|k: int| 0 <= k < nv@.len() implies (#[trigger] nv@[k])@.len() >= 1
                    && chars_from(lines@, nv@[k]@) && (from_rules(
                    lines@,
                    merge_views(merges@),
                    merges@.len() as int,
                    nv@[k]@,
                ) || nv@[k]@ == joined@) by {
                    assert(token_views(nv@)[k] == nv@[k]@);
                    assert(token_views(nv@).contains(nv@[k]@));
                    assert(splits_token(ns@, nv@[k]@));
                    let (a, b) = choose|a: int, b: int|
                        0 <= a < ns@.len() && 0 <= b < ns@[a]@.len() && ns@[a]@[b]@ == nv@[k]@;
                    assert((ns@[a]@[b])@.len() >= 1);
                    assert(chars_from(lines@, (ns@[a]@[b])@));
                    assert(from_rules(lines@, merge_views(merges@), merges@.len() as int, (
                    ns@[a]@[b])@) || (ns@[a]@[b])@ == joined@);
                }
            }
            proof {
                let a = choose|a: int|
                    0 <= a < split_views(presplits).len() && count_adj(
                        #[trigger] split_views(presplits)[a],
                        pair@,
                    ) >= 1;
                assert(split_views(presplits)[a] == token_views(presplits[a]@));
                assert(count_adj(token_views(presplits[a]@), (pl, pr)) >= 1);
                assert(ns@[a]@.len() < presplits[a]@.len());
                lemma_sum_len_lt(presplits, ns@, a);
            }
            let ghost oldms = merge_views(merges@);
            let ghost oldlen = merges@.len() as int;
            splits = ns;
            merges.push(Pair { left: pair.left, right: pair.right });
            vocab = nv;
            proof {
                let ms2 = merge_views(merges@);
                assert(ms2 =~= oldms.push((pl, pr)));
                // one more valid step extends the learning run
                assert(split_views(splits@) =~= bpe_next(split_views(presplits), (pl, pr)));
                assert(bpe_run_splits(splits0v, oldms) == split_views(presplits));
                assert(step_vocab(bpe_run_splits(splits0v, oldms), gvs) && gvs.len() < vocab_size);
                assert(bpe_step_ok(bpe_run_splits(splits0v, oldms), fsv, (pl, pr)));
                lemma_bpe_run_snoc(splits0v, fsv, vocab_size, oldms, (pl, pr));
                assert(bpe_run_ok(splits0v, fsv, vocab_size, ms2));
                assert(bpe_run_splits(splits0v, ms2) == split_views(splits@));
                assert forall|k: int| 0 <= k < vocab@.len() implies (splits_token(
                    splits@,
                    (#[trigger] vocab@[k])@,
                ) || vocab@[k]@ == seq![' ']) by {
                    assert(token_views(vocab@)[k] == vocab@[k]@);
                    assert(token_views(vocab@).contains(vocab@[k]@));
                    assert(splits_token(splits@, vocab@[k]@));
                }
                // a run that never consumed the boundary keeps it in the splits
                if boundary_free(ms2) {
                    assert(ms2[oldlen] == (pl, pr));
                    assert(pl != seq![' '] && pr != seq![' ']);
                    assert forall|m: int| 0 <= m < oldms.len() implies (#[trigger] oldms[m]).0
                        != seq![' '] && oldms[m].1 != seq![' '] by {
                        assert(ms2[m] == oldms[m]);
                    }
                    assert(boundary_free(oldms));
                    assert(presplits.len() > 0);
                    assert(splits_token(presplits, seq![' ']));
                    let (a3, b3) = choose|a3: int, b3: int|
                        0 <= a3 < presplits.len() && 0 <= b3 < presplits[a3]@.len() && (
                        #[trigger] presplits[a3]@[b3])@ == seq![' '];
                    assert(token_views(presplits[a3]@)[b3] == seq![' ']);
                    assert(token_views(presplits[a3]@).contains(seq![' ']));
                    lemma_apply_merge_keeps(token_views(presplits[a3]@), pl, pr, seq![' ']);
                    assert(split_views(presplits)[a3] == token_views(presplits[a3]@));
                    assert(split_views(splits@)[a3] == apply_merge(
                        token_views(presplits[a3]@),
                        pl,
                        pr,
                    ));
                    let b4 = choose|b4: int|
                        0 <= b4 < apply_merge(token_views(presplits[a3]@), pl, pr).len()
                            && apply_merge(token_views(presplits[a3]@), pl, pr)[b4] == seq![' '];
                    assert(token_views(splits@[a3]@)[b4] == seq![' ']);
                    assert(splits@[a3]@[b4]@ == seq![' ']);
                    assert(splits_token(splits@, seq![' ']));
                }
                assert(ms2[oldlen] == (pl, pr));
                assert(joined@ == ms2[oldlen].0 + ms2[oldlen].1);
                // the freshly recorded rule is built from earlier material
                lemma_from_rules_push(lines@, oldms, (pl, pr), oldlen, pl);
                lemma_from_rules_push(lines@, oldms, (pl, pr), oldlen, pr);
                assert forall|m: int|
                    0 <= m < ms2.len() implies from_rules(lines@, ms2, m, (#[trigger] ms2[m]).0)
                    && from_rules(lines@, ms2, m, ms2[m].1) by {
                    if m < oldlen {
                        lemma_from_rules_push(lines@, oldms, (pl, pr), m, oldms[m].0);
                        lemma_from_rules_push(lines@, oldms, (pl, pr), m, oldms[m].1);
                    }
                }
                assert forall|a: int, b: int|
                    0 <= a < splits@.len() && 0 <= b < splits@[a]@.len() implies from_rules(
                    lines@,
                    ms2,
                    ms2.len() as int,
                    (#[trigger] splits@[a]@[b])@,
                ) by {
                    if splits@[a]@[b]@ == joined@ {
                        assert(splits@[a]@[b]@ == ms2[oldlen].0 + ms2[oldlen].1);
                    } else {
                        lemma_from_rules_push(lines@, oldms, (pl, pr), oldlen, splits@[a]@[b]@);
                    }
                }
                assert forall|k: int| 0 <= k < vocab@.len() implies from_rules(
                    lines@,
                    ms2,
                    ms2.len() as int,
                    (#[trigger] vocab@[k])@,
                ) by {
                    if vocab@[k]@ == joined@ {
                        assert(vocab@[k]@ == ms2[oldlen].0 + ms2[oldlen].1);
                    } else {
                        lemma_from_rules_push(lines@, oldms, (pl, pr), oldlen, vocab@[k]@);
                    }
                }
            }
        }
        let ghost before = token_views(vocab@);
        let ghost small = vocab@.len() <= vocab_size;
        let ghost vocab_len_at_exit = vocab@.len();
        vocab_insert(&mut vocab, boundary_token());
        proof {
            let tv = token_views(vocab@);
            assert(tv.contains(seq![' ']));
            assert forall|k: int| 0 <= k < tv.len() implies (#[trigger] vocab@[k])@.len() >= 1
                && chars_from(lines@, vocab@[k]@) && from_rules(
                lines@,
                merge_views(merges@),
                merges@.len() as int,
                vocab@[k]@,
            ) by {
                assert(tv[k] == vocab@[k]@);
                assert(tv.contains(tv[k]));
                if before.contains(tv[k]) {
                    let b = choose|b: int| 0 <= b < before.len() && before[b] == tv[k];
                    assert(before[b].len() >= 1);
                    assert(chars_from(lines@, before[b]));
                    assert(from_rules(lines@, merge_views(merges@), merges@.len() as int, before[b]));
                } else {
                    assert(tv[k] == seq![' ']);
                    assert(chars_from(lines@, seq![' ']));
                    assert(tv[k].len() == 1 && tv[k][0] == ' ');
                }
            }
            if !small {
                assert forall|k: int| 0 <= k < tv.len() implies (#[trigger] vocab@[k])@.len()
                    == 1 by {
                    assert(tv[k] == vocab@[k]@);
                    assert(tv.contains(tv[k]));
                    if before.contains(tv[k]) {
                        let b = choose|b: int| 0 <= b < before.len() && before[b] == tv[k];
                        assert(before[b].len() == 1);
                    } else {
                        assert(tv[k] == seq![' ']);
                    }
                }
            }
        }
        proof {
            if no_words {
                assert(splits@.len() == 0);
                assert(merges@.len() == 0);
                let tv = token_views(vocab@);
                assert(before == seq![seq![' ']]);
                assert(before.contains(seq![' ']));
                if tv.len() >= 2 {
                    assert(tv.contains(tv[0]));
                    assert(tv.contains(tv[1]));
                    assert(tv[0] == seq![' '] && tv[1] == seq![' ']);
                    assert(lex_lt(tv[0], tv[1]));
                    lemma_lex_lt_irrefl(tv[0]);
                }
                assert(tv.len() == 1);
                assert(tv.contains(tv[0]));
                assert(tv[0] == seq![' ']);
                assert(tv =~= seq![seq![' ']]);
            }
        }
        let r = Tokenizer { merges, tokens: vocab };
        proof {
            assert forall|m: int| 0 <= m < merge_views(r.merges@).len() implies (#[trigger] merge_views(
                r.merges@,
            )[m]).0.len() >= 1 && merge_views(r.merges@)[m].1.len() >= 1 by {
                assert(merge_views(r.merges@)[m] == r.merges@[m]@);
            }
            assert forall|k: int| 0 <= k < token_views(r.tokens@).len() implies #[trigger] token_views(
                r.tokens@,
            )[k].len() >= 1 by {
                assert(token_views(r.tokens@)[k] == r.tokens@[k]@);
            }
            assert(r.wf());
        }
        proof {
            let ev = word_freqs.entries_view();
            let ws = ev.map_values(|e: (Seq<char>, usize)| e.0);
            let ms = merge_views(r.merges@);
            let tvs = token_views(r.tokens@);
            let ss0 = ws.map_values(|w: Seq<char>| initial_split(w));
            assert(ss0 =~= splits0v);
            let ssf = bpe_run_splits(ss0, ms);
            assert(ssf == split_views(splits@));
            assert forall|i: int, j: int|
                0 <= i < ws.len() && 0 <= j < ws.len() && i != j implies ws[i] != ws[j] by {
                assert(ws[i] == ev[i].0 && ws[j] == ev[j].0);
            }
            assert(ws.no_duplicates());
            assert forall|i: int| 0 <= i < ws.len() implies corpus_word(lines@, #[trigger] ws[i]) by {
                assert(ws[i] == ev[i].0);
            }
            assert forall|w: Seq<char>| #[trigger] corpus_word(lines@, w) implies ws.contains(
                w,
            ) by {
                let k = choose|k: int|
                    0 <= k < lines@.len() && words_of(normalize_spec((#[trigger] lines@[k])@)).contains(w);
                let wj = choose|wj: int|
                    0 <= wj < words_of(normalize_spec(lines@[k]@)).len() && words_of(
                        normalize_spec(lines@[k]@),
                    )[wj] == w;
                assert(key_present(ev, words_of(normalize_spec(lines@[k]@))[wj]));
                let idx = choose|idx: int| 0 <= idx < ev.len() && (#[trigger] ev[idx]).0 == w;
                assert(ws[idx] == w);
            }
            assert forall|i: int| 0 <= i < fsv.len() implies #[trigger] fsv[i] >= 1 by {
                assert(fsv[i] == ev[i].1);
            }
            assert(bpe_run_ok(ss0, fsv, vocab_size, ms));
            // the run was allowed to stop where it stopped
            if vocab_len_at_exit >= vocab_size {
                assert forall|t: Seq<char>| splits_token_v(ssf, t) implies before.contains(t) by {
                    lemma_splits_token_views(splits@, t);
                    let (a2, b2) = choose|a2: int, b2: int|
                        0 <= a2 < splits@.len() && 0 <= b2 < splits@[a2]@.len() && (
                        #[trigger] splits@[a2]@[b2])@ == t;
                }
                assert forall|k: int| 0 <= k < before.len() implies (splits_token_v(
                    ssf,
                    #[trigger] before[k],
                ) || before[k] == seq![' ']) by {
                    if splits_token(splits@, before[k]) {
                        lemma_splits_token_views(splits@, before[k]);
                    }
                }
                assert(step_vocab(ssf, before) && before.len() >= vocab_size);
                assert(bpe_done(ssf, fsv, vocab_size));
            } else {
                assert(bpe_done(ssf, fsv, vocab_size));
            }
            // the table holds exactly the final tokens plus the boundary
            assert forall|t: Seq<char>| tvs.contains(t) implies (splits_token_v(ssf, t) || t
                == seq![' ']) by {
                let k = choose|k: int| 0 <= k < tvs.len() && tvs[k] == t;
                assert(before.contains(t) || t == seq![' ']);
                if before.contains(t) {
                    let k2 = choose|k2: int| 0 <= k2 < before.len() && before[k2] == t;
                    if splits_token(splits@, before[k2]) {
                        lemma_splits_token_views(splits@, t);
                    }
                }
            }
            assert forall|t: Seq<char>| splits_token_v(ssf, t) || t == seq![' '] implies
                tvs.contains(t) by {
                if splits_token_v(ssf, t) {
                    lemma_splits_token_views(splits@, t);
                    let (a2, b2) = choose|a2: int, b2: int|
                        0 <= a2 < splits@.len() && 0 <= b2 < splits@[a2]@.len() && (
                        #[trigger] splits@[a2]@[b2])@ == t;
                    assert(before.contains(t));
                }
            }
            assert(trained_from(lines@, vocab_size, ms, tvs, ws, fsv));
            // a run that never consumed the boundary needs no defensive
            // insertion, so the table stays within the target
            if boundary_free(ms) {
                assert(before.contains(seq![' '])) by {
                    if splits@.len() == 0 {
                        assert(before == seq![seq![' ']]);
                        assert(before[0] == seq![' ']);
                    } else {
                        assert(splits_token(splits@, seq![' ']));
                        let (a4, b4) = choose|a4: int, b4: int|
                            0 <= a4 < splits@.len() && 0 <= b4 < splits@[a4]@.len() && (
                            #[trigger] splits@[a4]@[b4])@ == seq![' '];
                    }
                }
                lemma_strict_sorted_no_duplicates(before);
                lemma_strict_sorted_no_duplicates(tvs);
                assert forall|t: Seq<char>| tvs.contains(t) <==> before.contains(t) by {}
                lemma_same_elements_same_len(tvs, before);
                assert(tvs.len() == vocab_len_at_exit);
            }
        }
        r
    }

    /// A strictly sorted table has pairwise distinct tokens.
    proof fn lemma_tokens_distinct(&self)
        requires
            self.wf(),
        ensures
            forall|i: int, j: int|
                0 <= i < j < self.tokens@.len() ==> token_views(self.tokens@)[i] != token_views(
                    self.tokens@,
                )[j],
    {
        let ts = token_views(self.tokens@);
        assert forall|i: int, j: int| 0 <= i < j < ts.len() implies ts[i] != ts[j] by {
            if ts[i] == ts[j] {
                lemma_lex_lt_irrefl(ts[i]);
            }
        }
    }

    /// Decode each id to its token string; the sentinel and any id outside
    /// the table decode to the literal `"UNK"`.
    pub fn tokens_as_string(&self, tokens: &Vec<TokenID>) -> (r: Vec<String>)
        ensures
            r@.len() == tokens@.len(),
            forall|i: int|
                0 <= i < tokens@.len() ==> r@[i]@ == spec_token_str(
                    token_views(self.tokens@),
                    tokens@[i],
                ),
    {
        let mut r: Vec<String> = Vec::new();
        let mut i: usize = 0;
        let n = tokens.len();
        while i < n
            invariant
                i <= n,
                n == tokens@.len(),
                r@.len() == i,
                forall|j: int|
                    0 <= j < i ==> r@[j]@ == spec_token_str(token_views(self.tokens@), tokens@[j]),
            decreases n - i,
        {
            let id = tokens[i];
            if id < self.tokens.len() {
                r.push(self.tokens[id].clone());
            } else {
                r.push(unk_string());
            }
            i = i + 1;
        }
        r
    }

    /// Turn one line of raw text into token ids: normalize, split into
    /// words, split each word into characters plus the boundary token,
    /// replay every merge rule in learned order, and look each resulting
    /// token up in the table ([`UNK`] when absent).
    pub fn tokenize(&self, line: &str) -> (r: Vec<TokenID>)
        requires
            self.wf(),
        ensures
            r@ == spec_tokenize(merge_views(self.merges@), token_views(self.tokens@), line@),
    {
        let ghost ms = merge_views(self.merges@);
        let ghost ts = token_views(self.tokens@);
        let norm = normalize_line(line);
        let words = split_words(&norm);
        let ghost wviews = words@.map_values(|w: String| w@);
        let mut flat: Vec<String> = Vec::new();
        let mut wi: usize = 0;
        proof {
            assert(wviews.take(0) =~= Seq::<Seq<char>>::empty());
            assert(token_views(flat@) =~= wviews.take(0).flat_map(
                |w: Seq<char>| spec_word_tokens(ms, w),
            ));
        }
        while wi < words.len()
            invariant
                wi <= words@.len(),
                ms == merge_views(self.merges@),
                wviews == words@.map_values(|w: String| w@),
                token_views(flat@) == wviews.take(wi as int).flat_map(
                    |w: Seq<char>| spec_word_tokens(ms, w),
                ),
            decreases words@.len() - wi,
        {
            let mut cur = word_split(&words[wi]);
            let ghost w = wviews[wi as int];
            let mut mi: usize = 0;
            proof {
                assert(ms.take(0) =~= Seq::<(Seq<char>, Seq<char>)>::empty());
                assert(apply_merges(initial_split(w), ms.take(0)) == initial_split(w));
            }
            while mi < self.merges.len()
                invariant
                    mi <= self.merges@.len(),
                    ms == merge_views(self.merges@),
                    w == wviews[wi as int],
                    token_views(cur@) == apply_merges(initial_split(w), ms.take(mi as int)),
                decreases self.merges@.len() - mi,
            {
                let joined = self.merges[mi].left.clone().concat(self.merges[mi].right.as_str());
                let next = apply_merge_once(&cur, &self.merges[mi], &joined);
                proof {
                    assert(ms.take(mi + 1) =~= ms.take(mi as int).push(ms[mi as int]));
                    lemma_apply_merges_push(initial_split(w), ms.take(mi as int), ms[mi as int]);
                    assert(ms[mi as int] == self.merges@[mi as int]@);
                }
                cur = next;
                mi = mi + 1;
            }
            proof {
                assert(ms.take(self.merges@.len() as int) =~= ms);
                assert(token_views(cur@) == spec_word_tokens(ms, w));
                wviews.lemma_flat_map_take_append(|w: Seq<char>| spec_word_tokens(ms, w), wi as int);
                assert(token_views(flat@) + token_views(cur@) =~= wviews.take(wi + 1).flat_map(
                    |w: Seq<char>| spec_word_tokens(ms, w),
                ));
                assert(token_views(flat@ + cur@) =~= token_views(flat@) + token_views(cur@));
            }
            let mut cur2 = cur;
            flat.append(&mut cur2);
            wi = wi + 1;
        }
        proof {
            assert(wviews.take(words@.len() as int) =~= wviews);
            assert(token_views(flat@) == spec_line_tokens(ms, line@));
        }
        let ghost fv = token_views(flat@);
        let mut out: Vec<TokenID> = Vec::new();
        let mut fi: usize = 0;
        proof {
            self.lemma_tokens_distinct();
        }
        while fi < flat.len()
            invariant
                fi <= flat@.len(),
                ts == token_views(self.tokens@),
                fv == token_views(flat@),
                out@.len() == fi,
                forall|j: int| 0 <= j < fi ==> out@[j] == spec_id(ts, fv[j]),
                forall|i: int, j: int|
                    0 <= i < j < self.tokens@.len() ==> token_views(self.tokens@)[i]
                        != token_views(self.tokens@)[j],
            decreases flat@.len() - fi,
        {
            let id = token_id(&self.tokens, &flat[fi]);
            proof {
                assert(fv[fi as int] == flat@[fi as int]@);
            }
            out.push(id);
            fi = fi + 1;
        }
        proof {
            assert(out@ =~= fv.map_values(|t: Seq<char>| spec_id(ts, t)));
        }
        out
    }

    /// Tokenize a multi-line text: each line independently, the results
    /// concatenated in line order.
    pub fn tokenize_text(&self, text: &str) -> (r: Vec<TokenID>)
        requires
            self.wf(),
        ensures
            r@ == lines_of(text@).flat_map(
                |ln: Seq<char>|
                    spec_tokenize(merge_views(self.merges@), token_views(self.tokens@), ln),
            ),
    {
        let ghost fm = |ln: Seq<char>|
            spec_tokenize(merge_views(self.merges@), token_views(self.tokens@), ln);
        let len = text.unicode_len();
        let mut out: Vec<TokenID> = Vec::new();
        let mut i: usize = 0;
        proof {
            assert(text@.skip(0) =~= text@);
            assert(out@ + lines_of(text@.skip(0)).flat_map(fm) =~= lines_of(text@).flat_map(fm));
        }
        while i < len
            invariant
                i <= len,
                len == text@.len(),
                self.wf(),
                fm == (|ln: Seq<char>|
                    spec_tokenize(merge_views(self.merges@), token_views(self.tokens@), ln)),
                out@ + lines_of(text@.skip(i as int)).flat_map(fm) == lines_of(text@).flat_map(fm),
            decreases len - i,
        {
            let mut j: usize = i;
            while j < len
                invariant
                    i <= j <= len,
                    len == text@.len(),
                    forall|k: int| i <= k < j ==> text@[k] != '\n',
                ensures
                    i <= j <= len,
                    forall|k: int| i <= k < j ==> text@[k] != '\n',
                    j == len || text@[j as int] == '\n',
                decreases len - j,
            {
                if text.get_char(j) == '\n' {
                    break ;
                }
                j = j + 1;
            }
            let line = text.substring_char(i, j);
            let ids = self.tokenize(line);
            let ghost su = text@.skip(i as int);
            proof {
                assert(forall|k: int| 0 <= k < j - i ==> su[k] == text@[k + i]);
                lemma_first_nl_len(su, j - i);
                assert(line@ =~= su.take(j - i));
            }
            let mut ids2 = ids;
            if j == len {
                proof {
                    assert(su.take(j - i) =~= su);
                    assert(lines_of(su) == seq![su]);
                    assert(seq![su].len() == 1);
                    seq![su].lemma_flat_map_singleton(fm);
                    assert(out@ + ids2@ =~= out@ + lines_of(su).flat_map(fm));
                    assert(text@.skip(len as int) =~= Seq::<char>::empty());
                    assert(lines_of(Seq::<char>::empty()).flat_map(fm) =~= Seq::<TokenID>::empty());
                    assert((out@ + ids2@) + Seq::<TokenID>::empty() =~= out@ + ids2@);
                }
                out.append(&mut ids2);
                i = len;
            } else {
                proof {
                    let rest = lines_of(su.skip(j - i + 1));
                    assert(lines_of(su) == seq![su.take(j - i)] + rest);
                    let mapped = (seq![su.take(j - i)] + rest).map_values(fm);
                    assert(mapped =~= seq![fm(su.take(j - i))] + rest.map_values(fm));
                    assert(mapped.first() == fm(su.take(j - i)));
                    assert(mapped.drop_first() =~= rest.map_values(fm));
                    assert(lines_of(su).flat_map(fm) == fm(su.take(j - i)) + rest.map_values(
                        fm,
                    ).flatten());
                    assert(su.skip(j - i + 1) =~= text@.skip(j + 1));
                    assert(ids2@ == fm(line@));
                    assert((out@ + ids2@) + lines_of(text@.skip(j + 1)).flat_map(fm) =~= out@ + (
                    fm(su.take(j - i)) + rest.map_values(fm).flatten()));
                }
                out.append(&mut ids2);
                i = j + 1;
            }
        }
        proof {
            assert(text@.skip(len as int) =~= Seq::<char>::empty());
            assert(lines_of(Seq::<char>::empty()).flat_map(fm) =~= Seq::<TokenID>::empty());
            assert(out@ + Seq::<TokenID>::empty() =~= out@);
        }
        out
    }
}

} // verus!
