//! A frequency counter: a map from key to count that keeps the order in
//! which keys first appeared.

use vstd::prelude::*;

verus! {

/// Keys of a [`Counter`]: values whose equality test and cloning agree with
/// their mathematical view.
pub trait Key: View + Sized {
    /// Equality that agrees with view equality.
    fn key_eq(&self, other: &Self) -> (r: bool)
        ensures
            r == (self@ == other@),
    ;

    /// A copy with the same view.
    fn key_clone(&self) -> (r: Self)
        ensures
            r@ == self@,
    ;
}

impl Key for String {
    fn key_eq(&self, other: &Self) -> (r: bool) {
        self.eq(other)
    }

    fn key_clone(&self) -> (r: Self) {
        self.clone()
    }
}

/// Saturating addition on `usize`: the arithmetic of counter updates. Counts
/// stick at `usize::MAX` instead of overflowing.
pub open spec fn sat_add(a: usize, b: usize) -> usize {
    if a + b > usize::MAX {
        usize::MAX
    } else {
        (a + b) as usize
    }
}

/// The keys of the entries are pairwise distinct.
pub open spec fn keys_distinct<V>(s: Seq<(V, usize)>) -> bool {
    forall|i: int, j: int| 0 <= i < j < s.len() ==> s[i].0 != s[j].0
}

/// The entry at `i` has a maximal count and strictly exceeds every earlier
/// entry's count: `i` is the first maximum.
pub open spec fn is_first_max<V>(s: Seq<(V, usize)>, i: int) -> bool {
    &&& 0 <= i < s.len()
    &&& forall|j: int| 0 <= j < s.len() ==> s[j].1 <= s[i].1
    &&& forall|j: int| 0 <= j < i ==> s[j].1 < s[i].1
}

/// The count recorded for `q` in the entries, 0 when the key is absent.
pub open spec fn count_of<V>(s: Seq<(V, usize)>, q: V) -> usize
    decreases s.len(),
{
    if s.len() == 0 {
        0
    } else if s[0].0 == q {
        s[0].1
    } else {
        count_of(s.drop_first(), q)
    }
}

/// With distinct keys, the count of the key at `i` is the entry's count.
pub proof fn lemma_count_of_at<V>(s: Seq<(V, usize)>, i: int)
    requires
        keys_distinct(s),
        0 <= i < s.len(),
    ensures
        count_of(s, s[i].0) == s[i].1,
    decreases s.len(),
{
    if i == 0 {
    } else {
        assert(s[0].0 != s[i].0);
        assert(keys_distinct(s.drop_first()));
        lemma_count_of_at(s.drop_first(), i - 1);
    }
}

/// The count of an absent key is 0.
pub proof fn lemma_count_of_absent<V>(s: Seq<(V, usize)>, q: V)
    requires
        forall|i: int| 0 <= i < s.len() ==> s[i].0 != q,
    ensures
        count_of(s, q) == 0,
    decreases s.len(),
{
    if s.len() > 0 {
        lemma_count_of_absent(s.drop_first(), q);
    }
}

/// Updating one entry's count changes only that key's count.
pub proof fn lemma_count_of_update<V>(s: Seq<(V, usize)>, i: int, c: usize, q: V)
    requires
        keys_distinct(s),
        0 <= i < s.len(),
    ensures
        count_of(s.update(i, (s[i].0, c)), q) == if q == s[i].0 {
            c
        } else {
            count_of(s, q)
        },
    decreases s.len(),
{
    let s2 = s.update(i, (s[i].0, c));
    if i == 0 {
        assert(s2[0] == (s[0].0, c));
        if q != s[0].0 {
            assert(s2.drop_first() =~= s.drop_first());
        }
    } else {
        assert(s2[0] == s[0]);
        assert(s2.drop_first() =~= s.drop_first().update(i - 1, (s.drop_first()[i - 1].0, c)));
        assert(keys_distinct(s.drop_first()));
        lemma_count_of_update(s.drop_first(), i - 1, c, q);
        if q == s[i].0 {
            assert(s[0].0 != s[i].0);
        }
    }
}

/// Appending a fresh key changes only that key's count.
pub proof fn lemma_count_of_push<V>(s: Seq<(V, usize)>, k: V, c: usize, q: V)
    requires
        forall|i: int| 0 <= i < s.len() ==> s[i].0 != k,
    ensures
        count_of(s.push((k, c)), q) == if q == k {
            c
        } else {
            count_of(s, q)
        },
    decreases s.len(),
{
    if s.len() == 0 {
        assert(s.push((k, c))[0] == (k, c));
        assert(s.push((k, c)).drop_first() =~= s);
    } else {
        assert(s.push((k, c))[0] == s[0]);
        assert(s.push((k, c)).drop_first() =~= s.drop_first().push((k, c)));
        lemma_count_of_push(s.drop_first(), k, c, q);
    }
}

/// A key with a positive count is present.
pub proof fn lemma_count_pos_present<V>(s: Seq<(V, usize)>, q: V)
    requires
        count_of(s, q) > 0,
    ensures
        exists|idx: int| 0 <= idx < s.len() && (#[trigger] s[idx]).0 == q,
    decreases s.len(),
{
    if s.len() > 0 {
        if s[0].0 == q {
        } else {
            lemma_count_pos_present(s.drop_first(), q);
            let idx = choose|idx: int|
                0 <= idx < s.drop_first().len() && (#[trigger] s.drop_first()[idx]).0 == q;
            assert(s[idx + 1].0 == q);
        }
    }
}

/// A frequency counter over keys of type `T`.
pub struct Counter<T: Key> {
    entries: Vec<(T, usize)>,
}

impl<T: Key> Counter<T> {
    /// The (key view, count) entries, in first-insertion order.
    pub closed spec fn entries_view(&self) -> Seq<(T::V, usize)> {
        self.entries@.map_values(|e: (T, usize)| (e.0@, e.1))
    }

    pub open spec fn wf(&self) -> bool {
        keys_distinct(self.entries_view())
    }

    pub fn new() -> (r: Self)
        ensures
            r.entries_view() == Seq::<(T::V, usize)>::empty(),
            r.wf(),
    {
        let r = Counter { entries: Vec::new() };
        proof {
            assert(r.entries_view() =~= Seq::<(T::V, usize)>::empty());
        }
        r
    }

    /// Add `inc` to the count of `x`, creating the entry at 0 if absent.
    /// Ties of key order are untouched: an existing entry keeps its place,
    /// a new key goes to the end.
    pub fn increment(&mut self, x: T, inc: usize)
        requires
            old(self).wf(),
        ensures
            final(self).wf(),
            forall|q: T::V|
                count_of(final(self).entries_view(), q) == (if q == x@ {
                    sat_add(count_of(old(self).entries_view(), q), inc)
                } else {
                    count_of(old(self).entries_view(), q)
                }),
            forall|idx: int|
                0 <= idx < final(self).entries_view().len() ==> ((idx < old(
                    self,
                ).entries_view().len() && (#[trigger] final(self).entries_view()[idx]).0 == old(
                    self,
                ).entries_view()[idx].0) || final(self).entries_view()[idx].0 == x@),
            old(self).entries_view().len() <= final(self).entries_view().len() <= old(
                self,
            ).entries_view().len() + 1,
    {
        let ghost s = self.entries_view();
        let n = self.entries.len();
        let mut k: usize = 0;
        while k < n
            invariant
                k <= n,
                n == self.entries.len(),
                self.entries@ == old(self).entries@,
                s == self.entries_view(),
                keys_distinct(s),
                forall|j: int| 0 <= j < k ==> s[j].0 != x@,
            decreases n - k,
        {
            if self.entries[k].0.key_eq(&x) {
                let c = self.entries[k].1;
                let nc = if c > usize::MAX - inc {
                    usize::MAX
                } else {
                    c + inc
                };
                let (k0, _) = self.entries.remove(k);
                self.entries.insert(k, (k0, nc));
                proof {
                    assert(s[k as int].0 == x@);
                    assert(final(self).entries_view() =~= s.update(
                        k as int,
                        (x@, sat_add(s[k as int].1, inc)),
                    ));
                    let s2 = final(self).entries_view();
                    assert forall|q: T::V|
                        count_of(s2, q) == (if q == x@ {
                            sat_add(count_of(s, q), inc)
                        } else {
                            count_of(s, q)
                        }) by {
                        lemma_count_of_at(s, k as int);
                        lemma_count_of_update(s, k as int, sat_add(s[k as int].1, inc), q);
                    }
                }
                return ;
            }
            k = k + 1;
        }
        self.entries.push((x, inc));
        proof {
            assert(forall|i: int| 0 <= i < s.len() ==> s[i].0 != x@);
            assert(final(self).entries_view() =~= s.push((x@, inc)));
            let s2 = final(self).entries_view();
            assert forall|q: T::V|
                count_of(s2, q) == (if q == x@ {
                    sat_add(count_of(s, q), inc)
                } else {
                    count_of(s, q)
                }) by {
                lemma_count_of_absent(s, x@);
                lemma_count_of_push(s, x@, inc, q);
            }
        }
    }

    /// Count one occurrence of `x`.
    pub fn insert(&mut self, x: T)
        requires
            old(self).wf(),
        ensures
            final(self).wf(),
            forall|q: T::V|
                count_of(final(self).entries_view(), q) == (if q == x@ {
                    sat_add(count_of(old(self).entries_view(), q), 1)
                } else {
                    count_of(old(self).entries_view(), q)
                }),
            forall|idx: int|
                0 <= idx < final(self).entries_view().len() ==> ((idx < old(
                    self,
                ).entries_view().len() && (#[trigger] final(self).entries_view()[idx]).0 == old(
                    self,
                ).entries_view()[idx].0) || final(self).entries_view()[idx].0 == x@),
            old(self).entries_view().len() <= final(self).entries_view().len() <= old(
                self,
            ).entries_view().len() + 1,
    {
        self.increment(x, 1);
    }

    /// The key with the highest count, or `None` when the counter is empty.
    /// Among equal maxima the key that first entered the counter wins; this
    /// fixed tie-break stands in for reference behavior that is unspecified.
    pub fn most_common(&self) -> (r: Option<&T>)
        ensures
            (match r {
                None => self.entries_view().len() == 0,
                Some(k) => exists|i: int|
                    #[trigger] is_first_max(self.entries_view(), i) && k@
                        == self.entries_view()[i].0,
            }),
    {
        let ghost s = self.entries_view();
        let n = self.entries.len();
        if n == 0 {
            return None;
        }
        let mut best: usize = 0;
        let mut k: usize = 1;
        while k < n
            invariant
                0 <= best < k <= n,
                n == self.entries.len(),
                s == self.entries_view(),
                forall|j: int| 0 <= j < k ==> s[j].1 <= s[best as int].1,
                forall|j: int| 0 <= j < best ==> s[j].1 < s[best as int].1,
            decreases n - k,
        {
            let ck = self.entries[k].1;
            let cb = self.entries[best].1;
            if ck > cb {
                best = k;
            }
            k = k + 1;
        }
        proof {
            assert(is_first_max(s, best as int));
        }
        Some(&self.entries[best].0)
    }

    /// All keys, in first-insertion order.
    pub fn keys(&self) -> (r: Vec<T>)
        ensures
            r@.map_values(|t: T| t@) == self.entries_view().map_values(
                |e: (T::V, usize)| e.0,
            ),
    {
        let ghost s = self.entries_view();
        let mut r: Vec<T> = Vec::new();
        let mut k: usize = 0;
        let n = self.entries.len();
        while k < n
            invariant
                k <= n,
                n == self.entries.len(),
                s == self.entries_view(),
                r@.len() == k,
                forall|j: int| 0 <= j < k ==> r@[j]@ == s[j].0,
            decreases n - k,
        {
            let t = self.entries[k].0.key_clone();
            proof {
                assert(s[k as int] == (self.entries@[k as int].0@, self.entries@[k as int].1));
            }
            r.push(t);
            k = k + 1;
        }
        proof {
            assert(r@.map_values(|x: T| x@) =~= s.map_values(|e: (T::V, usize)| e.0));
        }
        r
    }

    /// The (key, count) entries, in first-insertion order.
    pub fn iter(&self) -> (r: &Vec<(T, usize)>)
        ensures
            r@.len() == self.entries_view().len(),
            forall|i: int|
                0 <= i < r@.len() ==> (#[trigger] r@[i]).0@ == self.entries_view()[i].0 && r@[i].1
                    == self.entries_view()[i].1,
    {
        proof {
            assert forall|i: int| 0 <= i < self.entries@.len() implies (#[trigger] self.entries@[i]).0@
                == self.entries_view()[i].0 && self.entries@[i].1 == self.entries_view()[i].1 by {
                assert(self.entries_view()[i] == (self.entries@[i].0@, self.entries@[i].1));
            }
        }
        &self.entries
    }
}

impl<T: Key> Default for Counter<T> {
    /// An empty counter.
    fn default() -> (r: Self)
        ensures
            r.entries_view() == Seq::<(T::V, usize)>::empty(),
            r.wf(),
    {
        Counter::new()
    }
}

} // verus!
