use vstd::prelude::*;

verus! {

/// A key type for the frequency table: equality of keys is decided
/// in agreement with their mathematical values.
pub trait EqKey: View + Sized {
    fn eq_key(&self, other: &Self) -> (r: bool)
        ensures
            r == (self.view() == other.view()),
    ;
}

impl EqKey for String {
    fn eq_key(&self, other: &Self) -> (r: bool) {
        self.eq(other)
    }
}

impl EqKey for u16 {
    fn eq_key(&self, other: &Self) -> (r: bool) {
        *self == *other
    }
}

/// A key type with a total order, for reports listed in natural key
/// order.
pub trait OrdKey: EqKey {
    spec fn le_key_spec(a: Self::V, b: Self::V) -> bool;

    proof fn lemma_le_key_total(a: Self::V, b: Self::V)
        ensures
            Self::le_key_spec(a, b) || Self::le_key_spec(b, a),
    ;

    proof fn lemma_le_key_trans(a: Self::V, b: Self::V, c: Self::V)
        requires
            Self::le_key_spec(a, b),
            Self::le_key_spec(b, c),
        ensures
            Self::le_key_spec(a, c),
    ;

    fn le_key(&self, other: &Self) -> (r: bool)
        ensures
            r == Self::le_key_spec(self.view(), other.view()),
    ;
}

impl OrdKey for u16 {
    open spec fn le_key_spec(a: u16, b: u16) -> bool {
        a <= b
    }

    proof fn lemma_le_key_total(a: u16, b: u16) {
    }

    proof fn lemma_le_key_trans(a: u16, b: u16, c: u16) {
    }

    fn le_key(&self, other: &Self) -> (r: bool) {
        *self <= *other
    }
}

/// The sum of the counts of a list of key/count pairs.
pub open spec fn counts_sum<T>(s: Seq<(T, usize)>) -> int
    decreases s.len(),
{
    if s.len() == 0 {
        0
    } else {
        counts_sum(s.drop_last()) + s.last().1
    }
}

/// Whether some pair of `s` carries the key value `p`.
pub open spec fn has_key<T: View>(s: Seq<(T, usize)>, p: T::V) -> bool {
    exists|a: int| 0 <= a < s.len() && (#[trigger] s[a]).0.view() == p
}

/// The pairs of `s` read as a count map, later entries overriding
/// earlier ones.
pub open spec fn entries_map<T: View>(s: Seq<(T, usize)>) -> Map<T::V, nat>
    decreases s.len(),
{
    if s.len() == 0 {
        Map::empty()
    } else {
        entries_map(s.drop_last()).insert(s.last().0.view(), s.last().1 as nat)
    }
}

/// Pairwise-distinct key values.
pub open spec fn distinct_keys<T: View>(s: Seq<(T, usize)>) -> bool {
    forall|a: int, b: int|
        0 <= a < b < s.len() ==> (#[trigger] s[a]).0.view() != (#[trigger] s[b]).0.view()
}

/// On a duplicate-free pair list, the count map holds exactly the
/// listed keys with the listed counts, one map entry per pair.
pub proof fn lemma_entries_map_props<T: View>(s: Seq<(T, usize)>)
    requires
        distinct_keys(s),
    ensures
        forall|p: <T as View>::V| #[trigger] entries_map(s).contains_key(p) <==> has_key(s, p),
        forall|a: int|
            0 <= a < s.len() ==> entries_map(s).contains_key((#[trigger] s[a]).0.view())
                && entries_map(s)[s[a].0.view()] == s[a].1 as nat,
        entries_map(s).dom().len() == s.len(),
        entries_map(s).dom().finite(),
    decreases s.len(),
{
    if s.len() > 0 {
        let rest = s.drop_last();
        let lastk = s.last().0.view();
        assert(distinct_keys(rest)) by {
            assert(forall|a: int| 0 <= a < rest.len() ==> rest[a] == s[a]);
        }
        lemma_entries_map_props(rest);
        assert(!has_key(rest, lastk)) by {
            if has_key(rest, lastk) {
                let a = choose|a: int| 0 <= a < rest.len() && (#[trigger] rest[a]).0.view() == lastk;
                assert(s[a].0.view() == lastk);
                assert(s[a].0.view() != s[s.len() - 1].0.view());
            }
        }
        assert(!entries_map(rest).contains_key(lastk));
        assert(entries_map(s).dom() =~= entries_map(rest).dom().insert(lastk));
        assert forall|p: <T as View>::V| #[trigger]
            entries_map(s).contains_key(p) implies has_key(s, p) by {
            if p == lastk {
                assert((s[s.len() - 1]).0.view() == p);
            } else {
                assert(entries_map(rest).contains_key(p));
                let a = choose|a: int| 0 <= a < rest.len() && (#[trigger] rest[a]).0.view() == p;
                assert((s[a]).0.view() == p);
            }
        }
        assert forall|p: <T as View>::V| has_key(s, p) implies #[trigger]
            entries_map(s).contains_key(p) by {
            let a = choose|a: int| 0 <= a < s.len() && (#[trigger] s[a]).0.view() == p;
            if a < s.len() - 1 {
                assert((rest[a]).0.view() == p);
                assert(has_key(rest, p));
            }
        }
        assert forall|a: int|
            0 <= a < s.len() implies entries_map(s).contains_key((#[trigger] s[a]).0.view())
            && entries_map(s)[s[a].0.view()] == s[a].1 as nat by {
            if a < s.len() - 1 {
                assert(rest[a] == s[a]);
                assert(entries_map(rest)[s[a].0.view()] == s[a].1 as nat);
                assert(s[a].0.view() != lastk);
            }
        }
    }
}

/// Every count is bounded by the sum of all counts.
pub proof fn lemma_count_le_sum<T>(s: Seq<(T, usize)>, j: int)
    requires
        0 <= j < s.len(),
    ensures
        s[j].1 <= counts_sum(s),
        counts_sum(s) >= 0,
    decreases s.len(),
{
    lemma_counts_sum_nonneg(s.drop_last());
    if j < s.len() - 1 {
        lemma_count_le_sum(s.drop_last(), j);
        assert(s.drop_last()[j] == s[j]);
    }
}

pub proof fn lemma_counts_sum_nonneg<T>(s: Seq<(T, usize)>)
    ensures
        counts_sum(s) >= 0,
    decreases s.len(),
{
    if s.len() > 0 {
        lemma_counts_sum_nonneg(s.drop_last());
    }
}

/// Removing one pair takes exactly its count out of the sum.
pub proof fn lemma_counts_sum_remove<T>(s: Seq<(T, usize)>, j: int)
    requires
        0 <= j < s.len(),
    ensures
        counts_sum(s.remove(j)) == counts_sum(s) - s[j].1,
    decreases s.len(),
{
    if j == s.len() - 1 {
        assert(s.remove(j) =~= s.drop_last());
    } else {
        let rest = s.drop_last();
        lemma_counts_sum_remove(rest, j);
        assert(s.remove(j).drop_last() =~= rest.remove(j));
        assert(s.remove(j).last() == s.last());
    }
}

/// Updating one pair shifts the sum by the difference of the counts.
pub proof fn lemma_counts_sum_update<T>(s: Seq<(T, usize)>, j: int, pair: (T, usize))
    requires
        0 <= j < s.len(),
    ensures
        counts_sum(s.update(j, pair)) == counts_sum(s) - s[j].1 + pair.1,
    decreases s.len(),
{
    if j == s.len() - 1 {
        assert(s.update(j, pair).drop_last() =~= s.drop_last());
        assert(s.update(j, pair).last() == pair);
    } else {
        lemma_counts_sum_update(s.drop_last(), j, pair);
        assert(s.update(j, pair).drop_last() =~= s.drop_last().update(j, pair));
        assert(s.update(j, pair).last() == s.last());
    }
}

/// An increment-only frequency table: counts how often each key was
/// seen.  The view is the map from key value to its count.
pub struct FreqMap<T> {
    entries: Vec<(T, usize)>,
    total: usize,
}

impl<T: View> View for FreqMap<T> {
    type V = Map<<T as View>::V, nat>;

    closed spec fn view(&self) -> Map<<T as View>::V, nat> {
        entries_map(self.entries@)
    }
}

impl<T: View> FreqMap<T> {
    /// Internal shape: duplicate-free keys, positive counts, and the
    /// cached total equal to the sum of all counts.
    pub closed spec fn wf(self) -> bool {
        &&& distinct_keys(self.entries@)
        &&& forall|a: int| 0 <= a < self.entries@.len() ==> (#[trigger] self.entries@[a]).1 >= 1
        &&& self.total as int == counts_sum(self.entries@)
    }

    /// The number of increments this table has seen.
    pub closed spec fn spec_total(self) -> int {
        self.total as int
    }
}

impl<T: EqKey> FreqMap<T> {
    /// An empty table: no keys, zero total.
    pub fn new() -> (r: Self)
        ensures
            r.wf(),
            r@ == Map::<<T as View>::V, nat>::empty(),
            r.spec_total() == 0,
    {
        let r = FreqMap { entries: Vec::new(), total: 0 };
        proof {
            assert(r.entries@.len() == 0);
        }
        r
    }

    /// Counts one more occurrence of `key`: its count rises by one
    /// (from zero if it is new), the total rises by one, and no other
    /// key changes.
    pub fn inc(&mut self, key: T)
        requires
            old(self).wf(),
            old(self).spec_total() < usize::MAX,
        ensures
            final(self).wf(),
            final(self).spec_total() == old(self).spec_total() + 1,
            final(self)@ == old(self)@.insert(
                key@,
                if old(self)@.contains_key(key@) {
                    (old(self)@[key@] + 1) as nat
                } else {
                    1nat
                },
            ),
    {
        let ghost s0 = self.entries@;
        proof {
            lemma_entries_map_props(s0);
        }
        let n = self.entries.len();
        let mut j: usize = 0;
        while j < n
            invariant
                j <= n,
                n == self.entries@.len(),
                self.entries@ == s0,
                s0 == old(self).entries@,
                self.total == old(self).total,
                distinct_keys(s0),
                forall|a: int| 0 <= a < s0.len() ==> (#[trigger] s0[a]).1 >= 1,
                self.total as int == counts_sum(s0),
                self.total < usize::MAX,
                forall|k: int| 0 <= k < j ==> (#[trigger] s0[k]).0.view() != key@,
            decreases n - j,
        {
            if self.entries[j].0.eq_key(&key) {
                proof {
                    lemma_entries_map_props(s0);
                    assert(s0[j as int].0.view() == key@);
                    assert(has_key(s0, key@));
                    assert(self@.contains_key(key@));
                    assert(self@[key@] == s0[j as int].1 as nat);
                    lemma_count_le_sum(s0, j as int);
                }
                let pair = self.entries.remove(j);
                let count = pair.1;
                self.entries.insert(j, (pair.0, count + 1));
                self.total = self.total + 1;
                proof {
                    assert(self.entries@ =~= s0.update(j as int, (pair.0, (count + 1) as usize)));
                    let s1 = self.entries@;
                    lemma_counts_sum_update(s0, j as int, (pair.0, (count + 1) as usize));
                    assert forall|a: int|
                        0 <= a < s1.len() implies (#[trigger] s1[a]).0.view() == s0[a].0.view() by {}
                    assert(distinct_keys(s1)) by {
                        assert forall|a: int, b: int|
                            0 <= a < b < s1.len() implies (#[trigger] s1[a]).0.view() != (
                        #[trigger] s1[b]).0.view() by {
                            assert(s1[a].0.view() == s0[a].0.view());
                            assert(s1[b].0.view() == s0[b].0.view());
                        }
                    }
                    lemma_entries_map_props(s1);
                    let m1 = entries_map(s0).insert(key@, (s0[j as int].1 + 1) as nat);
                    assert forall|p: <T as View>::V| true implies #[trigger] entries_map(
                        s1,
                    ).contains_key(p) == m1.contains_key(p) by {
                        assert(entries_map(s1).contains_key(p) == has_key(s1, p));
                        assert(entries_map(s0).contains_key(p) == has_key(s0, p));
                        if has_key(s1, p) {
                            let a = choose|a: int|
                                0 <= a < s1.len() && (#[trigger] s1[a]).0.view() == p;
                            assert(s0[a].0.view() == p);
                        }
                        if has_key(s0, p) {
                            let a = choose|a: int|
                                0 <= a < s0.len() && (#[trigger] s0[a]).0.view() == p;
                            assert(s1[a].0.view() == p);
                        }
                        if p == key@ {
                            assert(s1[j as int].0.view() == p);
                        }
                    }
                    assert forall|p: <T as View>::V| #[trigger]
                        entries_map(s1).contains_key(p) implies entries_map(s1)[p] == m1[p] by {
                        if p == key@ {
                            assert(s1[j as int].0.view() == key@);
                            assert(entries_map(s1)[key@] == s1[j as int].1 as nat);
                        } else {
                            assert(entries_map(s1).contains_key(p) == has_key(s1, p));
                            assert(entries_map(s0).contains_key(p) == has_key(s0, p));
                            let a = choose|a: int|
                                0 <= a < s1.len() && (#[trigger] s1[a]).0.view() == p;
                            assert(a != j);
                            assert(s0[a] == s1[a]);
                            assert(entries_map(s1)[p] == s1[a].1 as nat);
                            assert(entries_map(s0)[p] == s0[a].1 as nat);
                        }
                    }
                    assert(entries_map(s1) =~= m1);
                }
                return ;
            }
            j += 1;
        }
        proof {
            assert(!has_key(s0, key@)) by {
                if has_key(s0, key@) {
                    let a = choose|a: int| 0 <= a < s0.len() && (#[trigger] s0[a]).0.view() == key@;
                }
            }
            assert(!self@.contains_key(key@));
        }
        self.entries.push((key, 1));
        self.total = self.total + 1;
        proof {
            let s1 = self.entries@;
            assert(s1.drop_last() =~= s0);
            assert(s1.last() == (key, 1usize));
            assert(entries_map(s1) == entries_map(s0).insert(key@, 1nat));
            assert(distinct_keys(s1)) by {
                assert forall|a: int, b: int|
                    0 <= a < b < s1.len() implies (#[trigger] s1[a]).0.view() != (
                #[trigger] s1[b]).0.view() by {
                    if b == s1.len() - 1 {
                        if s1[a].0.view() == key@ {
                            assert(s0[a].0.view() == key@);
                            assert(has_key(s0, key@));
                        }
                    } else {
                        assert(s0[a] == s1[a]);
                        assert(s0[b] == s1[b]);
                    }
                }
            }
        }
    }

    /// The number of increments seen so far.
    pub fn total(&self) -> (r: usize)
        requires
            self.wf(),
        ensures
            r as int == self.spec_total(),
    {
        self.total
    }

    /// The pairs of the table, sorted by descending count; equal
    /// counts stand in no particular order.  Every key of the table
    /// appears exactly once with its exact count, and the counts sum
    /// to the total.
    pub fn sorted_by_freq(self) -> (res: Vec<(T, usize)>)
        requires
            self.wf(),
        ensures
            forall|a: int, b: int|
                0 <= a <= b < res@.len() ==> (#[trigger] res@[a]).1 >= (#[trigger] res@[b]).1,
            forall|a: int|
                0 <= a < res@.len() ==> self@.contains_key((#[trigger] res@[a]).0.view())
                    && self@[res@[a].0.view()] == res@[a].1 as nat,
            distinct_keys(res@),
            forall|p: <T as View>::V| #[trigger] self@.contains_key(p) ==> has_key(res@, p),
            counts_sum(res@) == self.spec_total(),
            res@.len() == self@.dom().len(),
    {
        proof {
            lemma_entries_map_props(self.entries@);
        }
        let ghost m = self@;
        let ghost tot = self.spec_total();
        let FreqMap { entries: mut work, total: _ } = self;
        let mut out: Vec<(T, usize)> = Vec::new();
        proof {
            assert(out@.len() == 0);
            assert(counts_sum(out@) == 0);
        }
        while work.len() > 0
            invariant
                forall|a: int|
                    0 <= a < out@.len() ==> m.contains_key((#[trigger] out@[a]).0.view())
                        && m[out@[a].0.view()] == out@[a].1 as nat,
                forall|a: int|
                    0 <= a < work@.len() ==> m.contains_key((#[trigger] work@[a]).0.view())
                        && m[work@[a].0.view()] == work@[a].1 as nat,
                distinct_keys(out@),
                distinct_keys(work@),
                forall|a: int, b: int|
                    0 <= a < out@.len() && 0 <= b < work@.len() ==> (#[trigger] out@[a]).0.view()
                        != (#[trigger] work@[b]).0.view(),
                forall|p: <T as View>::V|
                    #[trigger] m.contains_key(p) ==> has_key(out@, p) || has_key(work@, p),
                counts_sum(out@) + counts_sum(work@) == tot,
                forall|a: int, b: int|
                    0 <= a <= b < out@.len() ==> (#[trigger] out@[a]).1 >= (#[trigger] out@[b]).1,
                forall|b: int|
                    0 <= b < work@.len() && out@.len() > 0 ==> (#[trigger] work@[b]).1
                        <= out@.last().1,
                out@.len() + work@.len() == m.dom().len(),
            decreases work.len(),
        {
            let mut best: usize = 0;
            let mut j: usize = 1;
            while j < work.len()
                invariant
                    best < j <= work@.len() || (j <= work@.len() && best == 0),
                    best < work@.len(),
                    forall|kk: int| 0 <= kk < j ==> (#[trigger] work@[kk]).1 <= work@[best as int].1,
                decreases work@.len() - j,
            {
                if work[j].1 > work[best].1 {
                    best = j;
                }
                j += 1;
            }
            let ghost w0 = work@;
            let ghost o0 = out@;
            proof {
                assert(forall|kk: int| 0 <= kk < w0.len() ==> (#[trigger] w0[kk]).1
                    <= w0[best as int].1);
            }
            let pair = work.remove(best);
            out.push(pair);
            proof {
                lemma_counts_sum_remove(w0, best as int);
                w0.remove_ensures(best as int);
                assert(out@ =~= o0.push(pair));
                assert(pair == w0[best as int]);
                assert(out@.drop_last() =~= o0);
                assert(out@.last() == pair);
                assert(counts_sum(out@) == counts_sum(o0) + pair.1);
                assert forall|p: <T as View>::V| #[trigger]
                    m.contains_key(p) implies has_key(out@, p) || has_key(work@, p) by {
                    if has_key(o0, p) {
                        let a = choose|a: int| 0 <= a < o0.len() && (#[trigger] o0[a]).0.view() == p;
                        assert(out@[a].0.view() == p);
                    } else {
                        assert(has_key(w0, p));
                        let a = choose|a: int| 0 <= a < w0.len() && (#[trigger] w0[a]).0.view() == p;
                        if a == best {
                            assert(out@[o0.len() as int].0.view() == p);
                        } else if a < best {
                            assert(work@[a].0.view() == p);
                        } else {
                            assert(work@[a - 1].0.view() == p);
                        }
                    }
                }
                assert forall|a: int|
                    0 <= a < work@.len() implies m.contains_key((#[trigger] work@[a]).0.view())
                    && m[work@[a].0.view()] == work@[a].1 as nat by {
                    if a < best {
                        assert(work@[a] == w0[a]);
                    } else {
                        assert(work@[a] == w0[a + 1]);
                    }
                }
                assert(distinct_keys(work@)) by {
                    assert forall|a: int, b: int|
                        0 <= a < b < work@.len() implies (#[trigger] work@[a]).0.view() != (
                    #[trigger] work@[b]).0.view() by {
                        let a0 = if a < best { a } else { a + 1 };
                        let b0 = if b < best { b } else { b + 1 };
                        assert(work@[a] == w0[a0]);
                        assert(work@[b] == w0[b0]);
                    }
                }
                assert(distinct_keys(out@)) by {
                    assert forall|a: int, b: int|
                        0 <= a < b < out@.len() implies (#[trigger] out@[a]).0.view() != (
                    #[trigger] out@[b]).0.view() by {
                        if b == o0.len() {
                            assert(out@[a] == o0[a]);
                            assert(out@[b] == w0[best as int]);
                        } else {
                            assert(out@[a] == o0[a]);
                            assert(out@[b] == o0[b]);
                        }
                    }
                }
                assert forall|a: int, b: int|
                    0 <= a < out@.len() && 0 <= b < work@.len() implies (
                #[trigger] out@[a]).0.view() != (#[trigger] work@[b]).0.view() by {
                    let b0 = if b < best { b } else { b + 1 };
                    assert(work@[b] == w0[b0]);
                    if a == o0.len() {
                        assert(out@[a] == w0[best as int]);
                    } else {
                        assert(out@[a] == o0[a]);
                    }
                }
                assert forall|a: int, b: int|
                    0 <= a <= b < out@.len() implies (#[trigger] out@[a]).1 >= (
                #[trigger] out@[b]).1 by {
                    if b == o0.len() {
                        if a < o0.len() {
                            assert(out@[b] == w0[best as int]);
                            assert(w0[best as int].1 <= o0.last().1);
                            assert(out@[a] == o0[a]);
                            assert(o0[a].1 >= o0[o0.len() - 1].1);
                        }
                    } else {
                        assert(out@[a] == o0[a]);
                        assert(out@[b] == o0[b]);
                    }
                }
                assert forall|b: int|
                    0 <= b < work@.len() && out@.len() > 0 implies (#[trigger] work@[b]).1
                    <= out@.last().1 by {
                    let b0 = if b < best { b } else { b + 1 };
                    assert(work@[b] == w0[b0]);
                    assert(out@.last() == w0[best as int]);
                }
            }
        }
        proof {
            assert(counts_sum(work@) == 0);
            assert forall|p: <T as View>::V| #[trigger]
                m.contains_key(p) implies has_key(out@, p) by {
                if has_key(work@, p) {
                    let a = choose|a: int|
                        0 <= a < work@.len() && (#[trigger] work@[a]).0.view() == p;
                }
            }
        }
        out
    }

    /// The number of distinct keys seen so far.
    pub fn len(&self) -> (r: usize)
        requires
            self.wf(),
        ensures
            r as int == self@.dom().len(),
    {
        proof {
            lemma_entries_map_props(self.entries@);
        }
        self.entries.len()
    }
}

impl<T: OrdKey> FreqMap<T> {
    /// The pairs of the table, sorted by ascending key order.  Every
    /// key of the table appears exactly once with its exact count,
    /// and the counts sum to the total.
    pub fn sorted_by_key(self) -> (res: Vec<(T, usize)>)
        requires
            self.wf(),
        ensures
            forall|a: int, b: int|
                0 <= a <= b < res@.len() ==> T::le_key_spec(
                    (#[trigger] res@[a]).0.view(),
                    (#[trigger] res@[b]).0.view(),
                ),
            forall|a: int|
                0 <= a < res@.len() ==> self@.contains_key((#[trigger] res@[a]).0.view())
                    && self@[res@[a].0.view()] == res@[a].1 as nat,
            distinct_keys(res@),
            forall|p: <T as View>::V| #[trigger] self@.contains_key(p) ==> has_key(res@, p),
            counts_sum(res@) == self.spec_total(),
            res@.len() == self@.dom().len(),
    {
        proof {
            lemma_entries_map_props(self.entries@);
        }
        let ghost m = self@;
        let ghost tot = self.spec_total();
        let FreqMap { entries: mut work, total: _ } = self;
        let mut out: Vec<(T, usize)> = Vec::new();
        while work.len() > 0
            invariant
                forall|a: int|
                    0 <= a < out@.len() ==> m.contains_key((#[trigger] out@[a]).0.view())
                        && m[out@[a].0.view()] == out@[a].1 as nat,
                forall|a: int|
                    0 <= a < work@.len() ==> m.contains_key((#[trigger] work@[a]).0.view())
                        && m[work@[a].0.view()] == work@[a].1 as nat,
                distinct_keys(out@),
                distinct_keys(work@),
                forall|a: int, b: int|
                    0 <= a < out@.len() && 0 <= b < work@.len() ==> (#[trigger] out@[a]).0.view()
                        != (#[trigger] work@[b]).0.view(),
                forall|p: <T as View>::V|
                    #[trigger] m.contains_key(p) ==> has_key(out@, p) || has_key(work@, p),
                counts_sum(out@) + counts_sum(work@) == tot,
                forall|a: int, b: int|
                    0 <= a <= b < out@.len() ==> T::le_key_spec(
                        (#[trigger] out@[a]).0.view(),
                        (#[trigger] out@[b]).0.view(),
                    ),
                forall|b: int|
                    0 <= b < work@.len() && out@.len() > 0 ==> T::le_key_spec(
                        out@.last().0.view(),
                        (#[trigger] work@[b]).0.view(),
                    ),
                out@.len() + work@.len() == m.dom().len(),
            decreases work.len(),
        {
            let mut best: usize = 0;
            let mut j: usize = 1;
            proof {
                T::lemma_le_key_total(work@[0].0.view(), work@[0].0.view());
            }
            while j < work.len()
                invariant
                    best < work@.len(),
                    j <= work@.len(),
                    forall|kk: int|
                        0 <= kk < j ==> T::le_key_spec(
                            work@[best as int].0.view(),
                            (#[trigger] work@[kk]).0.view(),
                        ),
                decreases work@.len() - j,
            {
                let ghost bold = best as int;
                let le_res = work[j].0.le_key(&work[best].0);
                if le_res {
                    best = j;
                }
                proof {
                    assert forall|kk: int|
                        0 <= kk < j + 1 implies T::le_key_spec(
                        work@[best as int].0.view(),
                        (#[trigger] work@[kk]).0.view(),
                    ) by {
                        if le_res {
                            if kk < j {
                                T::lemma_le_key_trans(
                                    work@[j as int].0.view(),
                                    work@[bold].0.view(),
                                    work@[kk].0.view(),
                                );
                            } else {
                                T::lemma_le_key_total(
                                    work@[j as int].0.view(),
                                    work@[j as int].0.view(),
                                );
                            }
                        } else {
                            if kk == j {
                                T::lemma_le_key_total(
                                    work@[j as int].0.view(),
                                    work@[bold].0.view(),
                                );
                            }
                        }
                    }
                }
                j += 1;
            }
            let ghost w0 = work@;
            let ghost o0 = out@;
            proof {
                assert(forall|kk: int|
                    0 <= kk < w0.len() ==> T::le_key_spec(
                        w0[best as int].0.view(),
                        (#[trigger] w0[kk]).0.view(),
                    ));
            }
            let pair = work.remove(best);
            out.push(pair);
            proof {
                lemma_counts_sum_remove(w0, best as int);
                w0.remove_ensures(best as int);
                assert(out@ =~= o0.push(pair));
                assert(pair == w0[best as int]);
                assert(out@.drop_last() =~= o0);
                assert(out@.last() == pair);
                assert(counts_sum(out@) == counts_sum(o0) + pair.1);
                assert forall|p: <T as View>::V| #[trigger]
                    m.contains_key(p) implies has_key(out@, p) || has_key(work@, p) by {
                    if has_key(o0, p) {
                        let a = choose|a: int| 0 <= a < o0.len() && (#[trigger] o0[a]).0.view() == p;
                        assert(out@[a].0.view() == p);
                    } else {
                        assert(has_key(w0, p));
                        let a = choose|a: int| 0 <= a < w0.len() && (#[trigger] w0[a]).0.view() == p;
                        if a == best {
                            assert(out@[o0.len() as int].0.view() == p);
                        } else if a < best {
                            assert(work@[a].0.view() == p);
                        } else {
                            assert(work@[a - 1].0.view() == p);
                        }
                    }
                }
                assert forall|a: int|
                    0 <= a < work@.len() implies m.contains_key((#[trigger] work@[a]).0.view())
                    && m[work@[a].0.view()] == work@[a].1 as nat by {
                    if a < best {
                        assert(work@[a] == w0[a]);
                    } else {
                        assert(work@[a] == w0[a + 1]);
                    }
                }
                assert(distinct_keys(work@)) by {
                    assert forall|a: int, b: int|
                        0 <= a < b < work@.len() implies (#[trigger] work@[a]).0.view() != (
                    #[trigger] work@[b]).0.view() by {
                        let a0 = if a < best { a } else { a + 1 };
                        let b0 = if b < best { b } else { b + 1 };
                        assert(work@[a] == w0[a0]);
                        assert(work@[b] == w0[b0]);
                    }
                }
                assert(distinct_keys(out@)) by {
                    assert forall|a: int, b: int|
                        0 <= a < b < out@.len() implies (#[trigger] out@[a]).0.view() != (
                    #[trigger] out@[b]).0.view() by {
                        if b == o0.len() {
                            assert(out@[a] == o0[a]);
                            assert(out@[b] == w0[best as int]);
                        } else {
                            assert(out@[a] == o0[a]);
                            assert(out@[b] == o0[b]);
                        }
                    }
                }
                assert forall|a: int, b: int|
                    0 <= a < out@.len() && 0 <= b < work@.len() implies (
                #[trigger] out@[a]).0.view() != (#[trigger] work@[b]).0.view() by {
                    let b0 = if b < best { b } else { b + 1 };
                    assert(work@[b] == w0[b0]);
                    if a == o0.len() {
                        assert(out@[a] == w0[best as int]);
                    } else {
                        assert(out@[a] == o0[a]);
                    }
                }
                assert forall|a: int, b: int|
                    0 <= a <= b < out@.len() implies T::le_key_spec(
                    (#[trigger] out@[a]).0.view(),
                    (#[trigger] out@[b]).0.view(),
                ) by {
                    if b == o0.len() {
                        assert(out@[b] == w0[best as int]);
                        if a < o0.len() {
                            assert(out@[a] == o0[a]);
                            assert(T::le_key_spec(o0[a].0.view(), o0[o0.len() - 1].0.view()));
                            assert(T::le_key_spec(o0.last().0.view(), w0[best as int].0.view()));
                            T::lemma_le_key_trans(
                                o0[a].0.view(),
                                o0[o0.len() - 1].0.view(),
                                w0[best as int].0.view(),
                            );
                        } else {
                            T::lemma_le_key_total(
                                w0[best as int].0.view(),
                                w0[best as int].0.view(),
                            );
                        }
                    } else {
                        assert(out@[a] == o0[a]);
                        assert(out@[b] == o0[b]);
                    }
                }
                assert forall|b: int|
                    0 <= b < work@.len() && out@.len() > 0 implies T::le_key_spec(
                    out@.last().0.view(),
                    (#[trigger] work@[b]).0.view(),
                ) by {
                    let b0 = if b < best { b } else { b + 1 };
                    assert(work@[b] == w0[b0]);
                    assert(out@.last() == w0[best as int]);
                }
            }
        }
        proof {
            assert(counts_sum(work@) == 0);
            assert forall|p: <T as View>::V| #[trigger]
                m.contains_key(p) implies has_key(out@, p) by {
                if has_key(work@, p) {
                    let a = choose|a: int|
                        0 <= a < work@.len() && (#[trigger] work@[a]).0.view() == p;
                }
            }
        }
        out
    }
}


} // verus!
