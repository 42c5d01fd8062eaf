//! Value frequencies with a tracking limit, and the stable top-ten ranking.
use vstd::prelude::*;

verus! {

/// A value with the number of times it was seen.
#[derive(Clone, Debug)]
pub struct FreqEntry {
    pub value: String,
    pub count: u64,
}

/// The most frequent values of a column, with the number of values tracked.
#[derive(Clone, Debug)]
pub struct CategoricalStats {
    pub top_values: Vec<FreqEntry>,
    pub unique_count: u64,
    pub total_count: u64,
}

/// Value frequencies of a column, tracking at most `max_unique` distinct values: once
/// that many are tracked, new values are dropped, while tracked ones keep counting.
pub struct CategoricalAccumulator {
    values: Vec<String>,
    counts: Vec<u64>,
    total_count: u64,
    max_unique: usize,
}

pub const TOP_K: usize = 10;

/// Whether entry `a` comes before entry `b` in the ranking: a higher count, or the same
/// count and seen first.
pub open spec fn ranks_before(cs: Seq<u64>, a: int, b: int) -> bool {
    cs[a] > cs[b] || (cs[a] == cs[b] && a < b)
}

/// Entries among the first `m` that come before entry `i`.
pub open spec fn rank_upto(cs: Seq<u64>, i: int, m: int) -> nat
    decreases m,
{
    if m <= 0 {
        0
    } else {
        rank_upto(cs, i, m - 1) + if ranks_before(cs, m - 1, i) {
            1nat
        } else {
            0nat
        }
    }
}

/// Position of entry `i` when entries are sorted by count, highest first, ties kept in
/// the order the values were first seen.
pub open spec fn rank(cs: Seq<u64>, i: int) -> nat {
    rank_upto(cs, i, cs.len() as int)
}

proof fn lemma_rank_step(cs: Seq<u64>, a: int, b: int, m: int)
    requires
        0 <= a < cs.len(),
        0 <= b < cs.len(),
        0 <= m <= cs.len(),
        ranks_before(cs, a, b),
    ensures
        rank_upto(cs, b, m) >= rank_upto(cs, a, m) + if a < m {
            1nat
        } else {
            0nat
        },
    decreases m,
{
    if m > 0 {
        lemma_rank_step(cs, a, b, m - 1);
    }
}

/// Distinct entries have distinct ranks.
proof fn lemma_rank_distinct(cs: Seq<u64>, a: int, b: int)
    requires
        0 <= a < cs.len(),
        0 <= b < cs.len(),
        a != b,
    ensures
        rank(cs, a) != rank(cs, b),
{
    if ranks_before(cs, a, b) {
        lemma_rank_step(cs, a, b, cs.len() as int);
    } else {
        lemma_rank_step(cs, b, a, cs.len() as int);
    }
}

impl CategoricalAccumulator {
    /// Tracked values, in the order they were first seen.
    pub closed spec fn spec_values(&self) -> Seq<Seq<char>> {
        self.values.deep_view()
    }

    /// Count of each tracked value.
    pub closed spec fn spec_counts(&self) -> Seq<u64> {
        self.counts@
    }

    /// Values seen, tracked or not.
    pub closed spec fn spec_total(&self) -> u64 {
        self.total_count
    }

    pub closed spec fn spec_max_unique(&self) -> usize {
        self.max_unique
    }

    pub closed spec fn wf(&self) -> bool {
        &&& self.values@.len() == self.counts@.len()
        &&& self.values@.len() <= self.max_unique
        &&& self.values.deep_view().no_duplicates()
        &&& forall|i: int| 0 <= i < self.counts@.len() ==> #[trigger] self.counts@[i] <= self.total_count
    }

    pub fn new(max_unique: usize) -> (r: Self)
        ensures
            r.wf(),
            r.spec_values() == Seq::<Seq<char>>::empty(),
            r.spec_counts() == Seq::<u64>::empty(),
            r.spec_total() == 0,
            r.spec_max_unique() == max_unique,
    {
        let r = CategoricalAccumulator {
            values: Vec::new(),
            counts: Vec::new(),
            total_count: 0,
            max_unique,
        };
        assert(r.values.deep_view() =~= Seq::<Seq<char>>::empty());
        r
    }

    fn find(&self, value: &String) -> (r: Option<usize>)
        requires
            self.wf(),
        ensures
            r matches Some(i) ==> i < self.values@.len() && self.spec_values()[i as int] == value@,
            r is None ==> !self.spec_values().contains(value@),
    {
        let mut i: usize = 0;
        while i < self.values.len()
            invariant
                i <= self.values@.len(),
                forall|k: int| 0 <= k < i ==> self.values.deep_view()[k] != value@,
            decreases self.values@.len() - i,
        {
            if self.values[i] == *value {
                assert(self.values.deep_view()[i as int] == value@);
                return Some(i);
            }
            i = i + 1;
        }
        None
    }

    /// Counts one value.
    pub fn update(&mut self, value: &str)
        requires
            old(self).wf(),
            old(self).spec_total() < u64::MAX,
        ensures
            final(self).wf(),
            final(self).spec_total() == old(self).spec_total() + 1,
            final(self).spec_max_unique() == old(self).spec_max_unique(),
            (final(self).spec_values(), final(self).spec_counts()) == count_step(
                old(self).spec_values(),
                old(self).spec_counts(),
                value@,
                old(self).spec_max_unique() as nat,
            ),
    {
        self.total_count = self.total_count + 1;
        let v = String::from_str(value);
        match self.find(&v) {
            Some(i) => {
                proof {
                    let vs = self.values.deep_view();
                    assert(vs.contains(value@));
                    let j = vs.index_of(value@);
                    assert(vs[j] == value@);
                    assert(j == i);
                }
                let c = self.counts[i];
                self.counts.set(i, c + 1);
            },
            None => {
                if self.values.len() < self.max_unique {
                    let ghost before = self.values.deep_view();
                    self.values.push(v);
                    self.counts.push(1);
                    proof {
                        assert(self.values.deep_view() =~= before.push(value@));
                        assert forall|a: int, b: int|
                            0 <= a < b < self.values.deep_view().len() implies
                            self.values.deep_view()[a] != self.values.deep_view()[b] by {
                            if b == before.len() {
                                assert(before.contains(before[a]));
                            }
                        }
                    }
                }
            },
        }
    }

    /// The up to ten most frequent values, highest count first, ties in the order the
    /// values were first seen; with the number of values tracked and seen.
    pub fn finalize(&self) -> (r: CategoricalStats)
        requires
            self.wf(),
        ensures
            r.unique_count == self.spec_values().len(),
            r.total_count == self.spec_total(),
            r.top_values@.len() == (if self.spec_counts().len() < TOP_K {
                self.spec_counts().len() as int
            } else {
                TOP_K as int
            }),
            forall|i: int|
                0 <= i < self.spec_counts().len() && rank(self.spec_counts(), i)
                    < r.top_values@.len() ==> r.top_values@[rank(self.spec_counts(), i) as int].value@
                    == self.spec_values()[i] && r.top_values@[rank(
                    self.spec_counts(),
                    i,
                ) as int].count == self.spec_counts()[i],
    {
        let n = self.counts.len();
        let k: usize = if n < TOP_K {
            n
        } else {
            TOP_K
        };
        let ghost cs = self.counts@;
        let mut top: Vec<FreqEntry> = Vec::new();
        let mut j: usize = 0;
        while j < k
            invariant
                j <= k,
                top@.len() == j,
            decreases k - j,
        {
            top.push(FreqEntry { value: String::new(), count: 0 });
            j = j + 1;
        }
        let mut i: usize = 0;
        while i < n
            invariant
                self.wf(),
                n == cs.len(),
                cs == self.counts@,
                k <= TOP_K,
                top@.len() == k,
                i <= n,
                forall|p: int|
                    0 <= p < i && rank(cs, p) < k ==> top@[rank(cs, p) as int].value@
                        == self.values.deep_view()[p] && top@[rank(cs, p) as int].count == cs[p],
            decreases n - i,
        {
            let mut r: usize = 0;
            let mut m: usize = 0;
            while m < n
                invariant
                    n == cs.len(),
                    cs == self.counts@,
                    i < n,
                    m <= n,
                    r == rank_upto(cs, i as int, m as int),
                    r <= m,
                decreases n - m,
            {
                if self.counts[m] > self.counts[i] || (self.counts[m] == self.counts[i] && m < i) {
                    r = r + 1;
                }
                m = m + 1;
            }
            if r < k {
                let ghost old_top = top@;
                top.set(r, FreqEntry { value: self.values[i].clone(), count: self.counts[i] });
                proof {
                    assert forall|p: int|
                        0 <= p < i + 1 && rank(cs, p) < k implies top@[rank(cs, p) as int].value@
                        == self.values.deep_view()[p] && top@[rank(cs, p) as int].count
                        == cs[p] by {
                        if p < i {
                            lemma_rank_distinct(cs, p, i as int);
                            assert(top@[rank(cs, p) as int] == old_top[rank(cs, p) as int]);
                        }
                    }
                }
            }
            i = i + 1;
        }
        assert(forall|p: int|
            0 <= p < n && rank(cs, p) < k ==> top@[rank(cs, p) as int].value@
                == self.values.deep_view()[p] && top@[rank(cs, p) as int].count == cs[p]);
        CategoricalStats { top_values: top, unique_count: n as u64, total_count: self.total_count }
    }
}

/// One value counted: a tracked value's count goes up; an untracked one is tracked with
/// count one while there is room, else dropped.
pub open spec fn count_step(vs: Seq<Seq<char>>, cs: Seq<u64>, v: Seq<char>, cap: nat) -> (
    Seq<Seq<char>>,
    Seq<u64>,
) {
    if vs.contains(v) {
        let i = vs.index_of(v);
        (vs, cs.update(i, (cs[i] + 1) as u64))
    } else if vs.len() < cap {
        (vs.push(v), cs.push(1))
    } else {
        (vs, cs)
    }
}

/// Tracked values and their counts after counting `values` in order, from nothing.
pub open spec fn counted(values: Seq<Seq<char>>, cap: nat) -> (Seq<Seq<char>>, Seq<u64>)
    decreases values.len(),
{
    if values.len() == 0 {
        (Seq::empty(), Seq::empty())
    } else {
        let (vs, cs) = counted(values.drop_last(), cap);
        count_step(vs, cs, values.last(), cap)
    }
}

proof fn lemma_counted_exact(values: Seq<Seq<char>>, cap: nat)
    requires
        values.to_set().len() <= cap,
        values.len() < u64::MAX,
    ensures
        ({
            let (vs, cs) = counted(values, cap);
            &&& vs.len() == cs.len()
            &&& vs.no_duplicates()
            &&& vs.to_set() == values.to_set()
            &&& forall|i: int| 0 <= i < vs.len() ==> #[trigger] cs[i] == values.to_multiset().count(vs[i])
            &&& forall|i: int| 0 <= i < cs.len() ==> #[trigger] cs[i] <= values.len()
        }),
    decreases values.len(),
{
    broadcast use vstd::seq_lib::group_seq_properties;
    if values.len() == 0 {
        let (vs, cs) = counted(values, cap);
        assert(vs.to_set() =~= values.to_set());
    } else {
        let p = values.drop_last();
        let v = values.last();
        assert(values == p.push(v));
        p.to_multiset_ensures();
        assert(values.to_set() =~= p.to_set().insert(v));
        vstd::set_lib::lemma_len_subset(p.to_set(), values.to_set());
        lemma_counted_exact(p, cap);
        let (vs, cs) = counted(p, cap);
        let (vs2, cs2) = counted(values, cap);
        assert(values.to_multiset() =~= p.to_multiset().insert(v));
        if vs.contains(v) {
            let i = vs.index_of(v);
            assert(cs[i] == p.to_multiset().count(v));
            assert forall|j: int| 0 <= j < vs2.len() implies #[trigger] cs2[j]
                == values.to_multiset().count(vs2[j]) by {
                if j != i {
                    assert(vs[j] != vs[i]);
                }
            }
            assert(vs2.to_set() =~= values.to_set());
        } else {
            assert(!p.to_set().contains(v));
            vs.unique_seq_to_set();
            assert(vs.len() < cap) by {
                assert(values.to_set().len() == p.to_set().len() + 1);
            }
            vs.to_multiset_ensures();
            assert(vs2 == vs.push(v));
            assert(vs2.to_set() =~= values.to_set());
            assert forall|a: int, b: int| 0 <= a < b < vs2.len() implies vs2[a] != vs2[b] by {
                if b == vs.len() {
                    assert(vs.contains(vs[a]));
                }
            }
            assert forall|j: int| 0 <= j < vs2.len() implies #[trigger] cs2[j]
                == values.to_multiset().count(vs2[j]) by {
                if j < vs.len() {
                    assert(vs[j] != v);
                } else {
                    assert(p.to_multiset().count(v) == 0);
                }
            }
        }
    }
}

/// While the distinct values fit in the tracking limit, counting is blind to order: two
/// orderings of the same values track the same values, each with the same count (its
/// number of occurrences), so the ranking differs at most among equal counts.
pub proof fn lemma_counts_order_free(a: Seq<Seq<char>>, b: Seq<Seq<char>>, cap: nat)
    requires
        a.to_multiset() == b.to_multiset(),
        a.to_set().len() <= cap,
        a.len() < u64::MAX,
    ensures
        counted(a, cap).0.to_set() == counted(b, cap).0.to_set(),
        forall|i: int, j: int|
            0 <= i < counted(a, cap).0.len() && 0 <= j < counted(b, cap).0.len() && counted(
                a,
                cap,
            ).0[i] == counted(b, cap).0[j] ==> counted(a, cap).1[i] == counted(b, cap).1[j],
{
    broadcast use vstd::seq_lib::group_seq_properties;
    a.to_multiset_ensures();
    b.to_multiset_ensures();
    assert(a.to_set() =~= b.to_set()) by {
        assert forall|x: Seq<char>| a.to_set().contains(x) <==> b.to_set().contains(x) by {
            assert(a.contains(x) <==> a.to_multiset().count(x) > 0);
            assert(b.contains(x) <==> b.to_multiset().count(x) > 0);
        }
    }
    lemma_counted_exact(a, cap);
    lemma_counted_exact(b, cap);
}

} // verus!
