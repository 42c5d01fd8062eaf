//! Exact duplicate-row detection.
use vstd::prelude::*;

verus! {

/// Exact duplicate-row detector: remembers each distinct row it has seen.
pub struct DuplicateDetector {
    seen_rows: Vec<Vec<String>>,
    duplicate_count: u64,
    total_rows: u64,
}

/// Whether two rows hold the same cells in the same order.
fn rows_equal(a: &Vec<String>, b: &Vec<String>) -> (r: bool)
    ensures
        r == (a.deep_view() == b.deep_view()),
{
    if a.len() != b.len() {
        assert(a.deep_view().len() != b.deep_view().len());
        return false;
    }
    let mut i: usize = 0;
    while i < a.len()
        invariant
            a@.len() == b@.len(),
            i <= a@.len(),
            forall|k: int| 0 <= k < i ==> a@[k]@ == b@[k]@,
        decreases a@.len() - i,
    {
        if a[i] != b[i] {
            assert(a.deep_view()[i as int] != b.deep_view()[i as int]);
            return false;
        }
        i = i + 1;
    }
    assert(a.deep_view() =~= b.deep_view());
    true
}

impl DuplicateDetector {
    /// The distinct rows seen so far.
    pub closed spec fn seen(&self) -> Set<Seq<Seq<char>>> {
        self.seen_rows.deep_view().to_set()
    }

    pub closed spec fn spec_duplicate_count(&self) -> u64 {
        self.duplicate_count
    }

    pub closed spec fn spec_total_rows(&self) -> u64 {
        self.total_rows
    }

    /// Each row seen once is kept once; every other row was a duplicate.
    pub closed spec fn wf(&self) -> bool {
        &&& self.seen_rows.deep_view().no_duplicates()
        &&& self.duplicate_count + self.seen_rows@.len() == self.total_rows
    }

    pub fn new() -> (r: Self)
        ensures
            r.wf(),
            r.seen() == Set::<Seq<Seq<char>>>::empty(),
            r.spec_total_rows() == 0,
            r.spec_duplicate_count() == 0,
    {
        let r = DuplicateDetector { seen_rows: Vec::new(), duplicate_count: 0, total_rows: 0 };
        assert(r.seen_rows.deep_view() =~= Seq::<Seq<Seq<char>>>::empty());
        r
    }

    fn contains_row(&self, row: &Vec<String>) -> (r: bool)
        ensures
            r == self.seen().contains(row.deep_view()),
    {
        let mut i: usize = 0;
        while i < self.seen_rows.len()
            invariant
                i <= self.seen_rows@.len(),
                forall|k: int| 0 <= k < i ==> self.seen_rows.deep_view()[k] != row.deep_view(),
            decreases self.seen_rows@.len() - i,
        {
            if rows_equal(&self.seen_rows[i], row) {
                assert(self.seen_rows.deep_view()[i as int] == row.deep_view());
                return true;
            }
            i = i + 1;
        }
        assert(!self.seen_rows.deep_view().contains(row.deep_view()));
        false
    }

    /// Counts the rows of a batch; a row equal to one seen before is a duplicate.
    pub fn process_batch(&mut self, rows: &[Vec<String>])
        requires
            old(self).wf(),
            old(self).spec_total_rows() + rows@.len() <= u64::MAX,
        ensures
            final(self).wf(),
            final(self).seen() == old(self).seen() + rows@.map_values(
                |r: Vec<String>| r.deep_view(),
            ).to_set(),
            final(self).spec_total_rows() == old(self).spec_total_rows() + rows@.len(),
            final(self).spec_duplicate_count() + final(self).seen().len()
                == final(self).spec_total_rows(),
    {
        let ghost rows_view = rows@.map_values(|r: Vec<String>| r.deep_view());
        let mut i: usize = 0;
        while i < rows.len()
            invariant
                self.wf(),
                i <= rows@.len(),
                rows_view == rows@.map_values(|r: Vec<String>| r.deep_view()),
                self.total_rows == old(self).total_rows + i,
                old(self).spec_total_rows() + rows@.len() <= u64::MAX,
                self.seen() == old(self).seen() + rows_view.subrange(0, i as int).to_set(),
            decreases rows@.len() - i,
        {
            let row = &rows[i];
            proof {
                assert(rows_view.subrange(0, i + 1) == rows_view.subrange(0, i as int).push(
                    row.deep_view(),
                ));
                rows_view.subrange(0, i as int).lemma_push_to_set_commute(row.deep_view());
            }
            if self.contains_row(row) {
                self.duplicate_count = self.duplicate_count + 1;
                assert(self.seen() == old(self).seen() + rows_view.subrange(0, i + 1).to_set());
            } else {
                let ghost before = self.seen_rows.deep_view();
                self.seen_rows.push(row.clone());
                proof {
                    assert(self.seen_rows.deep_view() =~= before.push(row.deep_view()));
                    before.lemma_push_to_set_commute(row.deep_view());
                    assert(!before.contains(row.deep_view()));
                    assert forall|a: int, b: int|
                        0 <= a < b < self.seen_rows.deep_view().len() implies
                        self.seen_rows.deep_view()[a] != self.seen_rows.deep_view()[b] by {
                        if b == before.len() {
                            assert(before[a] == self.seen_rows.deep_view()[a]);
                        }
                    }
                }
            }
            self.total_rows = self.total_rows + 1;
            i = i + 1;
        }
        proof {
            assert(rows_view.subrange(0, rows@.len() as int) == rows_view);
            self.seen_rows.deep_view().unique_seq_to_set();
        }
    }

    /// Rows equal to an earlier row.
    pub fn duplicate_count(&self) -> (r: u64)
        ensures
            r == self.spec_duplicate_count(),
    {
        self.duplicate_count
    }

    /// Rows processed.
    pub fn total_rows(&self) -> (r: u64)
        ensures
            r == self.spec_total_rows(),
    {
        self.total_rows
    }
}

/// Every row processed is either the first of its kind or a duplicate: the duplicate
/// count and the number of distinct rows add up to the rows processed.
pub proof fn lemma_duplicates_and_unique_rows(d: &DuplicateDetector)
    requires
        d.wf(),
    ensures
        d.spec_duplicate_count() + d.seen().len() == d.spec_total_rows(),
{
    d.seen_rows.deep_view().unique_seq_to_set();
}

} // verus!
