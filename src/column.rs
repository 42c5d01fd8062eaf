//! Per-column tallies: missing cells, type inference, lengths, samples, PII rows.
use vstd::prelude::*;
use crate::categorical::CategoricalAccumulator;
use crate::text::{
    chars_eq_str, chars_of, contains_str, is_numeric_char, lower_of, lowercase, numeric_char,
    seq_contains, string_of, trim_chars, trimmed, utf8_len_of, sat_utf8_len,
};
use crate::types::DataType;
use crate::quality::{content_hit, detect_pii_pattern, pii_sample, pii_verdict, present_of, PiiType, str_views};

verus! {

/// How a non-missing cell was classified, in the order the rules are tried.
#[derive(Clone, Copy, Debug, PartialEq, Eq, Structural)]
pub enum CellClass {
    Missing,
    Integer,
    Numeric,
    Boolean,
    Date,
    Text,
}

pub const SAMPLE_CAP: usize = 5;

pub const PII_CAP: usize = 100;

pub const ROW_CAP: usize = 1000;

pub const UNIQUE_CAP: usize = 1000;

/// Decimal value of a run of ASCII digits.
pub open spec fn digits_value(s: Seq<char>) -> int
    decreases s.len(),
{
    if s.len() == 0 {
        0
    } else {
        digits_value(s.drop_last()) * 10 + (s.last() as int - '0' as int)
    }
}

pub open spec fn all_digits(s: Seq<char>) -> bool {
    forall|i: int| 0 <= i < s.len() ==> '0' <= #[trigger] s[i] && s[i] <= '9'
}

/// Whether `str::parse::<i64>` accepts the text: an optional sign, then one or more
/// ASCII digits, whose value fits in an `i64`.
pub open spec fn i64_text(s: Seq<char>) -> bool {
    if s.len() > 0 && (s[0] == '+' || s[0] == '-') {
        let d = s.drop_first();
        d.len() > 0 && all_digits(d) && (if s[0] == '-' {
            digits_value(d) <= 0x8000_0000_0000_0000
        } else {
            digits_value(d) <= 0x7fff_ffff_ffff_ffff
        })
    } else {
        s.len() > 0 && all_digits(s) && digits_value(s) <= 0x7fff_ffff_ffff_ffff
    }
}

/// Relies on `str::parse::<i64>`: it succeeds exactly on an optional sign followed by
/// ASCII digits whose value is in range.
#[verifier::external_body]
fn parses_as_i64(s: &str) -> (r: bool)
    ensures
        r == i64_text(s@),
{
    s.parse::<i64>().is_ok()
}

/// Whether a trimmed cell is missing: empty, or `null` or `n/a` in any case.
pub open spec fn missing_text(t: Seq<char>) -> bool {
    t.len() == 0 || lower_of(t) == "null"@ || lower_of(t) == "n/a"@
}

/// Whether a trimmed cell is a boolean token: `true`, `false`, `t` or `f` in any case.
pub open spec fn boolean_text(t: Seq<char>) -> bool {
    lower_of(t) == "true"@ || lower_of(t) == "false"@ || lower_of(t) == "t"@ || lower_of(t)
        == "f"@
}

/// Whether a trimmed cell looks like a date: a `-` or `/`, at least eight bytes, and a
/// numeric character.
pub open spec fn date_text(t: Seq<char>) -> bool {
    (seq_contains(t, "-"@) || seq_contains(t, "/"@)) && sat_utf8_len(t) >= 8 && exists|i: int|
        0 <= i < t.len() && numeric_char(#[trigger] t[i])
}

/// The class of a trimmed cell; `finite_number` tells whether it reads as a finite
/// floating-point number.
pub open spec fn classify(t: Seq<char>, finite_number: bool) -> CellClass {
    if missing_text(t) {
        CellClass::Missing
    } else if i64_text(t) {
        CellClass::Integer
    } else if finite_number {
        CellClass::Numeric
    } else if boolean_text(t) {
        CellClass::Boolean
    } else if date_text(t) {
        CellClass::Date
    } else {
        CellClass::Text
    }
}

/// The trimmed text of a cell, as the rules see it.
pub fn trim_cell(value: &str) -> (r: String)
    ensures
        r@ == trimmed(value@),
{
    let cs = chars_of(value);
    let t = trim_chars(cs.as_slice());
    string_of(t.as_slice())
}

fn lower_is(t: &str, a: &str) -> (r: bool)
    ensures
        r == (lower_of(t@) == a@),
{
    let l = lowercase(t);
    let lc = chars_of(l.as_str());
    chars_eq_str(lc.as_slice(), a)
}

fn any_numeric(t: &[char]) -> (r: bool)
    ensures
        r == exists|i: int| 0 <= i < t@.len() && numeric_char(#[trigger] t@[i]),
{
    let mut i: usize = 0;
    while i < t.len()
        invariant
            i <= t@.len(),
            forall|k: int| 0 <= k < i ==> !numeric_char(#[trigger] t@[k]),
        decreases t@.len() - i,
    {
        if is_numeric_char(t[i]) {
            return true;
        }
        i = i + 1;
    }
    false
}

/// Classifies a trimmed cell.
pub fn classify_cell(t: &str, finite_number: bool) -> (r: CellClass)
    ensures
        r == classify(t@, finite_number),
{
    let cs = chars_of(t);
    if cs.len() == 0 || lower_is(t, "null") || lower_is(t, "n/a") {
        return CellClass::Missing;
    }
    if parses_as_i64(t) {
        return CellClass::Integer;
    }
    if finite_number {
        return CellClass::Numeric;
    }
    if lower_is(t, "true") || lower_is(t, "false") || lower_is(t, "t") || lower_is(t, "f") {
        return CellClass::Boolean;
    }
    let c = cs.as_slice();
    if (contains_str(c, "-") || contains_str(c, "/")) && utf8_len_of(c) >= 8 && any_numeric(c) {
        return CellClass::Date;
    }
    CellClass::Text
}

/// The type a column resolves to: the one class all valid cells share (integers are
/// also numbers), else `String`; `Null` with no valid cell.
pub open spec fn resolved_type(valid: u64, integer: u64, numeric: u64, boolean: u64, date: u64) -> DataType {
    if valid == 0 {
        DataType::Null
    } else if integer == valid {
        DataType::Integer
    } else if numeric == valid {
        DataType::Numeric
    } else if boolean == valid {
        DataType::Boolean
    } else if date == valid {
        DataType::Date
    } else {
        DataType::String
    }
}

pub fn resolve_type(valid: u64, integer: u64, numeric: u64, boolean: u64, date: u64) -> (r:
    DataType)
    ensures
        r == resolved_type(valid, integer, numeric, boolean, date),
{
    if valid == 0 {
        DataType::Null
    } else if integer == valid {
        DataType::Integer
    } else if numeric == valid {
        DataType::Numeric
    } else if boolean == valid {
        DataType::Boolean
    } else if date == valid {
        DataType::Date
    } else {
        DataType::String
    }
}

pub open spec fn fold_min(m: Option<usize>, len: usize) -> Option<usize> {
    match m {
        Some(v) => if len < v { Some(len) } else { Some(v) },
        None => Some(len),
    }
}

pub open spec fn fold_max(m: Option<usize>, len: usize) -> Option<usize> {
    match m {
        Some(v) => if len > v { Some(len) } else { Some(v) },
        None => Some(len),
    }
}

/// The integer side of a column profile: counts, type-inference tallies, lengths,
/// value frequencies, display and PII samples, and rows with missing cells.
pub struct ColumnTally {
    pub count: u64,
    pub missing: u64,
    pub total_valid: u64,
    pub integer_count: u64,
    pub numeric_count: u64,
    pub boolean_count: u64,
    pub date_count: u64,
    pub min_length: Option<usize>,
    pub max_length: Option<usize>,
    pub sample_values: Vec<String>,
    pub pii_samples: Vec<String>,
    pub pii_sample_rows: Vec<usize>,
    pub missing_rows: Vec<usize>,
    pub categories: CategoricalAccumulator,
}

impl ColumnTally {
    pub open spec fn wf(&self) -> bool {
        &&& self.categories.wf()
        &&& self.categories.spec_total() == self.total_valid
        &&& self.categories.spec_max_unique() == UNIQUE_CAP
        &&& self.missing + self.total_valid == self.count
        &&& self.integer_count <= self.numeric_count
        &&& self.numeric_count + self.boolean_count + self.date_count <= self.total_valid
        &&& self.sample_values@.len() <= SAMPLE_CAP
        &&& self.sample_values.deep_view().no_duplicates()
        &&& self.pii_samples@.len() <= PII_CAP
        &&& self.pii_samples@.len() == self.pii_sample_rows@.len()
        &&& self.missing_rows@.len() <= ROW_CAP
        &&& (self.min_length is Some <==> self.total_valid > 0)
        &&& (self.max_length is Some <==> self.total_valid > 0)
    }

    pub fn new() -> (r: Self)
        ensures
            r.wf(),
            r.count == 0,
            r.sample_values@.len() == 0,
            r.pii_samples@.len() == 0,
            r.missing_rows@.len() == 0,
    {
        let r = ColumnTally {
            count: 0,
            missing: 0,
            total_valid: 0,
            integer_count: 0,
            numeric_count: 0,
            boolean_count: 0,
            date_count: 0,
            min_length: None,
            max_length: None,
            sample_values: Vec::new(),
            pii_samples: Vec::new(),
            pii_sample_rows: Vec::new(),
            missing_rows: Vec::new(),
            categories: CategoricalAccumulator::new(UNIQUE_CAP),
        };
        assert(r.sample_values.deep_view() =~= Seq::<Seq<char>>::empty());
        r
    }

    fn holds_sample(&self, t: &String) -> (r: bool)
        ensures
            r == self.sample_values.deep_view().contains(t@),
    {
        let mut i: usize = 0;
        while i < self.sample_values.len()
            invariant
                i <= self.sample_values@.len(),
                forall|k: int| 0 <= k < i ==> self.sample_values.deep_view()[k] != t@,
            decreases self.sample_values@.len() - i,
        {
            if self.sample_values[i] == *t {
                assert(self.sample_values.deep_view()[i as int] == t@);
                return true;
            }
            i = i + 1;
        }
        false
    }

    /// Folds one cell, found at `row_index`, into the tally; `finite_number` tells
    /// whether the trimmed cell reads as a finite floating-point number. Returns the
    /// cell's class.
    pub fn update(&mut self, value: &str, row_index: usize, finite_number: bool) -> (r: CellClass)
        requires
            old(self).wf(),
            old(self).count < u64::MAX,
        ensures
            final(self).wf(),
            r == classify(trimmed(value@), finite_number),
            final(self).count == old(self).count + 1,
            r == CellClass::Missing ==> final(self).missing == old(self).missing + 1
                && final(self).total_valid == old(self).total_valid
                && final(self).missing_rows@ == (if old(self).missing_rows@.len() < ROW_CAP {
                old(self).missing_rows@.push(row_index)
            } else {
                old(self).missing_rows@
            }),
            r != CellClass::Missing ==> final(self).missing == old(self).missing
                && final(self).total_valid == old(self).total_valid + 1
                && final(self).missing_rows@ == old(self).missing_rows@
                && final(self).min_length == fold_min(
                old(self).min_length,
                sat_utf8_len(trimmed(value@)) as usize,
            ) && final(self).max_length == fold_max(
                old(self).max_length,
                sat_utf8_len(trimmed(value@)) as usize,
            ),
            r == CellClass::Missing ==> final(self).min_length == old(self).min_length
                && final(self).max_length == old(self).max_length
                && final(self).sample_values@ == old(self).sample_values@
                && final(self).pii_samples@ == old(self).pii_samples@
                && final(self).pii_sample_rows@ == old(self).pii_sample_rows@
                && final(self).categories == old(self).categories,
            r != CellClass::Missing ==> final(self).sample_values.deep_view() == (if old(
                self,
            ).sample_values@.len() < SAMPLE_CAP && !old(self).sample_values.deep_view().contains(
                trimmed(value@),
            ) {
                old(self).sample_values.deep_view().push(trimmed(value@))
            } else {
                old(self).sample_values.deep_view()
            }),
            r != CellClass::Missing ==> final(self).pii_samples.deep_view() == (if old(
                self,
            ).pii_samples@.len() < PII_CAP {
                old(self).pii_samples.deep_view().push(trimmed(value@))
            } else {
                old(self).pii_samples.deep_view()
            }) && final(self).pii_sample_rows@ == (if old(self).pii_samples@.len() < PII_CAP {
                old(self).pii_sample_rows@.push(row_index)
            } else {
                old(self).pii_sample_rows@
            }),
            r != CellClass::Missing ==> final(self).categories.spec_total()
                == old(self).categories.spec_total() + 1,
            r != CellClass::Missing ==> ({
                let vs = old(self).categories.spec_values();
                let cs = old(self).categories.spec_counts();
                let t = trimmed(value@);
                if vs.contains(t) {
                    final(self).categories.spec_values() == vs
                        && final(self).categories.spec_counts() == cs.update(
                        vs.index_of(t),
                        (cs[vs.index_of(t)] + 1) as u64,
                    )
                } else if vs.len() < UNIQUE_CAP {
                    final(self).categories.spec_values() == vs.push(t)
                        && final(self).categories.spec_counts() == cs.push(1)
                } else {
                    final(self).categories.spec_values() == vs
                        && final(self).categories.spec_counts() == cs
                }
            }),
            final(self).integer_count == old(self).integer_count + if r == CellClass::Integer {
                1int
            } else {
                0
            },
            final(self).numeric_count == old(self).numeric_count + if r == CellClass::Integer
                || r == CellClass::Numeric {
                1int
            } else {
                0
            },
            final(self).boolean_count == old(self).boolean_count + if r == CellClass::Boolean {
                1int
            } else {
                0
            },
            final(self).date_count == old(self).date_count + if r == CellClass::Date {
                1int
            } else {
                0
            },
    {
        self.count = self.count + 1;
        let t = trim_cell(value);
        let class = classify_cell(t.as_str(), finite_number);
        if class == CellClass::Missing {
            self.missing = self.missing + 1;
            if self.missing_rows.len() < ROW_CAP {
                self.missing_rows.push(row_index);
            }
            return class;
        }
        self.total_valid = self.total_valid + 1;
        self.categories.update(t.as_str());
        if self.sample_values.len() < SAMPLE_CAP && !self.holds_sample(&t) {
            let ghost before = self.sample_values.deep_view();
            self.sample_values.push(t.clone());
            proof {
                assert(self.sample_values.deep_view() =~= before.push(t@));
                assert forall|a: int, b: int|
                    0 <= a < b < self.sample_values.deep_view().len() implies
                    self.sample_values.deep_view()[a] != self.sample_values.deep_view()[b] by {
                    if b == before.len() {
                        assert(before.contains(before[a]));
                    }
                }
            }
        }
        if self.pii_samples.len() < PII_CAP {
            let ghost before = self.pii_samples.deep_view();
            self.pii_samples.push(t.clone());
            self.pii_sample_rows.push(row_index);
            assert(self.pii_samples.deep_view() =~= before.push(t@));
        }
        let tc = chars_of(t.as_str());
        let len = utf8_len_of(tc.as_slice());
        match self.min_length {
            Some(m) => {
                if len < m {
                    self.min_length = Some(len);
                }
            },
            None => {
                self.min_length = Some(len);
            },
        }
        match self.max_length {
            Some(m) => {
                if len > m {
                    self.max_length = Some(len);
                }
            },
            None => {
                self.max_length = Some(len);
            },
        }
        match class {
            CellClass::Integer => {
                self.integer_count = self.integer_count + 1;
                self.numeric_count = self.numeric_count + 1;
            },
            CellClass::Numeric => {
                self.numeric_count = self.numeric_count + 1;
            },
            CellClass::Boolean => {
                self.boolean_count = self.boolean_count + 1;
            },
            CellClass::Date => {
                self.date_count = self.date_count + 1;
            },
            _ => {},
        }
        class
    }

    /// The type the column resolves to.
    pub fn inferred_type(&self) -> (r: DataType)
        ensures
            r == resolved_type(
                self.total_valid,
                self.integer_count,
                self.numeric_count,
                self.boolean_count,
                self.date_count,
            ),
    {
        resolve_type(
            self.total_valid,
            self.integer_count,
            self.numeric_count,
            self.boolean_count,
            self.date_count,
        )
    }

    /// Whether a string column is mostly numbers: over half of its valid cells.
    pub fn mostly_numeric(&self) -> (r: bool)
        ensures
            r == (resolved_type(
                self.total_valid,
                self.integer_count,
                self.numeric_count,
                self.boolean_count,
                self.date_count,
            ) == DataType::String && self.numeric_count > 0 && 2 * (self.numeric_count as int)
                > self.total_valid),
    {
        self.inferred_type() == DataType::String && self.numeric_count > 0 && 2 * (
        self.numeric_count as u128) > self.total_valid as u128
    }

    /// The kind of PII the sampled cells hold, by content alone.
    pub fn detect_pii(&self) -> (r: Option<PiiType>)
        ensures
            r == (if self.pii_samples@.len() == 0 {
                None
            } else {
                pii_verdict(pii_sample(self.pii_samples.deep_view()), None)
            }),
    {
        let mut refs: Vec<&str> = Vec::new();
        let mut i: usize = 0;
        while i < self.pii_samples.len()
            invariant
                i <= self.pii_samples@.len(),
                refs@.len() == i,
                str_views(refs@) == self.pii_samples.deep_view().take(i as int),
            decreases self.pii_samples@.len() - i,
        {
            let ghost before = refs@;
            let r = self.pii_samples[i].as_str();
            refs.push(r);
            proof {
                assert(r@ == self.pii_samples.deep_view()[i as int]);
                assert(refs@ == before.push(r));
                assert forall|k: int| 0 <= k < i + 1 implies #[trigger] str_views(refs@)[k]
                    == self.pii_samples.deep_view().take(i + 1)[k] by {
                    if k < i {
                        assert(str_views(before)[k] == self.pii_samples.deep_view().take(i as int)[k]);
                    }
                }
                assert(str_views(refs@) =~= self.pii_samples.deep_view().take(i + 1));
            }
            i = i + 1;
        }
        assert(self.pii_samples.deep_view().take(i as int) == self.pii_samples.deep_view());
        detect_pii_pattern(refs.as_slice())
    }

    /// Rows of the sampled cells that are hits for `kind`, in sample order.
    pub fn pii_rows(&self, kind: PiiType) -> (r: Vec<usize>)
        requires
            self.wf(),
        ensures
            r@ == rows_with_hits(self.pii_samples.deep_view(), self.pii_sample_rows@, kind),
    {
        let mut rows: Vec<usize> = Vec::new();
        let mut i: usize = 0;
        while i < self.pii_samples.len()
            invariant
                self.wf(),
                i <= self.pii_samples@.len(),
                rows@ == rows_with_hits(
                    self.pii_samples.deep_view().take(i as int),
                    self.pii_sample_rows@.take(i as int),
                    kind,
                ),
            decreases self.pii_samples@.len() - i,
        {
            proof {
                assert(self.pii_samples.deep_view().take(i + 1).drop_last()
                    == self.pii_samples.deep_view().take(i as int));
                assert(self.pii_sample_rows@.take(i + 1).drop_last() == self.pii_sample_rows@.take(
                    i as int,
                ));
            }
            let cs = chars_of(self.pii_samples[i].as_str());
            let t = trim_chars(cs.as_slice());
            if crate::quality::is_hit(kind, t.as_slice()) {
                rows.push(self.pii_sample_rows[i]);
            }
            i = i + 1;
        }
        assert(self.pii_samples.deep_view().take(i as int) == self.pii_samples.deep_view());
        assert(self.pii_sample_rows@.take(i as int) == self.pii_sample_rows@);
        rows
    }
}

/// Rows, paired with cells, whose trimmed cell is a hit for `kind`.
pub open spec fn rows_with_hits(cells: Seq<Seq<char>>, rows: Seq<usize>, kind: PiiType) -> Seq<usize>
    decreases cells.len(),
{
    if cells.len() == 0 || rows.len() != cells.len() {
        Seq::empty()
    } else if content_hit(kind, trimmed(cells.last())) {
        rows_with_hits(cells.drop_last(), rows.drop_last(), kind).push(rows.last())
    } else {
        rows_with_hits(cells.drop_last(), rows.drop_last(), kind)
    }
}

/// Completeness and the missing share add up to one: the present cells and the
/// missing cells of a column make up all its cells.
pub proof fn lemma_present_and_missing(t: &ColumnTally)
    requires
        t.wf(),
    ensures
        present_of(t.count, t.missing) + t.missing == t.count,
{
}

/// Cells, among `cells`, that the tally counts as missing.
pub open spec fn missing_cells(cells: Seq<Seq<char>>) -> nat {
    cells.filter(|c: Seq<char>| missing_text(trimmed(c))).len()
}

proof fn lemma_filter_to_multiset(s: Seq<Seq<char>>, p: spec_fn(Seq<char>) -> bool)
    ensures
        s.filter(p).to_multiset() == s.to_multiset().filter(p),
    decreases s.len(),
{
    broadcast use vstd::seq_lib::group_seq_properties;
    if s.len() == 0 {
        assert(s.filter(p) =~= Seq::<Seq<char>>::empty());
        assert(s.to_multiset().filter(p) =~= vstd::multiset::Multiset::empty());
    } else {
        let t = s.drop_last();
        let a = s.last();
        assert(s == t.push(a));
        lemma_filter_to_multiset(t, p);
        t.lemma_filter_push(a, p);
        t.to_multiset_ensures();
        t.filter(p).to_multiset_ensures();
        assert(s.to_multiset() =~= t.to_multiset().insert(a));
        assert(s.filter(p).to_multiset() =~= s.to_multiset().filter(p));
    }
}

/// The number of cells and the number of missing cells that a column tallies depend on
/// the cells alone, not on their order: any two orderings of the same cells agree.
pub proof fn lemma_missing_count_order_free(a: Seq<Seq<char>>, b: Seq<Seq<char>>)
    requires
        a.to_multiset() == b.to_multiset(),
    ensures
        a.len() == b.len(),
        missing_cells(a) == missing_cells(b),
{
    let p = |c: Seq<char>| missing_text(trimmed(c));
    a.to_multiset_ensures();
    b.to_multiset_ensures();
    lemma_filter_to_multiset(a, p);
    lemma_filter_to_multiset(b, p);
    a.filter(p).to_multiset_ensures();
    b.filter(p).to_multiset_ensures();
}

} // verus!
