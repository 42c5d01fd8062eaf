//! Streaming parser for delimited text and delimiter detection.
use vstd::prelude::*;

verus! {

/// The header record that the `csv` crate reads from `data`, if it reads one.
pub uninterp spec fn csv_header(data: Seq<u8>, delimiter: u8, has_headers: bool) -> Option<
    Seq<Seq<char>>,
>;

/// The records that the `csv` crate reads from `data` in flexible mode (any field
/// count), in order: the fields of each record, or `None` for a record it cannot read
/// (such as one that is not UTF-8).
pub uninterp spec fn csv_records(data: Seq<u8>, delimiter: u8, has_headers: bool) -> Seq<
    Option<Seq<Seq<char>>>,
>;

pub open spec fn opt_row_view(o: Option<Vec<String>>) -> Option<Seq<Seq<char>>> {
    match o {
        Some(r) => Some(r.deep_view()),
        None => None,
    }
}

/// Relies on `csv::ReaderBuilder` (delimiter, header mode, flexible field counts)
/// reading a byte slice, and on
/// `Reader::headers` and `Reader::records`, each record's fields as strings.
#[verifier::external_body]
fn read_csv(data: &[u8], delimiter: u8, has_headers: bool) -> (r: (
    Option<Vec<String>>,
    Vec<Option<Vec<String>>>,
))
    ensures
        opt_row_view(r.0) == csv_header(data@, delimiter, has_headers),
        r.1@.map_values(|o: Option<Vec<String>>| opt_row_view(o)) == csv_records(
            data@,
            delimiter,
            has_headers,
        ),
{
    let mut rdr = csv::ReaderBuilder::new().delimiter(delimiter).has_headers(
        has_headers,
    ).flexible(true).from_reader(data);
    let headers = rdr.headers().ok().map(|h| h.iter().map(String::from).collect());
    let records = rdr.records().map(|r| r.ok().map(|rec| rec.iter().map(String::from).collect()));
    (headers, records.collect())
}

/// The rows among records: the fields of each record that was read.
pub open spec fn ok_rows(recs: Seq<Option<Seq<Seq<char>>>>) -> Seq<Seq<Seq<char>>>
    decreases recs.len(),
{
    if recs.len() == 0 {
        Seq::empty()
    } else {
        match recs.last() {
            Some(r) => ok_rows(recs.drop_last()).push(r),
            None => ok_rows(recs.drop_last()),
        }
    }
}

/// `a + n`, held at `u32::MAX`.
pub open spec fn sat_add(a: u32, n: nat) -> u32 {
    if a + n > u32::MAX {
        u32::MAX
    } else {
        (a + n) as u32
    }
}

/// Bytes up to and including the last newline; zero when there is none.
pub open spec fn complete_prefix_len(s: Seq<u8>) -> nat
    decreases s.len(),
{
    if s.len() == 0 {
        0
    } else if s.last() == 10u8 {
        s.len()
    } else {
        complete_prefix_len(s.drop_last())
    }
}

/// The rows among the first ten records.
pub open spec fn first_ten_rows(recs: Seq<Option<Seq<Seq<char>>>>) -> Seq<Seq<Seq<char>>> {
    ok_rows(recs.take(if recs.len() < 10 { recs.len() as int } else { 10 }))
}

/// Whether all rows have as many fields as the first.
pub open spec fn same_width(rows: Seq<Seq<Seq<char>>>) -> bool {
    forall|k: int| 0 <= k < rows.len() ==> #[trigger] rows[k].len() == rows[0].len()
}

/// Field count times record count of the first ten records, when at least one was read,
/// all have the same field count, and that count is above one; else zero.
pub open spec fn delimiter_score(recs: Seq<Option<Seq<Seq<char>>>>) -> nat {
    let first = first_ten_rows(recs);
    if first.len() > 0 && first[0].len() > 1 && same_width(first) {
        first.len() * first[0].len()
    } else {
        0
    }
}

pub open spec fn candidate(i: int) -> u8 {
    if i == 0 {
        44u8
    } else if i == 1 {
        9u8
    } else if i == 2 {
        59u8
    } else {
        124u8
    }
}

pub open spec fn score_of(data: Seq<u8>, i: int) -> nat {
    delimiter_score(csv_records(data, candidate(i), false))
}

/// The header record once a batch of complete lines has been read: the one the batch
/// yields when headers are expected and none is known yet, else the one held before.
pub open spec fn next_headers(
    held: Option<Seq<Seq<char>>>,
    expecting: bool,
    read: Option<Seq<Seq<char>>>,
) -> Option<Seq<Seq<char>>> {
    if expecting && read is Some {
        read
    } else {
        held
    }
}

pub open spec fn headers_or_empty(h: Option<Seq<Seq<char>>>) -> Seq<Seq<char>> {
    match h {
        Some(v) => v,
        None => Seq::empty(),
    }
}

/// The row width once records are read: the width known before, or else the field
/// count of the first record read.
pub open spec fn width_after(w: Option<nat>, recs: Seq<Option<Seq<Seq<char>>>>) -> Option<nat>
    decreases recs.len(),
{
    if recs.len() == 0 {
        w
    } else {
        let before = width_after(w, recs.drop_last());
        match (before, recs.last()) {
            (None, Some(r)) => Some(r.len()),
            _ => before,
        }
    }
}

/// Whether the last of `recs` is read and has the row width.
pub open spec fn last_fits(w: Option<nat>, recs: Seq<Option<Seq<Seq<char>>>>) -> bool {
    recs.len() > 0 && match recs.last() {
        Some(r) => width_after(w, recs) == Some(r.len()),
        None => false,
    }
}

/// The rows among records: those read with the row width.
pub open spec fn fit_rows(w: Option<nat>, recs: Seq<Option<Seq<Seq<char>>>>) -> Seq<Seq<Seq<char>>>
    decreases recs.len(),
{
    if recs.len() == 0 {
        Seq::empty()
    } else if last_fits(w, recs) {
        fit_rows(w, recs.drop_last()).push(recs.last()->Some_0)
    } else {
        fit_rows(w, recs.drop_last())
    }
}

/// Malformed records: rejected by the reader, or read with another width.
pub open spec fn misfit_count(w: Option<nat>, recs: Seq<Option<Seq<Seq<char>>>>) -> nat
    decreases recs.len(),
{
    if recs.len() == 0 {
        0
    } else {
        misfit_count(w, recs.drop_last()) + if last_fits(w, recs) {
            0nat
        } else {
            1nat
        }
    }
}

/// The width known before a batch: the adopted header's, else the width held before.
pub open spec fn width_with_header(
    w: Option<nat>,
    expecting: bool,
    header: Option<Seq<Seq<char>>>,
) -> Option<nat> {
    match header {
        Some(h) => if expecting { Some(h.len()) } else { w },
        None => w,
    }
}

/// The batch a delimited-text parser hands back.
#[derive(Debug)]
pub struct ParseResult {
    pub headers: Vec<String>,
    pub rows: Vec<Vec<String>>,
    pub malformed_count: u32,
    pub total_rows: u32,
}

/// Streaming parser for delimited text: carries an unterminated last line over to the
/// next chunk, and keeps every row at one width for the whole session.
pub struct CsvParser {
    delimiter: u8,
    has_headers: bool,
    header_data: Option<Vec<String>>,
    width: Option<usize>,
    malformed_count: u32,
    total_rows: u32,
    remainder: Vec<u8>,
}

fn saturating(a: u32, n: usize) -> (r: u32)
    ensures
        r == sat_add(a, n as nat),
{
    if n as u64 > (u32::MAX - a) as u64 {
        u32::MAX
    } else {
        a + n as u32
    }
}

fn complete_prefix(s: &Vec<u8>) -> (r: usize)
    ensures
        r == complete_prefix_len(s@),
        r <= s@.len(),
{
    let mut j: usize = s.len();
    assert(s@.subrange(0, j as int) == s@);
    while j > 0 && s[j - 1] != 10u8
        invariant
            j <= s@.len(),
            complete_prefix_len(s@) == complete_prefix_len(s@.subrange(0, j as int)),
        decreases j,
    {
        proof {
            assert(s@.subrange(0, j as int).drop_last() == s@.subrange(0, j - 1));
        }
        j = j - 1;
    }
    proof {
        if j > 0 {
            assert(s@.subrange(0, j as int).last() == s@[j - 1]);
        }
    }
    j
}

pub(crate) fn copy_range(s: &[u8], from: usize, to: usize) -> (r: Vec<u8>)
    requires
        from <= to <= s@.len(),
    ensures
        r@ == s@.subrange(from as int, to as int),
{
    let mut r: Vec<u8> = Vec::new();
    let mut k: usize = from;
    while k < to
        invariant
            from <= k <= to <= s@.len(),
            r@ == s@.subrange(from as int, k as int),
        decreases to - k,
    {
        r.push(s[k]);
        assert(r@ == s@.subrange(from as int, k + 1));
        k = k + 1;
    }
    r
}

impl CsvParser {
    pub closed spec fn spec_delimiter(&self) -> u8 {
        self.delimiter
    }

    pub closed spec fn spec_has_headers(&self) -> bool {
        self.has_headers
    }

    /// The header record, once discovered.
    pub closed spec fn spec_headers(&self) -> Option<Seq<Seq<char>>> {
        opt_row_view(self.header_data)
    }

    /// The width every row has: the header's, or else the first row's.
    pub closed spec fn spec_width(&self) -> Option<nat> {
        match self.width {
            Some(w) => Some(w as nat),
            None => None,
        }
    }

    /// A known header fixes the row width.
    pub closed spec fn wf(&self) -> bool {
        match self.header_data {
            Some(h) => self.spec_width() == Some(h@.len()),
            None => true,
        }
    }

    pub closed spec fn spec_malformed(&self) -> u32 {
        self.malformed_count
    }

    pub closed spec fn spec_total(&self) -> u32 {
        self.total_rows
    }

    /// Bytes after the last newline seen, waiting for the rest of their line.
    pub closed spec fn spec_remainder(&self) -> Seq<u8> {
        self.remainder@
    }

    /// A parser with the given delimiter (a comma when none is given).
    pub fn new(delimiter: Option<u8>, has_headers: bool) -> (r: Self)
        ensures
            r.spec_delimiter() == (match delimiter {
                Some(d) => d,
                None => 44u8,
            }),
            r.spec_has_headers() == has_headers,
            r.spec_headers() is None,
            r.spec_malformed() == 0,
            r.spec_total() == 0,
            r.spec_remainder() == Seq::<u8>::empty(),
            r.spec_width() is None,
            r.wf(),
    {
        CsvParser {
            delimiter: match delimiter {
                Some(d) => d,
                None => 44u8,
            },
            has_headers,
            header_data: None,
            width: None,
            malformed_count: 0,
            total_rows: 0,
            remainder: Vec::new(),
        }
    }

    pub fn set_delimiter(&mut self, delimiter: u8)
        ensures
            final(self).spec_delimiter() == delimiter,
            final(self).spec_has_headers() == old(self).spec_has_headers(),
            final(self).spec_headers() == old(self).spec_headers(),
            final(self).spec_malformed() == old(self).spec_malformed(),
            final(self).spec_total() == old(self).spec_total(),
            final(self).spec_remainder() == old(self).spec_remainder(),
            final(self).spec_width() == old(self).spec_width(),
            old(self).wf() ==> final(self).wf(),
    {
        self.delimiter = delimiter;
    }

    /// Picks the delimiter among comma, tab, semicolon and pipe whose first ten records
    /// score highest (see `delimiter_score`); the earliest candidate wins ties, and a
    /// comma is the answer when none scores.
    pub fn auto_detect_delimiter(data: &[u8]) -> (r: u8)
        ensures
            exists|i: int|
                0 <= i < 4 && r == (if score_of(data@, i) == 0 {
                    44u8
                } else {
                    candidate(i)
                }) && (forall|k: int| 0 <= k < 4 ==> score_of(data@, k) <= score_of(data@, i))
                    && (forall|k: int| 0 <= k < i ==> score_of(data@, k) < score_of(data@, i)),
    {
        let candidates: [u8; 4] = [44u8, 9u8, 59u8, 124u8];
        let mut best: u8 = 44u8;
        let mut best_i: usize = 0;
        let mut max_score: u128 = 0;
        let mut c: usize = 0;
        while c < 4
            invariant
                c <= 4,
                candidates@ == seq![44u8, 9u8, 59u8, 124u8],
                best_i < 4,
                c > 0 ==> best_i < c,
                c > 0 ==> max_score == score_of(data@, best_i as int),
                c > 0 ==> best == (if max_score == 0 {
                    44u8
                } else {
                    candidate(best_i as int)
                }),
                forall|k: int| 0 <= k < c ==> score_of(data@, k) <= max_score,
                forall|k: int| 0 <= k < best_i ==> score_of(data@, k) < max_score,
                c == 0 ==> best_i == 0,
            decreases 4 - c,
        {
            let delim = candidates[c];
            assert(delim == candidate(c as int));
            let (_, recs) = read_csv(data, delim, false);
            let score = Self::score_records(&recs);
            if c == 0 {
                max_score = score;
                best_i = 0;
                best = 44u8;
            } else if score > max_score {
                max_score = score;
                best_i = c;
                best = delim;
            }
            c = c + 1;
        }
        assert(best == (if score_of(data@, best_i as int) == 0 {
            44u8
        } else {
            candidate(best_i as int)
        }));
        best
    }

    fn score_records(recs: &Vec<Option<Vec<String>>>) -> (r: u128)
        ensures
            r == delimiter_score(recs@.map_values(|o: Option<Vec<String>>| opt_row_view(o))),
    {
        let ghost v = recs@.map_values(|o: Option<Vec<String>>| opt_row_view(o));
        let n: usize = if recs.len() < 10 {
            recs.len()
        } else {
            10
        };
        let mut lens: Vec<usize> = Vec::new();
        let ghost taken = v.take(n as int);
        let mut i: usize = 0;
        while i < n
            invariant
                n <= recs@.len(),
                n <= 10,
                i <= n,
                v == recs@.map_values(|o: Option<Vec<String>>| opt_row_view(o)),
                taken == v.take(n as int),
                lens@.len() == ok_rows(taken.subrange(0, i as int)).len(),
                lens@.len() <= i,
                forall|k: int|
                    0 <= k < lens@.len() ==> lens@[k] == #[trigger] ok_rows(
                        taken.subrange(0, i as int),
                    )[k].len(),
            decreases n - i,
        {
            proof {
                assert(taken.subrange(0, i + 1).drop_last() == taken.subrange(0, i as int));
                assert(taken.subrange(0, i + 1).last() == v[i as int]);
            }
            match &recs[i] {
                Some(r) => {
                    lens.push(r.len());
                },
                None => {},
            }
            i = i + 1;
        }
        assert(taken.subrange(0, n as int) == taken);
        let ghost first = ok_rows(taken);
        assert(lens@.len() == first.len());
        assert(forall|k: int| 0 <= k < lens@.len() ==> lens@[k] == #[trigger] first[k].len());
        assert(taken == v.take(if v.len() < 10 { v.len() as int } else { 10 }));
        assert(first == ok_rows(v.take(if v.len() < 10 { v.len() as int } else { 10 })));
        if lens.len() > 0 {
            let first_len = lens[0];
            if first_len > 1 {
                let mut k: usize = 1;
                while k < lens.len()
                    invariant
                        1 <= k <= lens@.len(),
                        first_len == lens@[0],
                        lens@.len() == first.len(),
                        v == recs@.map_values(|o: Option<Vec<String>>| opt_row_view(o)),
                        first == ok_rows(v.take(if v.len() < 10 { v.len() as int } else { 10 })),
                        forall|m: int| 0 <= m < lens@.len() ==> lens@[m] == #[trigger] first[m].len(),
                        forall|m: int| 0 <= m < k ==> lens@[m] == first_len,
                    decreases lens@.len() - k,
                {
                    if lens[k] != first_len {
                        assert(first[k as int].len() != first[0].len());
                        return 0;
                    }
                    k = k + 1;
                }
                assert(same_width(first));
                let count = lens.len() as u128;
                let width = first_len as u128;
                assert(count * width <= 10 * 0x1_0000_0000_0000_0000) by (nonlinear_arith)
                    requires
                        count <= 10,
                        width < 0x1_0000_0000_0000_0000,
                ;
                return count * width;
            }
        }
        0
    }

    /// Takes in what the reader made of a batch of lines: the header record, adopted when
    /// `expecting` one, and the records. A record read with the row width (the header's,
    /// or else the first row's) becomes a row; any other record counts as malformed.
    /// Every record counts toward the total.
    pub fn absorb_records(
        &mut self,
        header: Option<Vec<String>>,
        records: &Vec<Option<Vec<String>>>,
        expecting: bool,
    ) -> (r: Vec<Vec<String>>)
        requires
            old(self).wf(),
        ensures
            final(self).wf(),
            ({
                let recs = records@.map_values(|o: Option<Vec<String>>| opt_row_view(o));
                let w0 = width_with_header(old(self).spec_width(), expecting, opt_row_view(header));
                &&& r.deep_view() == fit_rows(w0, recs)
                &&& final(self).spec_width() == width_after(w0, recs)
                &&& final(self).spec_total() == sat_add(old(self).spec_total(), recs.len())
                &&& final(self).spec_malformed() == sat_add(
                    old(self).spec_malformed(),
                    misfit_count(w0, recs),
                )
                &&& final(self).spec_headers() == next_headers(
                    old(self).spec_headers(),
                    expecting,
                    opt_row_view(header),
                )
                &&& final(self).spec_remainder() == old(self).spec_remainder()
                &&& final(self).spec_delimiter() == old(self).spec_delimiter()
                &&& final(self).spec_has_headers() == old(self).spec_has_headers()
            }),
            forall|i: int|
                0 <= i < r@.len() ==> Some(#[trigger] r@[i]@.len()) == final(self).spec_width(),
    {
        let ghost v = records@.map_values(|o: Option<Vec<String>>| opt_row_view(o));
        if expecting && header.is_some() {
            let n = match &header {
                Some(h) => h.len(),
                None => 0,
            };
            self.header_data = header;
            self.width = Some(n);
        }
        let ghost w0 = self.spec_width();
        let mut rows: Vec<Vec<String>> = Vec::new();
        let mut errors: usize = 0;
        let mut i: usize = 0;
        while i < records.len()
            invariant
                self.wf(),
                i <= records@.len(),
                errors <= i,
                v == records@.map_values(|o: Option<Vec<String>>| opt_row_view(o)),
                self.spec_width() == width_after(w0, v.subrange(0, i as int)),
                rows.deep_view() == fit_rows(w0, v.subrange(0, i as int)),
                errors == misfit_count(w0, v.subrange(0, i as int)),
                forall|k: int|
                    0 <= k < rows@.len() ==> Some(#[trigger] rows@[k]@.len()) == self.spec_width(),
                self.header_data == (if expecting && header is Some {
                    header
                } else {
                    old(self).header_data
                }),
                self.total_rows == old(self).total_rows,
                self.malformed_count == old(self).malformed_count,
                self.remainder@ == old(self).remainder@,
                self.delimiter == old(self).delimiter,
                self.has_headers == old(self).has_headers,
            decreases records@.len() - i,
        {
            let ghost pre = v.subrange(0, i as int);
            proof {
                assert(v.subrange(0, i + 1).drop_last() == pre);
                assert(v.subrange(0, i + 1).last() == v[i as int]);
            }
            match &records[i] {
                Some(rec) => {
                    let w = match self.width {
                        Some(w) => w,
                        None => {
                            self.width = Some(rec.len());
                            rec.len()
                        },
                    };
                    if rec.len() == w {
                        let ghost before = rows.deep_view();
                        rows.push(rec.clone());
                        assert(rows.deep_view() =~= before.push(rec.deep_view()));
                    } else {
                        errors = errors + 1;
                    }
                },
                None => {
                    errors = errors + 1;
                },
            }
            i = i + 1;
        }
        assert(v.subrange(0, records@.len() as int) == v);
        self.total_rows = saturating(self.total_rows, records.len());
        self.malformed_count = saturating(self.malformed_count, errors);
        rows
    }

    /// The result that reports the parser's counters and headers with these rows.
    fn result(&self, rows: Vec<Vec<String>>) -> (r: ParseResult)
        ensures
            r.headers.deep_view() == headers_or_empty(self.spec_headers()),
            r.rows.deep_view() == rows.deep_view(),
            r.rows@ == rows@,
            r.malformed_count == self.spec_malformed(),
            r.total_rows == self.spec_total(),
    {
        let headers = match &self.header_data {
            Some(h) => h.clone(),
            None => Vec::new(),
        };
        proof {
            if self.header_data is None {
                assert(headers.deep_view() =~= Seq::<Seq<char>>::empty());
            }
        }
        ParseResult {
            headers,
            rows,
            malformed_count: self.malformed_count,
            total_rows: self.total_rows,
        }
    }

    /// Parses the complete lines of the carried bytes followed by `chunk`: everything up
    /// to and including the last newline. The bytes after it are carried to the next
    /// call. A record becomes a row only with the row width (the header's, or else the
    /// first row's), whichever chunk it comes in; unreadable records and records of
    /// another width count as malformed. Every record counts toward the total (both
    /// counters hold at `u32::MAX`).
    pub fn parse_chunk(&mut self, chunk: &[u8]) -> (r: ParseResult)
        requires
            old(self).wf(),
        ensures
            final(self).wf(),
            final(self).spec_headers() matches Some(h) ==> final(self).spec_width() == Some(
                h.len(),
            ),
            forall|i: int|
                0 <= i < r.rows@.len() ==> Some(#[trigger] r.rows@[i]@.len())
                    == final(self).spec_width(),
            ({
                let data = old(self).spec_remainder() + chunk@;
                let cut = complete_prefix_len(data) as int;
                let expecting = old(self).spec_has_headers() && old(self).spec_headers() is None;
                let recs = csv_records(data.take(cut), old(self).spec_delimiter(), expecting);
                let w0 = width_with_header(
                    old(self).spec_width(),
                    expecting,
                    csv_header(data.take(cut), old(self).spec_delimiter(), expecting),
                );
                &&& final(self).spec_remainder() == data.skip(cut)
                &&& final(self).spec_delimiter() == old(self).spec_delimiter()
                &&& final(self).spec_has_headers() == old(self).spec_has_headers()
                &&& cut == 0 ==> final(self).spec_headers() == old(self).spec_headers()
                    && final(self).spec_total() == old(self).spec_total()
                    && final(self).spec_malformed() == old(self).spec_malformed()
                    && final(self).spec_width() == old(self).spec_width()
                    && r.rows.deep_view() == Seq::<Seq<Seq<char>>>::empty()
                &&& cut > 0 ==> final(self).spec_headers() == next_headers(
                    old(self).spec_headers(),
                    expecting,
                    csv_header(data.take(cut), old(self).spec_delimiter(), expecting),
                ) && final(self).spec_total() == sat_add(old(self).spec_total(), recs.len())
                    && final(self).spec_malformed() == sat_add(
                    old(self).spec_malformed(),
                    misfit_count(w0, recs),
                ) && r.rows.deep_view() == fit_rows(w0, recs) && final(self).spec_width()
                    == width_after(w0, recs)
                &&& r.headers.deep_view() == headers_or_empty(final(self).spec_headers())
                &&& r.malformed_count == final(self).spec_malformed()
                &&& r.total_rows == final(self).spec_total()
            }),
    {
        let mut data: Vec<u8> = Vec::new();
        let mut i: usize = 0;
        while i < self.remainder.len()
            invariant
                i <= self.remainder@.len(),
                data@ == self.remainder@.subrange(0, i as int),
            decreases self.remainder@.len() - i,
        {
            data.push(self.remainder[i]);
            assert(data@ == self.remainder@.subrange(0, i + 1));
            i = i + 1;
        }
        let mut k: usize = 0;
        while k < chunk.len()
            invariant
                k <= chunk@.len(),
                data@ == self.remainder@ + chunk@.subrange(0, k as int),
            decreases chunk@.len() - k,
        {
            data.push(chunk[k]);
            assert(data@ == self.remainder@ + chunk@.subrange(0, k + 1));
            k = k + 1;
        }
        assert(chunk@.subrange(0, chunk@.len() as int) == chunk@);
        let cut = complete_prefix(&data);
        let to_parse = copy_range(&data, 0, cut);
        let rest = copy_range(&data, cut, data.len());
        assert(to_parse@ == data@.take(cut as int));
        assert(rest@ == data@.skip(cut as int));
        let mut rows: Vec<Vec<String>> = Vec::new();
        if cut > 0 {
            let expecting = self.has_headers && self.header_data.is_none();
            let (h, recs) = read_csv(to_parse.as_slice(), self.delimiter, expecting);
            rows = self.absorb_records(h, &recs, expecting);
        } else {
            assert(rows.deep_view() =~= Seq::<Seq<Seq<char>>>::empty());
        }
        self.remainder = rest;
        self.result(rows)
    }

    /// Parses whatever is carried over as the last records, without a header, and
    /// empties the carry.
    pub fn flush(&mut self) -> (r: ParseResult)
        requires
            old(self).wf(),
        ensures
            final(self).wf(),
            final(self).spec_headers() matches Some(h) ==> final(self).spec_width() == Some(
                h.len(),
            ),
            forall|i: int|
                0 <= i < r.rows@.len() ==> Some(#[trigger] r.rows@[i]@.len())
                    == final(self).spec_width(),
            ({
                let data = old(self).spec_remainder();
                let recs = csv_records(data, old(self).spec_delimiter(), false);
                &&& final(self).spec_remainder() == Seq::<u8>::empty()
                &&& final(self).spec_delimiter() == old(self).spec_delimiter()
                &&& final(self).spec_has_headers() == old(self).spec_has_headers()
                &&& final(self).spec_headers() == old(self).spec_headers()
                &&& data.len() == 0 ==> final(self).spec_total() == old(self).spec_total()
                    && final(self).spec_malformed() == old(self).spec_malformed()
                    && r.rows.deep_view() == Seq::<Seq<Seq<char>>>::empty()
                &&& data.len() > 0 ==> final(self).spec_total() == sat_add(
                    old(self).spec_total(),
                    recs.len(),
                ) && final(self).spec_malformed() == sat_add(
                    old(self).spec_malformed(),
                    misfit_count(old(self).spec_width(), recs),
                ) && r.rows.deep_view() == fit_rows(old(self).spec_width(), recs)
                    && final(self).spec_width() == width_after(old(self).spec_width(), recs)
                &&& r.headers.deep_view() == headers_or_empty(final(self).spec_headers())
                &&& r.malformed_count == final(self).spec_malformed()
                &&& r.total_rows == final(self).spec_total()
            }),
    {
        let mut rows: Vec<Vec<String>> = Vec::new();
        if self.remainder.len() > 0 {
            let (_, recs) = read_csv(self.remainder.as_slice(), self.delimiter, false);
            rows = self.absorb_records(None, &recs, false);
            self.remainder.clear();
        } else {
            assert(rows.deep_view() =~= Seq::<Seq<Seq<char>>>::empty());
        }
        assert(self.remainder@ =~= Seq::<u8>::empty());
        self.result(rows)
    }
}

/// Chunk splicing hands the reader whole lines only: the bytes up to the cut end with a
/// newline, and no newline is left in the bytes carried over.
pub proof fn lemma_cut_at_last_newline(data: Seq<u8>)
    ensures
        complete_prefix_len(data) <= data.len(),
        complete_prefix_len(data) == 0 || data[complete_prefix_len(data) - 1] == 10u8,
        forall|j: int| complete_prefix_len(data) <= j < data.len() ==> data[j] != 10u8,
        data.take(complete_prefix_len(data) as int) + data.skip(complete_prefix_len(data) as int)
            == data,
    decreases data.len(),
{
    if data.len() > 0 && data.last() != 10u8 {
        let p = data.drop_last();
        lemma_cut_at_last_newline(p);
        assert forall|j: int| complete_prefix_len(data) <= j < data.len() implies data[j] != 10u8 by {
            if j < p.len() {
                assert(p[j] == data[j]);
            }
        }
    }
    assert(data.take(complete_prefix_len(data) as int) + data.skip(complete_prefix_len(data) as int)
        =~= data);
}

} // verus!
