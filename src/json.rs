//! Streaming parser for JSON arrays and line-delimited JSON, with nested flattening.
use vstd::prelude::*;
use crate::csv::{complete_prefix_len, copy_range, sat_add};
use crate::text::{decimal, decimal_text, string_of};
use crate::text::{chars_of, trim_chars, trim_start_spec, trimmed, is_ws_char};

verus! {

/// A parsed JSON document as plain values. Numbers keep their canonical text, arrays
/// and objects also keep their compact serialised text; object entries keep the order
/// in which the parser hands them out.
#[derive(Debug)]
pub enum JsonValue {
    Null,
    Bool(bool),
    Number(String),
    Text(String),
    Array(Vec<JsonValue>, String),
    Object(Vec<(String, JsonValue)>, String),
}

#[verifier::external_type_specification]
#[verifier::external_body]
pub struct ExSerdeValue(serde_json::Value);

/// What `serde_json` makes of a text: the document, or `None` where it rejects it.
pub uninterp spec fn json_of(text: Seq<char>) -> Option<JsonValue>;

/// What `String::from_utf8_lossy` makes of bytes.
pub uninterp spec fn lossy_of(bytes: Seq<u8>) -> Seq<char>;

/// Turns a `serde_json::Value` into a `JsonValue`, variant for variant; numbers and
/// compound values also take their `Display` text.
#[verifier::external_body]
pub(crate) fn from_serde(v: &serde_json::Value) -> JsonValue {
    match v {
        serde_json::Value::Null => JsonValue::Null,
        serde_json::Value::Bool(b) => JsonValue::Bool(*b),
        serde_json::Value::Number(n) => JsonValue::Number(n.to_string()),
        serde_json::Value::String(s) => JsonValue::Text(s.clone()),
        serde_json::Value::Array(a) => JsonValue::Array(a.iter().map(from_serde).collect(), v.to_string()),
        serde_json::Value::Object(m) => JsonValue::Object(
            m.iter().map(|(k, x)| (k.clone(), from_serde(x))).collect(),
            v.to_string(),
        ),
    }
}

/// Relies on `serde_json::from_str::<serde_json::Value>`: parsing depends on the text
/// alone.
#[verifier::external_body]
pub fn parse_json(text: &str) -> (r: Option<JsonValue>)
    ensures
        r == json_of(text@),
{
    match serde_json::from_str::<serde_json::Value>(text) {
        Ok(v) => Some(from_serde(&v)),
        Err(_) => None,
    }
}

/// Relies on `String::from_utf8_lossy`: the text depends on the bytes alone.
#[verifier::external_body]
pub fn utf8_lossy(bytes: &[u8]) -> (r: String)
    ensures
        r@ == lossy_of(bytes@),
{
    String::from_utf8_lossy(bytes).into_owned()
}

/// Length statistics of an array-valued field.
#[derive(Clone, Copy, Debug, Default)]
pub struct ArrayFieldStats {
    pub min_length: usize,
    pub max_length: usize,
    pub total_length: usize,
    pub count: usize,
}

impl ArrayFieldStats {
    /// Records one array of the given length.
    pub fn update(&mut self, length: usize)
        ensures
            final(self).count == (if old(self).count == usize::MAX {
                usize::MAX as int
            } else {
                old(self).count + 1
            }),
            final(self).total_length == (if old(self).total_length + length > usize::MAX {
                usize::MAX as int
            } else {
                old(self).total_length + length
            }),
            final(self).min_length == (if old(self).count == 0 || length < old(self).min_length {
                length
            } else {
                old(self).min_length
            }),
            final(self).max_length == (if old(self).count == 0 || length > old(self).max_length {
                length
            } else {
                old(self).max_length
            }),
    {
        if self.count == 0 {
            self.min_length = length;
            self.max_length = length;
        } else {
            if length < self.min_length {
                self.min_length = length;
            }
            if length > self.max_length {
                self.max_length = length;
            }
        }
        self.total_length = if length > usize::MAX - self.total_length {
            usize::MAX
        } else {
            self.total_length + length
        };
        if self.count < usize::MAX {
            self.count = self.count + 1;
        }
    }
}

/// The container format of a JSON source.
#[derive(Clone, Copy, Debug, PartialEq, Eq, Structural)]
pub enum JsonFormat {
    JsonArray,
    JsonLines,
    Unknown,
}

/// The shape of the items of a JSON source.
#[derive(Clone, Copy, Debug, PartialEq, Eq, Structural)]
pub enum JsonStructure {
    ArrayOfObjects,
    ArrayOfArrays,
    ArrayOfPrimitives,
    MixedArray,
    NewlineDelimitedObjects,
    SingleObject,
    Unknown,
}

/// Limits of nested flattening.
#[derive(Clone, Copy, Debug)]
pub struct JsonParserConfig {
    pub max_nested_depth: usize,
    pub max_keys_per_object: usize,
}

impl Default for JsonParserConfig {
    /// Depth 3 and at most 500 columns.
    fn default() -> (r: Self)
        ensures
            r.max_nested_depth == 3,
            r.max_keys_per_object == 500,
    {
        JsonParserConfig { max_nested_depth: 3, max_keys_per_object: 500 }
    }
}

/// The batch a JSON parser hands back.
#[derive(Debug)]
pub struct JsonParseResult {
    pub headers: Vec<String>,
    pub rows: Vec<Vec<String>>,
    pub malformed_count: u32,
    pub total_rows: u32,
    pub format: JsonFormat,
    pub structure: JsonStructure,
    pub array_stats: Vec<(String, ArrayFieldStats)>,
}

/// The format that a source's first non-blank character announces.
pub open spec fn detected_format(s: Seq<char>) -> JsonFormat {
    let t = trim_start_spec(s);
    if t.len() > 0 && t[0] == '[' {
        JsonFormat::JsonArray
    } else if t.len() > 0 && t[0] == '{' {
        JsonFormat::JsonLines
    } else {
        JsonFormat::Unknown
    }
}

/// Shape category of one item.
pub open spec fn item_structure(v: JsonValue) -> JsonStructure {
    match v {
        JsonValue::Object(..) => JsonStructure::ArrayOfObjects,
        JsonValue::Array(..) => JsonStructure::ArrayOfArrays,
        _ => JsonStructure::ArrayOfPrimitives,
    }
}

/// The shape after one more item: the first item sets it, an item of another category
/// makes it mixed for good. Line-delimited sources follow the item alone.
pub open spec fn next_structure(format: JsonFormat, current: JsonStructure, v: JsonValue) -> JsonStructure {
    if format == JsonFormat::JsonLines {
        if v is Object {
            JsonStructure::NewlineDelimitedObjects
        } else {
            JsonStructure::Unknown
        }
    } else {
        match current {
            JsonStructure::Unknown => item_structure(v),
            JsonStructure::ArrayOfObjects | JsonStructure::ArrayOfArrays
            | JsonStructure::ArrayOfPrimitives => if item_structure(v) != current {
                JsonStructure::MixedArray
            } else {
                current
            },
            _ => current,
        }
    }
}

/// Scanner state while looking for the end of a top-level item.
pub struct ScanState {
    pub obj: int,
    pub arr: int,
    pub in_string: bool,
    pub escape: bool,
}

pub open spec fn scan_step(st: ScanState, c: u8) -> ScanState {
    if st.escape {
        ScanState { escape: false, ..st }
    } else if st.in_string {
        if c == 92u8 {
            ScanState { escape: true, ..st }
        } else if c == 34u8 {
            ScanState { in_string: false, ..st }
        } else {
            st
        }
    } else if c == 34u8 {
        ScanState { in_string: true, ..st }
    } else if c == 123u8 {
        ScanState { obj: st.obj + 1, ..st }
    } else if c == 125u8 {
        ScanState { obj: st.obj - 1, ..st }
    } else if c == 91u8 {
        ScanState { arr: st.arr + 1, ..st }
    } else if c == 93u8 && st.arr > 0 {
        ScanState { arr: st.arr - 1, ..st }
    } else {
        st
    }
}

/// Scanner state after the bytes of `s`.
pub open spec fn scan(s: Seq<u8>) -> ScanState
    decreases s.len(),
{
    if s.len() == 0 {
        ScanState { obj: 0, arr: 0, in_string: false, escape: false }
    } else {
        scan_step(scan(s.drop_last()), s.last())
    }
}

/// Whether byte `i` of `s` ends a top-level item: a `,` or `]` outside strings and
/// outside any bracket.
pub open spec fn separator_at(s: Seq<u8>, i: int) -> bool {
    let st = scan(s.take(i));
    0 <= i < s.len() && !st.escape && !st.in_string && st.obj == 0 && st.arr == 0 && (s[i]
        == 44u8 || s[i] == 93u8)
}

/// Whether `b` is ASCII whitespace as `char::is_whitespace` sees it.
pub open spec fn is_blank(b: u8) -> bool {
    b == 32u8 || (9u8 <= b && b <= 13u8)
}

/// Streaming parser for JSON arrays and line-delimited JSON that flattens each item
/// into a row of strings under dotted column names.
pub struct JsonParser {
    config: JsonParserConfig,
    format: JsonFormat,
    structure: JsonStructure,
    headers: Vec<String>,
    malformed_count: u32,
    total_rows: u32,
    remainder: Vec<u8>,
    array_stats: Vec<(String, ArrayFieldStats)>,
    in_array: bool,
    closed: bool,
}

impl JsonParser {
    pub closed spec fn spec_format(&self) -> JsonFormat {
        self.format
    }

    pub closed spec fn spec_structure(&self) -> JsonStructure {
        self.structure
    }

    /// Column names discovered so far, in discovery order.
    pub closed spec fn spec_headers(&self) -> Seq<Seq<char>> {
        self.headers.deep_view()
    }

    pub closed spec fn spec_malformed(&self) -> u32 {
        self.malformed_count
    }

    pub closed spec fn spec_total(&self) -> u32 {
        self.total_rows
    }

    pub closed spec fn spec_config(&self) -> JsonParserConfig {
        self.config
    }

    /// Array-valued fields with their statistics.
    pub closed spec fn spec_array_fields(&self) -> Seq<Seq<char>> {
        self.array_stats@.map_values(|e: (String, ArrayFieldStats)| e.0@)
    }

    pub closed spec fn spec_remainder(&self) -> Seq<u8> {
        self.remainder@
    }

    /// Whether the opening `[` of an array source has been read.
    pub closed spec fn spec_inside(&self) -> bool {
        self.in_array
    }

    /// Whether the closing `]` of an array source has been read.
    pub closed spec fn spec_closed(&self) -> bool {
        self.closed
    }

    pub closed spec fn wf(&self) -> bool {
        &&& self.headers.deep_view().no_duplicates()
        &&& self.spec_array_fields().no_duplicates()
    }

    pub fn new(config: Option<JsonParserConfig>) -> (r: Self)
        ensures
            r.wf(),
            r.spec_format() == JsonFormat::Unknown,
            r.spec_structure() == JsonStructure::Unknown,
            r.spec_headers() == Seq::<Seq<char>>::empty(),
            r.spec_malformed() == 0,
            r.spec_total() == 0,
            r.spec_config() == (match config {
                Some(c) => c,
                None => JsonParserConfig { max_nested_depth: 3, max_keys_per_object: 500 },
            }),
    {
        let r = JsonParser {
            config: match config {
                Some(c) => c,
                None => JsonParserConfig::default(),
            },
            format: JsonFormat::Unknown,
            structure: JsonStructure::Unknown,
            headers: Vec::new(),
            malformed_count: 0,
            total_rows: 0,
            remainder: Vec::new(),
            array_stats: Vec::new(),
            in_array: false,
            closed: false,
        };
        assert(r.headers.deep_view() =~= Seq::<Seq<char>>::empty());
        assert(r.spec_array_fields() =~= Seq::<Seq<char>>::empty());
        r
    }

    /// The container format that the start of `data` announces: `[` an array, `{`
    /// line-delimited objects (a single object counts as one line), else unknown.
    pub fn auto_detect_format(data: &str) -> (r: JsonFormat)
        ensures
            r == detected_format(data@),
    {
        let cs = chars_of(data);
        let n = cs.len();
        let mut i: usize = 0;
        assert(cs@.subrange(0, n as int) == cs@);
        while i < n && is_ws_char(cs[i])
            invariant
                i <= n,
                n == cs@.len(),
                cs@ == data@,
                trim_start_spec(cs@) == trim_start_spec(cs@.subrange(i as int, n as int)),
            decreases n - i,
        {
            proof {
                let t = cs@.subrange(i as int, n as int);
                assert(t.drop_first() == cs@.subrange(i + 1, n as int));
            }
            i = i + 1;
        }
        proof {
            assert(cs@.subrange(0, n as int) == cs@);
        }
        if i < n && cs[i] == '[' {
            JsonFormat::JsonArray
        } else if i < n && cs[i] == '{' {
            JsonFormat::JsonLines
        } else {
            JsonFormat::Unknown
        }
    }

    pub fn set_format(&mut self, format: JsonFormat)
        ensures
            final(self).spec_format() == format,
            final(self).spec_structure() == old(self).spec_structure(),
            final(self).spec_headers() == old(self).spec_headers(),
            final(self).spec_total() == old(self).spec_total(),
            final(self).spec_malformed() == old(self).spec_malformed(),
            final(self).spec_config() == old(self).spec_config(),
            final(self).spec_array_fields() == old(self).spec_array_fields(),
            old(self).wf() ==> final(self).wf(),
    {
        self.format = format;
    }

    pub fn get_format(&self) -> (r: JsonFormat)
        ensures
            r == self.spec_format(),
    {
        self.format
    }

    /// Array-valued fields with their length statistics, in discovery order.
    pub fn get_array_stats(&self) -> (r: &Vec<(String, ArrayFieldStats)>)
        ensures
            r@.map_values(|e: (String, ArrayFieldStats)| e.0@) == self.spec_array_fields(),
    {
        &self.array_stats
    }

    /// Position of the first byte that ends a top-level item, and whether it is the
    /// closing `]` of the container.
    pub fn find_next_value_separator(s: &[u8]) -> (r: Option<(usize, bool)>)
        ensures
            r matches Some((i, closing)) ==> separator_at(s@, i as int) && closing == (s@[i as int]
                == 93u8) && forall|j: int| 0 <= j < i ==> !separator_at(s@, j),
            r is None ==> forall|j: int| 0 <= j < s@.len() ==> !separator_at(s@, j),
    {
        assert(s@.skip(0) == s@);
        match separator_from(s, 0) {
            Some(i) => Some((i, s[i] == 93u8)),
            None => None,
        }
    }

    /// Position of `key` among the headers, adding it at the end when absent.
    fn ensure_header(&mut self, key: &String) -> (r: usize)
        requires
            old(self).wf(),
        ensures
            final(self).wf(),
            r < final(self).spec_headers().len(),
            final(self).spec_headers()[r as int] == key@,
            old(self).spec_headers().contains(key@) ==> final(self).spec_headers()
                == old(self).spec_headers(),
            !old(self).spec_headers().contains(key@) ==> final(self).spec_headers()
                == old(self).spec_headers().push(key@),
            final(self).spec_format() == old(self).spec_format(),
            final(self).spec_structure() == old(self).spec_structure(),
            final(self).spec_total() == old(self).spec_total(),
            final(self).spec_malformed() == old(self).spec_malformed(),
            final(self).spec_config() == old(self).spec_config(),
            final(self).spec_array_fields() == old(self).spec_array_fields(),
            final(self).same_state(old(self)),
            extends(old(self).spec_headers(), final(self).spec_headers()),
    {
        match self.header_index(key) {
            Some(i) => {
                assert(self.headers.deep_view().take(self.headers@.len() as int) =~= self.headers.deep_view());
                i
            },
            None => {
                let ghost before = self.headers.deep_view();
                self.headers.push(key.clone());
                proof {
                    assert(self.headers.deep_view() =~= before.push(key@));
                    assert(self.headers.deep_view().take(before.len() as int) =~= before);
                    assert forall|a: int, b: int|
                        0 <= a < b < self.headers.deep_view().len() implies
                        self.headers.deep_view()[a] != self.headers.deep_view()[b] by {
                        if b == before.len() {
                            assert(before.contains(before[a]));
                        }
                    }
                }
                self.headers.len() - 1
            },
        }
    }

    fn header_index(&self, key: &String) -> (r: Option<usize>)
        ensures
            r matches Some(i) ==> i < self.spec_headers().len() && self.spec_headers()[i as int]
                == key@,
            r is None ==> !self.spec_headers().contains(key@),
    {
        let mut i: usize = 0;
        while i < self.headers.len()
            invariant
                i <= self.headers@.len(),
                forall|k: int| 0 <= k < i ==> self.headers.deep_view()[k] != key@,
            decreases self.headers@.len() - i,
        {
            if self.headers[i] == *key {
                assert(self.headers.deep_view()[i as int] == key@);
                return Some(i);
            }
            i = i + 1;
        }
        None
    }

    /// The batch result with the parser's state and these rows.
    fn create_result(&self, rows: Vec<Vec<String>>) -> (r: JsonParseResult)
        ensures
            r.headers.deep_view() == self.spec_headers(),
            r.rows.deep_view() == rows.deep_view(),
            r.rows@ == rows@,
            r.malformed_count == self.spec_malformed(),
            r.total_rows == self.spec_total(),
            r.format == self.spec_format(),
            r.structure == self.spec_structure(),
    {
        JsonParseResult {
            headers: self.headers.clone(),
            rows,
            malformed_count: self.malformed_count,
            total_rows: self.total_rows,
            format: self.format,
            structure: self.structure,
            array_stats: self.array_stats.clone(),
        }
    }

    /// A result with no rows.
    fn create_empty_result(&self) -> (r: JsonParseResult)
        ensures
            r.headers.deep_view() == self.spec_headers(),
            r.rows@.len() == 0,
            r.malformed_count == self.spec_malformed(),
            r.total_rows == self.spec_total(),
            r.format == self.spec_format(),
            r.structure == self.spec_structure(),
    {
        self.create_result(Vec::new())
    }

    /// Moves the shape state on by one item.
    fn update_structure(&mut self, v: &JsonValue)
        ensures
            final(self).spec_structure() == next_structure(
                old(self).spec_format(),
                old(self).spec_structure(),
                *v,
            ),
            final(self).spec_format() == old(self).spec_format(),
            final(self).spec_headers() == old(self).spec_headers(),
            final(self).spec_total() == old(self).spec_total(),
            final(self).spec_malformed() == old(self).spec_malformed(),
            final(self).spec_config() == old(self).spec_config(),
            final(self).spec_array_fields() == old(self).spec_array_fields(),
            old(self).wf() ==> final(self).wf(),
            final(self).remainder@ == old(self).remainder@,
            final(self).in_array == old(self).in_array,
            final(self).closed == old(self).closed,
    {
        if self.format == JsonFormat::JsonLines {
            self.structure = match v {
                JsonValue::Object(..) => JsonStructure::NewlineDelimitedObjects,
                _ => JsonStructure::Unknown,
            };
            return;
        }
        let current = match v {
            JsonValue::Object(..) => JsonStructure::ArrayOfObjects,
            JsonValue::Array(..) => JsonStructure::ArrayOfArrays,
            _ => JsonStructure::ArrayOfPrimitives,
        };
        match self.structure {
            JsonStructure::Unknown => {
                self.structure = current;
            },
            JsonStructure::ArrayOfObjects | JsonStructure::ArrayOfArrays
            | JsonStructure::ArrayOfPrimitives => {
                if current != self.structure {
                    self.structure = JsonStructure::MixedArray;
                }
            },
            _ => {},
        }
    }

    /// Everything but the headers and the array statistics is unchanged.
    closed spec fn same_state(&self, other: &JsonParser) -> bool {
        &&& self.format == other.format
        &&& self.structure == other.structure
        &&& self.malformed_count == other.malformed_count
        &&& self.total_rows == other.total_rows
        &&& self.config == other.config
        &&& self.remainder@ == other.remainder@
        &&& self.in_array == other.in_array
        &&& self.closed == other.closed
    }

    fn record_array(&mut self, key: &String, len: usize)
        requires
            old(self).wf(),
        ensures
            final(self).wf(),
            final(self).same_state(old(self)),
            final(self).headers@ == old(self).headers@,
    {
        let mut i: usize = 0;
        while i < self.array_stats.len()
            invariant
                self.wf(),
                self.same_state(old(self)),
                self.headers@ == old(self).headers@,
                self.array_stats@ == old(self).array_stats@,
                i <= self.array_stats@.len(),
                forall|k: int| 0 <= k < i ==> self.spec_array_fields()[k] != key@,
            decreases self.array_stats@.len() - i,
        {
            if self.array_stats[i].0 == *key {
                let name = self.array_stats[i].0.clone();
                let mut stats = self.array_stats[i].1;
                stats.update(len);
                let ghost before = self.array_stats@;
                let ghost fields = self.spec_array_fields();
                self.array_stats.set(i, (name, stats));
                proof {
                    assert forall|k: int| 0 <= k < fields.len() implies #[trigger] self.spec_array_fields()[k] == fields[k] by {
                        if k != i {
                            assert(self.array_stats@[k] == before[k]);
                        }
                    }
                    assert(self.spec_array_fields() =~= fields);
                }
                return;
            }
            i = i + 1;
        }
        let mut stats = ArrayFieldStats { min_length: 0, max_length: 0, total_length: 0, count: 0 };
        stats.update(len);
        let ghost before = self.spec_array_fields();
        self.array_stats.push((key.clone(), stats));
        proof {
            assert(self.spec_array_fields() =~= before.push(key@));
            assert forall|a: int, b: int|
                0 <= a < b < self.spec_array_fields().len() implies self.spec_array_fields()[a]
                != self.spec_array_fields()[b] by {
                if b == before.len() {
                    assert(before[a] == self.spec_array_fields()[a]);
                    assert(before[a] != key@);
                }
            }
        }
    }

    /// Flattens the entries of an object under `prefix` into `output` as
    /// (dotted name, text) pairs, registering each name as a header. Objects nest until
    /// the depth limit and are serialised beyond it; arrays become a length marker. Once
    /// the header limit is reached, new names are dropped.
    fn flatten_recursive(
        &mut self,
        entries: &Vec<(String, JsonValue)>,
        prefix: &String,
        depth: usize,
        max_depth: usize,
        output: &mut Vec<(String, String)>,
    )
        requires
            old(self).wf(),
            max_depth == old(self).config.max_nested_depth,
        ensures
            final(self).wf(),
            final(self).same_state(old(self)),
            extends(old(self).spec_headers(), final(self).spec_headers()),
            capped(
                old(self).spec_headers().len(),
                final(self).spec_headers().len(),
                old(self).config.max_keys_per_object as nat,
            ),
            depth <= max_depth ==> forall|m: int|
                0 <= m < entries@.len() && leaf_entry(#[trigger] entries@[m], depth, max_depth)
                    && final(self).spec_headers().len() < old(self).config.max_keys_per_object
                    ==> final(self).spec_headers().contains(dotted(prefix@, entries@[m].0@)),
            out_grows(old(output)@, final(output)@),
            depth <= max_depth ==> forall|m: int|
                0 <= m < entries@.len() && leaf_entry(#[trigger] entries@[m], depth, max_depth)
                    ==> has_pair(
                    final(output)@,
                    dotted(prefix@, entries@[m].0@),
                    leaf_text(entries@[m].1),
                ) || (final(self).spec_headers().len() >= old(self).config.max_keys_per_object
                    && !old(self).spec_headers().contains(dotted(prefix@, entries@[m].0@))),
        decreases max_depth - depth,
    {
        proof {
            lemma_extends_refl(self.spec_headers());
        }
        if depth > max_depth {
            return;
        }
        let mut i: usize = 0;
        while i < entries.len()
            invariant
                self.wf(),
                self.same_state(old(self)),
                max_depth == self.config.max_nested_depth,
                depth <= max_depth,
                extends(old(self).spec_headers(), self.spec_headers()),
                capped(
                    old(self).spec_headers().len(),
                    self.spec_headers().len(),
                    old(self).config.max_keys_per_object as nat,
                ),
                i <= entries@.len(),
                forall|m: int|
                    0 <= m < i && leaf_entry(#[trigger] entries@[m], depth, max_depth)
                        && self.spec_headers().len() < old(self).config.max_keys_per_object
                        ==> self.spec_headers().contains(dotted(prefix@, entries@[m].0@)),
                out_grows(old(output)@, output@),
                forall|m: int|
                    0 <= m < i && leaf_entry(#[trigger] entries@[m], depth, max_depth) ==> has_pair(
                        output@,
                        dotted(prefix@, entries@[m].0@),
                        leaf_text(entries@[m].1),
                    ) || (self.spec_headers().len() >= old(self).config.max_keys_per_object
                        && !old(self).spec_headers().contains(dotted(prefix@, entries@[m].0@))),
            decreases entries@.len() - i,
        {
            let key = &entries[i].0;
            let value = &entries[i].1;
            let full_key = if prefix.as_str().is_empty() {
                key.clone()
            } else {
                let mut k = prefix.clone();
                k.append(".");
                k.append(key.as_str());
                k
            };
            let ghost h0 = self.spec_headers();
            let ghost fk = full_key@;
            proof {
                reveal_strlit(".");
                assert(full_key@ == dotted(prefix@, key@));
            }
            let known = self.header_index(&full_key);
            let ghost out0 = output@;
            if self.headers.len() >= self.config.max_keys_per_object && known.is_none() {
                proof {
                    if old(self).spec_headers().contains(fk) {
                        lemma_extends_contains(old(self).spec_headers(), self.spec_headers(), fk);
                    }
                }
                i = i + 1;
                continue;
            }
            proof {
                if let Some(j) = known {
                    assert(self.spec_headers()[j as int] == full_key@);
                    assert(self.spec_headers().contains(full_key@));
                }
            }
            match value {
                JsonValue::Object(nested, text) => {
                    if depth < max_depth {
                        self.flatten_recursive(nested, &full_key, depth + 1, max_depth, output);
                    } else {
                        self.ensure_header(&full_key);
                        assert(self.spec_headers().contains(fk));
                        let ghost o1 = output@;
                        output.push((full_key, text.clone()));
                        proof {
                            reveal_strlit("true");
                            reveal_strlit("false");
                            assert(output@[o1.len() as int].0@ == fk);
                            assert(has_pair(output@, fk, leaf_text(*value)));
                        }
                    }
                },
                JsonValue::Array(items, _) => {
                    self.record_array(&full_key, items.len());
                    self.ensure_header(&full_key);
                    assert(self.spec_headers().contains(fk));
                    let mut marker = String::from_str("[array:");
                    let n = decimal_text(items.len() as u64);
                    marker.append(n.as_str());
                    marker.append("]");
                    let ghost o1 = output@;
                    output.push((full_key, marker));
                    proof {
                        reveal_strlit("true");
                        reveal_strlit("false");
                        assert(output@[o1.len() as int].0@ == fk);
                        assert(has_pair(output@, fk, leaf_text(*value)));
                    }
                },
                JsonValue::Null => {
                    self.ensure_header(&full_key);
                    assert(self.spec_headers().contains(fk));
                    let ghost o1 = output@;
                    output.push((full_key, String::new()));
                    proof {
                        reveal_strlit("true");
                        reveal_strlit("false");
                        assert(output@[o1.len() as int].0@ == fk);
                        assert(has_pair(output@, fk, leaf_text(*value)));
                    }
                },
                JsonValue::Bool(b) => {
                    self.ensure_header(&full_key);
                    assert(self.spec_headers().contains(fk));
                    let ghost o1 = output@;
                    output.push((full_key, String::from_str(if *b { "true" } else { "false" })));
                    proof {
                        reveal_strlit("true");
                        reveal_strlit("false");
                        assert(output@[o1.len() as int].0@ == fk);
                        assert(has_pair(output@, fk, leaf_text(*value)));
                    }
                },
                JsonValue::Number(t) => {
                    self.ensure_header(&full_key);
                    assert(self.spec_headers().contains(fk));
                    let ghost o1 = output@;
                    output.push((full_key, t.clone()));
                    proof {
                        reveal_strlit("true");
                        reveal_strlit("false");
                        assert(output@[o1.len() as int].0@ == fk);
                        assert(has_pair(output@, fk, leaf_text(*value)));
                    }
                },
                JsonValue::Text(t) => {
                    self.ensure_header(&full_key);
                    assert(self.spec_headers().contains(fk));
                    let ghost o1 = output@;
                    output.push((full_key, t.clone()));
                    proof {
                        reveal_strlit("true");
                        reveal_strlit("false");
                        assert(output@[o1.len() as int].0@ == fk);
                        assert(has_pair(output@, fk, leaf_text(*value)));
                    }
                },
            }
            proof {
                lemma_extends_trans(old(self).spec_headers(), h0, self.spec_headers());
                assert(h0.len() <= self.spec_headers().len());
                assert forall|m: int|
                    0 <= m < i + 1 && leaf_entry(#[trigger] entries@[m], depth, max_depth)
                        implies has_pair(
                        output@,
                        dotted(prefix@, entries@[m].0@),
                        leaf_text(entries@[m].1),
                    ) || (self.spec_headers().len() >= old(self).config.max_keys_per_object
                        && !old(self).spec_headers().contains(dotted(prefix@, entries@[m].0@))) by {
                    if m < i {
                        if has_pair(out0, dotted(prefix@, entries@[m].0@), leaf_text(entries@[m].1)) {
                            lemma_pair_kept(
                                out0,
                                output@,
                                dotted(prefix@, entries@[m].0@),
                                leaf_text(entries@[m].1),
                            );
                        }
                    }
                }
                assert forall|m: int|
                    0 <= m < i + 1 && leaf_entry(#[trigger] entries@[m], depth, max_depth)
                        && self.spec_headers().len() < old(self).config.max_keys_per_object
                        implies self.spec_headers().contains(dotted(prefix@, entries@[m].0@)) by {
                    if m < i {
                        assert(h0.len() <= self.spec_headers().len());
                        lemma_extends_contains(h0, self.spec_headers(), dotted(prefix@, entries@[m].0@));
                    }
                }
            }
            i = i + 1;
        }
    }

    /// A row aligned to the headers: each pair's text under its header, empty elsewhere;
    /// a later pair for the same header wins.
    fn assemble_row(&self, output: &Vec<(String, String)>) -> (r: Vec<String>)
        requires
            self.wf(),
        ensures
            r@.len() == self.spec_headers().len(),
            forall|h: int|
                0 <= h < r@.len() ==> (#[trigger] r@[h])@ == cell_for(output@, self.spec_headers()[h]),
    {
        let mut row: Vec<String> = Vec::new();
        let mut j: usize = 0;
        while j < self.headers.len()
            invariant
                j <= self.headers@.len(),
                row@.len() == j,
                forall|h: int| 0 <= h < j ==> (#[trigger] row@[h])@ == Seq::<char>::empty(),
            decreases self.headers@.len() - j,
        {
            row.push(String::new());
            j = j + 1;
        }
        let mut i: usize = 0;
        assert(output@.take(0) =~= Seq::<(String, String)>::empty());
        while i < output.len()
            invariant
                self.wf(),
                i <= output@.len(),
                row@.len() == self.headers@.len(),
                forall|h: int|
                    0 <= h < row@.len() ==> (#[trigger] row@[h])@ == cell_for(
                        output@.take(i as int),
                        self.spec_headers()[h],
                    ),
            decreases output@.len() - i,
        {
            let ghost row0 = row@;
            proof {
                assert(output@.take(i + 1).drop_last() == output@.take(i as int));
                assert(output@.take(i + 1).last() == output@[i as int]);
            }
            match self.header_index(&output[i].0) {
                Some(idx) => {
                    row.set(idx, output[i].1.clone());
                    proof {
                        assert forall|h: int| 0 <= h < row@.len() implies (#[trigger] row@[h])@
                            == cell_for(output@.take(i + 1), self.spec_headers()[h]) by {
                            if h != idx {
                                assert(row@[h] == row0[h]);
                                assert(self.spec_headers()[h] != self.spec_headers()[idx as int]);
                            }
                        }
                    }
                },
                None => {
                    proof {
                        assert forall|h: int| 0 <= h < row@.len() implies (#[trigger] row@[h])@
                            == cell_for(output@.take(i + 1), self.spec_headers()[h]) by {
                            assert(self.spec_headers()[h] != output@[i as int].0@);
                        }
                    }
                },
            }
            i = i + 1;
        }
        assert(output@.take(i as int) == output@);
        row
    }

    /// Flattens one item into a row aligned to the headers. An object spreads over
    /// dotted column names; any other item fills the single column `value`.
    fn flatten_value(&mut self, v: &JsonValue) -> (r: Vec<String>)
        requires
            old(self).wf(),
        ensures
            final(self).wf(),
            final(self).same_state(old(self)),
            extends(old(self).spec_headers(), final(self).spec_headers()),
            r@.len() == final(self).spec_headers().len(),
            v is Object ==> capped(
                old(self).spec_headers().len(),
                final(self).spec_headers().len(),
                old(self).spec_config().max_keys_per_object as nat,
            ),
            v is Object ==> exists|out: Seq<(String, String)>|
                #[trigger] row_matches(r@, final(self).spec_headers(), out) && (forall|m: int|
                    0 <= m < v->Object_0@.len() && leaf_entry(
                        #[trigger] v->Object_0@[m],
                        0,
                        final(self).spec_config().max_nested_depth,
                    ) ==> has_pair(out, v->Object_0@[m].0@, leaf_text(v->Object_0@[m].1)) || (
                    final(self).spec_headers().len() >= final(self).spec_config().max_keys_per_object
                        && !old(self).spec_headers().contains(v->Object_0@[m].0@))),
            v is Object && final(self).spec_headers().len()
                < final(self).spec_config().max_keys_per_object ==> forall|m: int|
                0 <= m < v->Object_0@.len() && leaf_entry(
                    #[trigger] v->Object_0@[m],
                    0,
                    final(self).spec_config().max_nested_depth,
                ) ==> final(self).spec_headers().contains(v->Object_0@[m].0@),
            !(v is Object) ==> final(self).spec_headers().contains("value"@),
            !(v is Object) ==> r@[final(self).spec_headers().index_of("value"@)]@ == scalar_text(
                *v,
            ),
    {
        match v {
            JsonValue::Object(entries, _) => {
                let mut output: Vec<(String, String)> = Vec::new();
                let prefix = String::new();
                let max_depth = self.config.max_nested_depth;
                self.flatten_recursive(entries, &prefix, 0, max_depth, &mut output);
                let row = self.assemble_row(&output);
                proof {
                    assert forall|m: int|
                        0 <= m < entries@.len() implies dotted(prefix@, (#[trigger] entries@[m]).0@)
                        == entries@[m].0@ by {}
                    let out = output@;
                    assert(row_matches(row@, self.spec_headers(), out));
                }
                row
            },
            _ => {
                let key = String::from_str("value");
                let text = match v {
                    JsonValue::Text(s) => s.clone(),
                    JsonValue::Null => String::new(),
                    JsonValue::Number(t) => t.clone(),
                    JsonValue::Bool(b) => String::from_str(if *b { "true" } else { "false" }),
                    JsonValue::Array(_, t) => t.clone(),
                    JsonValue::Object(_, t) => t.clone(),
                };
                let ghost h0 = self.spec_headers();
                let idx = self.ensure_header(&key);
                proof {
                    if !h0.contains(key@) {
                        assert(self.spec_headers().take(h0.len() as int) =~= h0);
                    }
                    assert(extends(h0, self.spec_headers()));
                    assert(self.spec_headers().contains("value"@)) by {
                        assert(self.spec_headers()[idx as int] == key@);
                    }
                    let j = self.spec_headers().index_of("value"@);
                    assert(j == idx) by {
                        assert(self.spec_headers()[j] == key@);
                    }
                }
                let mut row: Vec<String> = Vec::new();
                let mut j: usize = 0;
                while j < self.headers.len()
                    invariant
                        j <= self.headers@.len(),
                        row@.len() == j,
                    decreases self.headers@.len() - j,
                {
                    row.push(String::new());
                    j = j + 1;
                }
                row.set(idx, text);
                row
            },
        }
    }
}

/// Whether the header count stayed within the column cap: it grew only up to the cap.
pub open spec fn capped(before: nat, after: nat, cap: nat) -> bool {
    after <= before || after <= cap
}

/// `prefix.key`, or `key` under an empty prefix.
pub open spec fn dotted(prefix: Seq<char>, key: Seq<char>) -> Seq<char> {
    if prefix.len() == 0 {
        key
    } else {
        prefix + "."@ + key
    }
}

/// The text a leaf value is written as: a string verbatim, a number's text, a boolean
/// as a word, null as nothing, an array as `[array:N]`, and an object (beyond the depth
/// limit) as its compact JSON text.
pub open spec fn leaf_text(v: JsonValue) -> Seq<char> {
    match v {
        JsonValue::Text(s) => s@,
        JsonValue::Number(t) => t@,
        JsonValue::Bool(b) => if b {
            "true"@
        } else {
            "false"@
        },
        JsonValue::Null => Seq::empty(),
        JsonValue::Array(items, _) => "[array:"@ + decimal(items@.len()) + "]"@,
        JsonValue::Object(_, t) => t@,
    }
}

/// Whether `out` holds the pair (`key`, `text`).
pub open spec fn has_pair(out: Seq<(String, String)>, key: Seq<char>, text: Seq<char>) -> bool {
    exists|j: int| 0 <= j < out.len() && #[trigger] out[j].0@ == key && out[j].1@ == text
}

/// The text of the last pair named `key` in `out`; empty when there is none.
pub open spec fn cell_for(out: Seq<(String, String)>, key: Seq<char>) -> Seq<char>
    decreases out.len(),
{
    if out.len() == 0 {
        Seq::empty()
    } else if out.last().0@ == key {
        out.last().1@
    } else {
        cell_for(out.drop_last(), key)
    }
}

/// Whether each cell of `row` is the text of the last pair in `out` named by its header.
pub open spec fn row_matches(row: Seq<String>, headers: Seq<Seq<char>>, out: Seq<(String, String)>) -> bool {
    row.len() == headers.len() && forall|h: int|
        0 <= h < row.len() ==> (#[trigger] row[h])@ == cell_for(out, headers[h])
}

/// Whether `b` keeps all of `a` in front.
pub open spec fn out_grows(a: Seq<(String, String)>, b: Seq<(String, String)>) -> bool {
    a.len() <= b.len() && forall|j: int| 0 <= j < a.len() ==> #[trigger] b[j] == a[j]
}

proof fn lemma_pair_kept(a: Seq<(String, String)>, b: Seq<(String, String)>, key: Seq<char>, text: Seq<char>)
    requires
        out_grows(a, b),
        has_pair(a, key, text),
    ensures
        has_pair(b, key, text),
{
    let j = choose|j: int| 0 <= j < a.len() && #[trigger] a[j].0@ == key && a[j].1@ == text;
    assert(b[j] == a[j]);
}

/// Whether an entry's value is written into one column: anything but an object, and an
/// object once the depth limit is reached.
pub open spec fn leaf_entry(e: (String, JsonValue), depth: usize, max_depth: usize) -> bool {
    !(e.1 is Object) || depth >= max_depth
}

proof fn lemma_extends_contains(a: Seq<Seq<char>>, b: Seq<Seq<char>>, x: Seq<char>)
    requires
        extends(a, b),
        a.contains(x),
    ensures
        b.contains(x),
{
    let w = choose|w: int| 0 <= w < a.len() && a[w] == x;
    assert(b.take(a.len() as int)[w] == b[w]);
}

/// Whether `b` starts with all of `a`.
pub open spec fn extends(a: Seq<Seq<char>>, b: Seq<Seq<char>>) -> bool {
    a.len() <= b.len() && b.take(a.len() as int) == a
}

proof fn lemma_extends_refl(a: Seq<Seq<char>>)
    ensures
        extends(a, a),
{
    assert(a.take(a.len() as int) =~= a);
}

proof fn lemma_extends_trans(a: Seq<Seq<char>>, b: Seq<Seq<char>>, c: Seq<Seq<char>>)
    requires
        extends(a, b),
        extends(b, c),
    ensures
        extends(a, c),
{
    assert(c.take(a.len() as int) =~= b.take(a.len() as int));
}

/// The text of a non-object item in the `value` column.
pub open spec fn scalar_text(v: JsonValue) -> Seq<char> {
    match v {
        JsonValue::Text(s) => s@,
        JsonValue::Null => Seq::empty(),
        JsonValue::Number(t) => t@,
        JsonValue::Bool(b) => if b { "true"@ } else { "false"@ },
        JsonValue::Array(_, t) => t@,
        JsonValue::Object(_, t) => t@,
    }
}

/// Position, counted from the start of `s`, of the first byte at or after `start` that
/// ends a top-level item beginning at `start`.
fn separator_from(s: &[u8], start: usize) -> (r: Option<usize>)
    requires
        start <= s@.len(),
    ensures
        r matches Some(i) ==> start <= i < s@.len() && separator_at(s@.skip(start as int), i - start)
            && forall|j: int| 0 <= j < i - start ==> !separator_at(s@.skip(start as int), j),
        r is None ==> forall|j: int|
            0 <= j < s@.len() - start ==> !separator_at(s@.skip(start as int), j),
{
    let ghost t = s@.skip(start as int);
    let mut obj: i128 = 0;
    let mut arr: i128 = 0;
    let mut in_string = false;
    let mut escape = false;
    let n = s.len();
    let mut i: usize = start;
    assert(t.take(0) =~= Seq::<u8>::empty());
    while i < n
        invariant
            n == s@.len(),
            t == s@.skip(start as int),
            start <= i <= n,
            -((i - start) as int) <= obj <= i - start,
            0 <= arr <= i - start,
            scan(t.take(i - start)) == (ScanState {
                obj: obj as int,
                arr: arr as int,
                in_string,
                escape,
            }),
            forall|j: int| 0 <= j < i - start ==> !separator_at(t, j),
        decreases n - i,
    {
        proof {
            assert(t.take(i - start + 1).drop_last() == t.take(i - start));
            assert(t.take(i - start + 1).last() == s@[i as int]);
            assert(t[i - start] == s@[i as int]);
        }
        let c = s[i];
        if !escape && !in_string && obj == 0 && arr == 0 && (c == 44u8 || c == 93u8) {
            return Some(i);
        }
        if escape {
            escape = false;
        } else if in_string {
            if c == 92u8 {
                escape = true;
            } else if c == 34u8 {
                in_string = false;
            }
        } else if c == 34u8 {
            in_string = true;
        } else if c == 123u8 {
            obj = obj + 1;
        } else if c == 125u8 {
            obj = obj - 1;
        } else if c == 91u8 {
            arr = arr + 1;
        } else if c == 93u8 && arr > 0 {
            arr = arr - 1;
        }
        i = i + 1;
    }
    None
}

fn blank_byte(b: u8) -> (r: bool)
    ensures
        r == is_blank(b),
{
    b == 32u8 || (9u8 <= b && b <= 13u8)
}

/// Rows never get narrower: a later row is at least as wide as an earlier one.
pub open spec fn widths_grow(rows: Seq<Vec<String>>) -> bool {
    forall|a: int, b: int| 0 <= a < b < rows.len() ==> (#[trigger] rows[a])@.len() <= (#[trigger] rows[b])@.len()
}

/// Rows no wider than the headers.
pub open spec fn rows_fit(rows: Seq<Vec<String>>, width: nat) -> bool {
    forall|i: int| 0 <= i < rows.len() ==> #[trigger] rows[i]@.len() <= width
}

impl JsonParser {
    /// Parses one item's text: a parsed item updates the shape and yields a row, a
    /// rejected one counts as malformed.
    fn take_item(&mut self, item: &[u8], rows: &mut Vec<Vec<String>>)
        requires
            old(self).wf(),
            rows_fit(old(rows)@, old(self).spec_headers().len()),
            widths_grow(old(rows)@),
        ensures
            final(self).wf(),
            extends(old(self).spec_headers(), final(self).spec_headers()),
            rows_fit(final(rows)@, final(self).spec_headers().len()),
            widths_grow(final(rows)@),
            object_or_rejected(item@) ==> capped(
                old(self).spec_headers().len(),
                final(self).spec_headers().len(),
                old(self).spec_config().max_keys_per_object as nat,
            ),
            final(self).spec_format() == old(self).spec_format(),
            final(self).spec_config() == old(self).spec_config(),
            final(self).remainder@ == old(self).remainder@,
            final(self).in_array == old(self).in_array,
            final(self).closed == old(self).closed,
            final(self).spec_total() == sat_add(
                old(self).spec_total(),
                (final(rows)@.len() - old(rows)@.len()) as nat,
            ),
            final(rows)@.len() == old(rows)@.len() + if json_of(lossy_of(item@)) is Some {
                1int
            } else {
                0
            },
            final(self).spec_malformed() == sat_add(
                old(self).spec_malformed(),
                if json_of(lossy_of(item@)) is None {
                    1nat
                } else {
                    0nat
                },
            ),
            final(self).spec_structure() == match json_of(lossy_of(item@)) {
                Some(v) => next_structure(old(self).spec_format(), old(self).spec_structure(), v),
                None => old(self).spec_structure(),
            },
    {
        proof {
            lemma_extends_refl(self.spec_headers());
        }
        let text = utf8_lossy(item);
        match parse_json(text.as_str()) {
            Some(v) => {
                self.update_structure(&v);
                let row = self.flatten_value(&v);
                let ghost rows0 = rows@;
                rows.push(row);
                proof {
                    assert forall|a: int, b: int| 0 <= a < b < rows@.len() implies (#[trigger] rows@[a])@.len()
                        <= (#[trigger] rows@[b])@.len() by {
                        if b == rows0.len() {
                            assert(rows@[a] == rows0[a]);
                        } else {
                            assert(rows@[a] == rows0[a]);
                            assert(rows@[b] == rows0[b]);
                        }
                    }
                }
                if self.total_rows < u32::MAX {
                    self.total_rows = self.total_rows + 1;
                }
            },
            None => {
                if self.malformed_count < u32::MAX {
                    self.malformed_count = self.malformed_count + 1;
                }
            },
        }
    }

    /// Items of an array source: after the opening `[`, each top-level item up to the
    /// next separator is parsed; the closing `]` ends the source and later bytes are
    /// ignored. An unfinished item waits for more bytes.
    fn parse_json_array_chunk(&mut self) -> (r: JsonParseResult)
        requires
            old(self).wf(),
        ensures
            final(self).wf(),
            extends(old(self).spec_headers(), final(self).spec_headers()),
            rows_fit(r.rows@, final(self).spec_headers().len()),
            widths_grow(r.rows@),
            final(self).spec_format() == old(self).spec_format(),
            final(self).spec_config() == old(self).spec_config(),
            final(self).spec_malformed() >= old(self).spec_malformed(),
            final(self).spec_total() == sat_add(old(self).spec_total(), r.rows@.len()),
            old(self).spec_closed() ==> r.rows@.len() == 0 && final(self).spec_malformed()
                == old(self).spec_malformed() && final(self).spec_structure() == old(self).spec_structure(),
            !old(self).spec_closed() && array_body_start(
                old(self).spec_remainder(),
                old(self).spec_inside(),
            ) is None ==> r.rows@.len() == 0 && final(self).spec_malformed() == old(self).spec_malformed() && final(self).spec_structure() == old(self).spec_structure()
                && final(self).spec_remainder() == old(self).spec_remainder(),
            !old(self).spec_closed() ==> (array_body_start(
                old(self).spec_remainder(),
                old(self).spec_inside(),
            ) matches Some(b) ==> ({
                let items = array_items(old(self).spec_remainder(), b);
                &&& object_items(items) ==> capped(
                    old(self).spec_headers().len(),
                    final(self).spec_headers().len(),
                    old(self).spec_config().max_keys_per_object as nat,
                )
                &&& r.rows@.len() == parsed_items(items)
                &&& final(self).spec_malformed() == sat_add(
                    old(self).spec_malformed(),
                    rejected_items(items),
                )
                &&& final(self).spec_structure() == structure_after(
                    old(self).spec_format(),
                    old(self).spec_structure(),
                    items,
                )
            })),
            r.headers.deep_view() == final(self).spec_headers(),
            r.total_rows == final(self).spec_total(),
            r.malformed_count == final(self).spec_malformed(),
            r.format == final(self).spec_format(),
            r.structure == final(self).spec_structure(),
    {
        proof {
            lemma_extends_refl(self.spec_headers());
        }
        let mut rows: Vec<Vec<String>> = Vec::new();
        if self.closed {
            self.remainder = Vec::new();
            return self.create_result(rows);
        }
        let data = self.remainder.clone();
        let n = data.len();
        let mut pos: usize = 0;
        if !self.in_array {
            while pos < n && data[pos] != 91u8
                invariant
                    pos <= n,
                    n == data@.len(),
                    forall|j: int| 0 <= j < pos ==> data@[j] != 91u8,
                decreases n - pos,
            {
                pos = pos + 1;
            }
            if pos == n {
                return self.create_result(rows);
            }
            proof {
                let c = choose|i: int|
                    0 <= i < data@.len() && data@[i] == 91u8 && forall|j: int|
                        0 <= j < i ==> data@[j] != 91u8;
                assert(exists|i: int| 0 <= i < data@.len() && data@[i] == 91u8);
                if c < pos {
                } else if c > pos {
                    assert(data@[pos as int] != 91u8);
                }
                assert(array_body_start(data@, false) == Some(pos + 1));
            }
            pos = pos + 1;
            self.in_array = true;
        }
        let ghost b = pos as int;
        let ghost done: Seq<Seq<u8>> = Seq::empty();
        let ghost m0 = self.spec_malformed();
        let ghost st0 = self.spec_structure();
        assert(done + array_items(data@, b) =~= array_items(data@, b));
        assert(sat_add(m0, 0) == m0);
        loop
            invariant_except_break
                !self.closed,
                array_items(data@, b) == done + array_items(data@, pos as int),
            invariant
                self.wf(),
                extends(old(self).spec_headers(), self.spec_headers()),
                rows_fit(rows@, self.spec_headers().len()),
                widths_grow(rows@),
                self.spec_format() == old(self).spec_format(),
                self.spec_config() == old(self).spec_config(),
                self.spec_malformed() >= old(self).spec_malformed(),
                self.spec_total() == sat_add(old(self).spec_total(), rows@.len()),
                n == data@.len(),
                pos <= n,
                rows@.len() == parsed_items(done),
                object_items(done) ==> capped(
                    old(self).spec_headers().len(),
                    self.spec_headers().len(),
                    old(self).spec_config().max_keys_per_object as nat,
                ),
                self.spec_malformed() == sat_add(m0, rejected_items(done)),
                self.spec_structure() == structure_after(old(self).spec_format(), st0, done),
            ensures
                array_items(data@, b) == done,
                object_items(done) ==> capped(
                    old(self).spec_headers().len(),
                    self.spec_headers().len(),
                    old(self).spec_config().max_keys_per_object as nat,
                ),
                rows@.len() == parsed_items(done),
                self.spec_malformed() == sat_add(m0, rejected_items(done)),
                self.spec_structure() == structure_after(old(self).spec_format(), st0, done),
            decreases n - pos,
        {
            let ghost start = pos as int;
            while pos < n && blank_byte(data[pos])
                invariant
                    start <= pos <= n,
                    n == data@.len(),
                    blank_end(data@, start) == blank_end(data@, pos as int),
                decreases n - pos,
            {
                pos = pos + 1;
            }
            assert(blank_end(data@, pos as int) == pos);
            if pos == n {
                assert(array_items(data@, start) =~= Seq::<Seq<u8>>::empty());
                assert(done + Seq::<Seq<u8>>::empty() =~= done);
                break;
            }
            if data[pos] == 93u8 {
                assert(array_items(data@, start) =~= Seq::<Seq<u8>>::empty());
                assert(done + Seq::<Seq<u8>>::empty() =~= done);
                pos = pos + 1;
                self.in_array = false;
                self.closed = true;
                break;
            }
            let mut a = pos;
            if data[pos] == 44u8 {
                a = pos + 1;
                while a < n && blank_byte(data[a])
                    invariant
                        pos < a <= n,
                        n == data@.len(),
                        blank_end(data@, pos + 1) == blank_end(data@, a as int),
                    decreases n - a,
                {
                    a = a + 1;
                }
                assert(blank_end(data@, a as int) == a);
            }
            match separator_from(data.as_slice(), a) {
                Some(end) => {
                    proof {
                        if a == pos {
                            assert(data@.skip(a as int)[0] == data@[a as int]);
                            assert(!separator_at(data@.skip(a as int), 0));
                        }
                        lemma_separator_found(data@, a as int, a as int, end as int);
                    }
                    assert(end > pos);
                    let item = copy_range(data.as_slice(), a, end);
                    let ghost h0 = self.spec_headers();
                    let ghost old_done = done;
                    self.take_item(item.as_slice(), &mut rows);
                    proof {
                        lemma_extends_trans(old(self).spec_headers(), h0, self.spec_headers());
                        done = done.push(item@);
                        assert(done.drop_last() == old_done);
                        if object_items(done) {
                            assert forall|k: int| 0 <= k < old_done.len() implies object_or_rejected(
                                #[trigger] old_done[k],
                            ) by {
                                assert(done[k] == old_done[k]);
                            }
                            assert(done[old_done.len() as int] == item@);
                        }
                        assert(array_items(data@, start) == seq![item@] + array_items(data@, end as int));
                        assert(old_done + (seq![item@] + array_items(data@, end as int))
                            =~= done + array_items(data@, end as int));
                        lemma_sat_add_twice(
                            m0,
                            rejected_items(old_done),
                            if json_of(lossy_of(item@)) is None {
                                1nat
                            } else {
                                0nat
                            },
                        );
                    }
                    pos = end;
                },
                None => {
                    proof {
                        lemma_separator_absent(data@, a as int, a as int);
                        assert(array_items(data@, start) =~= Seq::<Seq<u8>>::empty());
                        assert(done + Seq::<Seq<u8>>::empty() =~= done);
                    }
                    break;
                },
            }
        }
        self.remainder = if self.closed {
            Vec::new()
        } else {
            copy_range(data.as_slice(), pos, n)
        };
        self.create_result(rows)
    }

    /// Items of a line-delimited source: each complete non-blank line is one item; an
    /// unterminated last line waits for more bytes.
    fn parse_jsonl_chunk(&mut self) -> (r: JsonParseResult)
        requires
            old(self).wf(),
        ensures
            r.rows@.len() == parsed_lines(complete_lines(old(self).spec_remainder())),
            final(self).spec_malformed() == sat_add(
                old(self).spec_malformed(),
                rejected_lines(complete_lines(old(self).spec_remainder())),
            ),
            final(self).spec_remainder() == old(self).spec_remainder().skip(
                complete_prefix_len(old(self).spec_remainder()) as int,
            ),
            final(self).wf(),
            extends(old(self).spec_headers(), final(self).spec_headers()),
            rows_fit(r.rows@, final(self).spec_headers().len()),
            widths_grow(r.rows@),
            final(self).spec_format() == old(self).spec_format(),
            final(self).spec_config() == old(self).spec_config(),
            final(self).spec_malformed() >= old(self).spec_malformed(),
            final(self).spec_total() == sat_add(old(self).spec_total(), r.rows@.len()),
            r.headers.deep_view() == final(self).spec_headers(),
            r.total_rows == final(self).spec_total(),
            r.malformed_count == final(self).spec_malformed(),
            r.format == final(self).spec_format(),
            r.structure == final(self).spec_structure(),
    {
        proof {
            lemma_extends_refl(self.spec_headers());
        }
        if self.structure == JsonStructure::Unknown {
            self.structure = JsonStructure::NewlineDelimitedObjects;
        }
        let mut rows: Vec<Vec<String>> = Vec::new();
        let data = self.remainder.clone();
        let n = data.len();
        let mut pos: usize = 0;
        assert(data@.take(0) =~= Seq::<u8>::empty());
        assert(sat_add(self.spec_malformed(), 0) == self.spec_malformed());
        loop
            invariant
                self.wf(),
                extends(old(self).spec_headers(), self.spec_headers()),
                rows_fit(rows@, self.spec_headers().len()),
                widths_grow(rows@),
                self.spec_format() == old(self).spec_format(),
                self.spec_config() == old(self).spec_config(),
                self.spec_malformed() >= old(self).spec_malformed(),
                self.spec_total() == sat_add(old(self).spec_total(), rows@.len()),
                n == data@.len(),
                data@ == old(self).remainder@,
                pos <= n,
                pos == 0 || data@[pos - 1] == 10u8,
                rows@.len() == parsed_lines(complete_lines(data@.take(pos as int))),
                self.spec_malformed() == sat_add(
                    old(self).spec_malformed(),
                    rejected_lines(complete_lines(data@.take(pos as int))),
                ),
            ensures
                complete_lines(data@) == complete_lines(data@.take(pos as int)),
                complete_prefix_len(data@) == pos,
            decreases n - pos,
        {
            let mut nl = pos;
            while nl < n && data[nl] != 10u8
                invariant
                    pos <= nl <= n,
                    n == data@.len(),
                    forall|j: int| pos <= j < nl ==> data@[j] != 10u8,
                decreases n - nl,
            {
                nl = nl + 1;
            }
            if nl == n {
                proof {
                    lemma_prefix_at_line_start(data@, pos as int);
                    lemma_lines_ignore_tail(data@, pos as int);
                }
                break;
            }
            let ghost h0 = self.spec_headers();
            let ghost m0 = self.spec_malformed();
            let ghost lines0 = complete_lines(data@.take(pos as int));
            self.take_line(data.as_slice(), pos, nl, &mut rows);
            proof {
                lemma_extends_trans(old(self).spec_headers(), h0, self.spec_headers());
                lemma_lines_push(data@, pos as int, nl as int);
                let lines1 = complete_lines(data@.take(nl + 1));
                assert(lines1.drop_last() == lines0);
                let t = line_text(data@.subrange(pos as int, nl as int));
                lemma_sat_add_twice(
                    old(self).spec_malformed(),
                    rejected_lines(lines0),
                    if t.len() > 0 && json_of(t) is None {
                        1nat
                    } else {
                        0nat
                    },
                );
            }
            pos = nl + 1;
        }
        self.remainder = copy_range(data.as_slice(), pos, n);
        self.create_result(rows)
    }

    /// Parses bytes `from..to` of `data` as one line, unless blank.
    fn take_line(&mut self, data: &[u8], from: usize, to: usize, rows: &mut Vec<Vec<String>>)
        requires
            old(self).wf(),
            from <= to <= data@.len(),
            rows_fit(old(rows)@, old(self).spec_headers().len()),
            widths_grow(old(rows)@),
        ensures
            final(self).wf(),
            extends(old(self).spec_headers(), final(self).spec_headers()),
            rows_fit(final(rows)@, final(self).spec_headers().len()),
            widths_grow(final(rows)@),
            final(self).spec_format() == old(self).spec_format(),
            final(self).spec_config() == old(self).spec_config(),
            final(self).remainder@ == old(self).remainder@,
            final(self).in_array == old(self).in_array,
            final(self).closed == old(self).closed,
            final(self).spec_total() == sat_add(
                old(self).spec_total(),
                (final(rows)@.len() - old(rows)@.len()) as nat,
            ),
            ({
                let t = line_text(data@.subrange(from as int, to as int));
                &&& final(rows)@.len() == old(rows)@.len() + if t.len() > 0 && json_of(t) is Some {
                    1int
                } else {
                    0
                }
                &&& final(self).spec_malformed() == sat_add(
                    old(self).spec_malformed(),
                    if t.len() > 0 && json_of(t) is None {
                        1nat
                    } else {
                        0nat
                    },
                )
            }),
    {
        proof {
            lemma_extends_refl(self.spec_headers());
        }
        let line = copy_range(data, from, to);
        let text = utf8_lossy(line.as_slice());
        let cs = chars_of(text.as_str());
        let t = trim_chars(cs.as_slice());
        if t.len() == 0 {
            proof {
                lemma_extends_refl(self.spec_headers());
            }
            return;
        }
        let trimmed_text = string_of(t.as_slice());
        match parse_json(trimmed_text.as_str()) {
            Some(v) => {
                self.update_structure(&v);
                let row = self.flatten_value(&v);
                let ghost rows0 = rows@;
                rows.push(row);
                proof {
                    assert forall|a: int, b: int| 0 <= a < b < rows@.len() implies (#[trigger] rows@[a])@.len()
                        <= (#[trigger] rows@[b])@.len() by {
                        if b == rows0.len() {
                            assert(rows@[a] == rows0[a]);
                        } else {
                            assert(rows@[a] == rows0[a]);
                            assert(rows@[b] == rows0[b]);
                        }
                    }
                }
                if self.total_rows < u32::MAX {
                    self.total_rows = self.total_rows + 1;
                }
            },
            None => {
                proof {
                    lemma_extends_refl(self.spec_headers());
                }
                if self.malformed_count < u32::MAX {
                    self.malformed_count = self.malformed_count + 1;
                }
            },
        }
    }

    /// Parses a chunk: its bytes join the carried ones, the format is detected on first
    /// use, and the complete items are parsed. Headers only grow; every emitted row is
    /// counted in `total_rows` (which holds at `u32::MAX`).
    #[verifier::rlimit(60)]
    pub fn parse_chunk(&mut self, chunk: &[u8]) -> (r: JsonParseResult)
        requires
            old(self).wf(),
        ensures
            final(self).wf(),
            extends(old(self).spec_headers(), final(self).spec_headers()),
            rows_fit(r.rows@, final(self).spec_headers().len()),
            widths_grow(r.rows@),
            final(self).spec_format() == (if old(self).spec_format() == JsonFormat::Unknown {
                detected_format(lossy_of(old(self).spec_remainder() + chunk@))
            } else {
                old(self).spec_format()
            }),
            final(self).spec_config() == old(self).spec_config(),
            final(self).spec_malformed() >= old(self).spec_malformed(),
            final(self).spec_total() == sat_add(old(self).spec_total(), r.rows@.len()),
            final(self).spec_format() == JsonFormat::JsonLines ==> ({
                let data = old(self).spec_remainder() + chunk@;
                &&& r.rows@.len() == parsed_lines(complete_lines(data))
                &&& final(self).spec_malformed() == sat_add(
                    old(self).spec_malformed(),
                    rejected_lines(complete_lines(data)),
                )
                &&& final(self).spec_remainder() == data.skip(complete_prefix_len(data) as int)
            }),
            final(self).spec_format() == JsonFormat::JsonArray && old(self).spec_closed()
                ==> r.rows@.len() == 0 && final(self).spec_malformed() == old(self).spec_malformed(),
            final(self).spec_format() == JsonFormat::JsonArray && !old(self).spec_closed() ==> ({
                let data = old(self).spec_remainder() + chunk@;
                match array_body_start(data, old(self).spec_inside()) {
                    None => r.rows@.len() == 0 && final(self).spec_malformed() == old(self).spec_malformed() && final(self).spec_structure() == old(self).spec_structure(),
                    Some(b) => (object_items(array_items(data, b)) ==> capped(
                        old(self).spec_headers().len(),
                        final(self).spec_headers().len(),
                        old(self).spec_config().max_keys_per_object as nat,
                    )) && r.rows@.len() == parsed_items(array_items(data, b)) && final(self).spec_malformed() == sat_add(
                        old(self).spec_malformed(),
                        rejected_items(array_items(data, b)),
                    ) && final(self).spec_structure() == structure_after(
                        JsonFormat::JsonArray,
                        old(self).spec_structure(),
                        array_items(data, b),
                    ),
                }
            }),
            final(self).spec_headers().no_duplicates(),
            r.headers.deep_view() == final(self).spec_headers(),
            r.total_rows == final(self).spec_total(),
            r.malformed_count == final(self).spec_malformed(),
            r.format == final(self).spec_format(),
            r.structure == final(self).spec_structure(),
    {
        let mut k: usize = 0;
        while k < chunk.len()
            invariant
                k <= chunk@.len(),
                self.remainder@ == old(self).remainder@ + chunk@.take(k as int),
                self.wf(),
                self.spec_headers() == old(self).spec_headers(),
                self.spec_format() == old(self).spec_format(),
                self.spec_config() == old(self).spec_config(),
                self.spec_malformed() == old(self).spec_malformed(),
                self.spec_total() == old(self).spec_total(),
                self.spec_structure() == old(self).spec_structure(),
                self.in_array == old(self).in_array,
                self.closed == old(self).closed,
            decreases chunk@.len() - k,
        {
            self.remainder.push(chunk[k]);
            assert(chunk@.take(k + 1) == chunk@.take(k as int).push(chunk@[k as int]));
            k = k + 1;
        }
        assert(chunk@.take(chunk@.len() as int) == chunk@);
        if self.format == JsonFormat::Unknown {
            let text = utf8_lossy(self.remainder.as_slice());
            self.format = Self::auto_detect_format(text.as_str());
        }
        proof {
            lemma_extends_refl(self.spec_headers());
        }
        let ghost data = self.remainder@;
        assert(data == old(self).spec_remainder() + chunk@);
        match self.format {
            JsonFormat::JsonArray => {
                let r = self.parse_json_array_chunk();
                assert(self.spec_headers().no_duplicates());
                r
            },
            JsonFormat::JsonLines => {
                let r = self.parse_jsonl_chunk();
                assert(self.spec_headers().no_duplicates());
                r
            },
            JsonFormat::Unknown => {
                let r = self.create_empty_result();
                assert(sat_add(self.spec_total(), 0) == self.spec_total());
                r
            },
        }
    }

    /// Parses what is carried over: for a line-delimited source the last, unterminated
    /// line; an array source's unfinished item is dropped. The carry is emptied.
    pub fn flush(&mut self) -> (r: JsonParseResult)
        requires
            old(self).wf(),
        ensures
            final(self).wf(),
            extends(old(self).spec_headers(), final(self).spec_headers()),
            rows_fit(r.rows@, final(self).spec_headers().len()),
            widths_grow(r.rows@),
            final(self).spec_format() == old(self).spec_format(),
            final(self).spec_headers().no_duplicates(),
            final(self).spec_remainder() == Seq::<u8>::empty(),
            final(self).spec_malformed() >= old(self).spec_malformed(),
            final(self).spec_total() == sat_add(old(self).spec_total(), r.rows@.len()),
            old(self).spec_format() != JsonFormat::JsonLines ==> r.rows@.len() == 0
                && final(self).spec_malformed() == old(self).spec_malformed(),
            old(self).spec_format() == JsonFormat::JsonLines ==> ({
                let t = line_text(old(self).spec_remainder());
                &&& r.rows@.len() == if t.len() > 0 && json_of(t) is Some {
                    1int
                } else {
                    0
                }
                &&& final(self).spec_malformed() == sat_add(
                    old(self).spec_malformed(),
                    if t.len() > 0 && json_of(t) is None {
                        1nat
                    } else {
                        0nat
                    },
                )
            }),
            r.headers.deep_view() == final(self).spec_headers(),
            r.total_rows == final(self).spec_total(),
            r.malformed_count == final(self).spec_malformed(),
            r.format == final(self).spec_format(),
            r.structure == final(self).spec_structure(),
    {
        proof {
            lemma_extends_refl(self.spec_headers());
        }
        let mut rows: Vec<Vec<String>> = Vec::new();
        if self.format == JsonFormat::JsonLines {
            let data = self.remainder.clone();
            assert(data@.subrange(0, data@.len() as int) == data@);
            self.take_line(data.as_slice(), 0, data.len(), &mut rows);
        }
        self.remainder = Vec::new();
        self.create_result(rows)
    }
}

/// The text of a line as the parser reads it: decoded (invalid UTF-8 replaced) and
/// trimmed.
pub open spec fn line_text(line: Seq<u8>) -> Seq<char> {
    trimmed(lossy_of(line))
}

/// The newline-terminated lines of `s`, without their newlines, in order.
pub open spec fn complete_lines(s: Seq<u8>) -> Seq<Seq<u8>>
    decreases s.len(),
{
    if s.len() == 0 {
        Seq::empty()
    } else if s.last() == 10u8 {
        let body = s.drop_last();
        let c = if complete_prefix_len(body) <= body.len() {
            complete_prefix_len(body) as int
        } else {
            0
        };
        complete_lines(body.take(c)).push(body.skip(c))
    } else {
        complete_lines(s.drop_last())
    }
}

/// Lines that are not blank and parse: each yields a row.
pub open spec fn parsed_lines(lines: Seq<Seq<u8>>) -> nat
    decreases lines.len(),
{
    if lines.len() == 0 {
        0
    } else {
        parsed_lines(lines.drop_last()) + if line_text(lines.last()).len() > 0 && json_of(
            line_text(lines.last()),
        ) is Some {
            1nat
        } else {
            0nat
        }
    }
}

/// Lines that are not blank and do not parse: each counts as malformed.
pub open spec fn rejected_lines(lines: Seq<Seq<u8>>) -> nat
    decreases lines.len(),
{
    if lines.len() == 0 {
        0
    } else {
        rejected_lines(lines.drop_last()) + if line_text(lines.last()).len() > 0 && json_of(
            line_text(lines.last()),
        ) is None {
            1nat
        } else {
            0nat
        }
    }
}

proof fn lemma_sat_add_twice(a: u32, x: nat, y: nat)
    ensures
        sat_add(sat_add(a, x), y) == sat_add(a, x + y),
{
}

/// The last line starts right after the last newline.
proof fn lemma_prefix_at_line_start(s: Seq<u8>, k: int)
    requires
        0 <= k <= s.len(),
        k == 0 || s[k - 1] == 10u8,
        forall|j: int| k <= j < s.len() ==> s[j] != 10u8,
    ensures
        complete_prefix_len(s) == k,
    decreases s.len(),
{
    if s.len() > k {
        let p = s.drop_last();
        assert forall|j: int| k <= j < p.len() implies p[j] != 10u8 by {
            assert(p[j] == s[j]);
        }
        lemma_prefix_at_line_start(p, k);
    } else if k > 0 {
        assert(s.last() == s[k - 1]);
    }
}

proof fn lemma_lines_ignore_tail(s: Seq<u8>, k: int)
    requires
        0 <= k <= s.len(),
        k == 0 || s[k - 1] == 10u8,
        forall|j: int| k <= j < s.len() ==> s[j] != 10u8,
    ensures
        complete_lines(s) == complete_lines(s.take(k)),
    decreases s.len(),
{
    if s.len() > k {
        let p = s.drop_last();
        assert(s.last() == s[s.len() - 1]);
        assert forall|j: int| k <= j < p.len() implies p[j] != 10u8 by {
            assert(p[j] == s[j]);
        }
        lemma_lines_ignore_tail(p, k);
        assert(p.take(k) == s.take(k));
    } else {
        assert(s.take(k) == s);
    }
}

/// Appending one terminated line to bytes that end at a line start appends that line.
proof fn lemma_lines_push(data: Seq<u8>, pos: int, nl: int)
    requires
        0 <= pos <= nl < data.len(),
        pos == 0 || data[pos - 1] == 10u8,
        data[nl] == 10u8,
        forall|j: int| pos <= j < nl ==> data[j] != 10u8,
    ensures
        complete_lines(data.take(nl + 1)) == complete_lines(data.take(pos)).push(
            data.subrange(pos, nl),
        ),
{
    let t = data.take(nl + 1);
    let body = t.drop_last();
    assert(body == data.take(nl));
    assert(t.last() == data[nl]);
    lemma_prefix_at_line_start(body, pos);
    assert(body.take(pos) == data.take(pos));
    assert(body.skip(pos) == data.subrange(pos, nl));
}

proof fn lemma_prefix_len_concat(s1: Seq<u8>, t: Seq<u8>)
    requires
        s1.len() == 0 || s1.last() == 10u8,
    ensures
        complete_prefix_len(s1 + t) == s1.len() + complete_prefix_len(t),
    decreases t.len(),
{
    if t.len() == 0 {
        assert(s1 + t == s1);
        if s1.len() > 0 {
            assert(complete_prefix_len(s1) == s1.len());
        }
    } else {
        assert((s1 + t).drop_last() == s1 + t.drop_last());
        assert((s1 + t).last() == t.last());
        if t.last() != 10u8 {
            lemma_prefix_len_concat(s1, t.drop_last());
        }
    }
}

proof fn lemma_lines_concat(s1: Seq<u8>, s2: Seq<u8>)
    requires
        s1.len() == 0 || s1.last() == 10u8,
    ensures
        complete_lines(s1 + s2) == complete_lines(s1) + complete_lines(s2),
    decreases s2.len(),
{
    if s2.len() == 0 {
        assert(s1 + s2 == s1);
        assert(complete_lines(s1) + complete_lines(s2) == complete_lines(s1));
    } else {
        let whole = s1 + s2;
        let t = s2.drop_last();
        assert(whole.drop_last() == s1 + t);
        assert(whole.last() == s2.last());
        if s2.last() != 10u8 {
            lemma_lines_concat(s1, t);
        } else {
            crate::csv::lemma_cut_at_last_newline(t);
            lemma_prefix_len_concat(s1, t);
            let c = complete_prefix_len(t) as int;
            let body = s1 + t;
            assert(complete_prefix_len(body) == s1.len() + c);
            assert(body.take(s1.len() + c) == s1 + t.take(c));
            assert(body.skip(s1.len() + c) == t.skip(c));
            if c > 0 {
                assert(t.take(c).last() == t[c - 1]);
            }
            lemma_lines_concat(s1, t.take(c));
            assert(complete_lines(s2) == complete_lines(t.take(c)).push(t.skip(c)));
            assert(complete_lines(whole) == complete_lines(s1 + t.take(c)).push(t.skip(c)));
            assert((complete_lines(s1) + complete_lines(t.take(c))).push(t.skip(c))
                =~= complete_lines(s1) + complete_lines(t.take(c)).push(t.skip(c)));
        }
    }
}

proof fn lemma_counts_concat(x: Seq<Seq<u8>>, y: Seq<Seq<u8>>)
    ensures
        parsed_lines(x + y) == parsed_lines(x) + parsed_lines(y),
        rejected_lines(x + y) == rejected_lines(x) + rejected_lines(y),
    decreases y.len(),
{
    if y.len() == 0 {
        assert(x + y == x);
    } else {
        assert((x + y).drop_last() == x + y.drop_last());
        assert((x + y).last() == y.last());
        lemma_counts_concat(x, y.drop_last());
    }
}

/// Splitting line-delimited bytes between two chunks changes nothing: the lines that
/// the first chunk completes, followed by those completed once the carried tail meets
/// the second chunk, are the lines of the whole; so are the parsed and the rejected
/// ones.
pub proof fn lemma_line_split(a: Seq<u8>, b: Seq<u8>)
    ensures
        complete_lines(a + b) == complete_lines(a) + complete_lines(
            a.skip(complete_prefix_len(a) as int) + b,
        ),
        parsed_lines(complete_lines(a + b)) == parsed_lines(complete_lines(a)) + parsed_lines(
            complete_lines(a.skip(complete_prefix_len(a) as int) + b),
        ),
        rejected_lines(complete_lines(a + b)) == rejected_lines(complete_lines(a))
            + rejected_lines(complete_lines(a.skip(complete_prefix_len(a) as int) + b)),
{
    crate::csv::lemma_cut_at_last_newline(a);
    let c = complete_prefix_len(a) as int;
    let head = a.take(c);
    let tail = a.skip(c);
    if c > 0 {
        assert(head.last() == a[c - 1]);
    }
    assert(a + b == head + (tail + b));
    lemma_lines_concat(head, tail + b);
    lemma_lines_ignore_tail(a, c);
    lemma_counts_concat(complete_lines(a), complete_lines(tail + b));
}

/// First position at or after `i` that is not a blank byte.
pub open spec fn blank_end(s: Seq<u8>, i: int) -> int
    decreases s.len() - i,
{
    if 0 <= i < s.len() && is_blank(s[i]) {
        blank_end(s, i + 1)
    } else {
        i
    }
}

/// The first position at or after `from` that ends the item starting at `a`.
pub open spec fn separator_search(s: Seq<u8>, a: int, from: int) -> Option<int>
    decreases s.len() - from,
{
    if from < a || from >= s.len() {
        None
    } else if separator_at(s.skip(a), from - a) {
        Some(from)
    } else {
        separator_search(s, a, from + 1)
    }
}

/// The items of an array body read from `pos`: blanks are skipped, a `,` (and the
/// blanks after it) opens the next item, which runs to the next top-level separator;
/// reading stops at the closing `]`, at the end, or at an item not yet finished.
pub open spec fn array_items(s: Seq<u8>, pos: int) -> Seq<Seq<u8>>
    decreases s.len() - pos,
{
    let p = blank_end(s, pos);
    if pos < 0 || p >= s.len() || s[p] == 93u8 {
        Seq::empty()
    } else {
        let a = if s[p] == 44u8 {
            blank_end(s, p + 1)
        } else {
            p
        };
        match separator_search(s, a, a) {
            Some(e) => if pos < e < s.len() {
                seq![s.subrange(a, e)] + array_items(s, e)
            } else {
                Seq::empty()
            },
            None => Seq::empty(),
        }
    }
}

/// Where the body of an array source starts: right away inside the container, else
/// after the first `[`; `None` while no `[` has come.
pub open spec fn array_body_start(s: Seq<u8>, inside: bool) -> Option<int> {
    if inside {
        Some(0)
    } else if exists|i: int| 0 <= i < s.len() && s[i] == 91u8 {
        Some(
            (choose|i: int|
                0 <= i < s.len() && s[i] == 91u8 && forall|j: int| 0 <= j < i ==> s[j] != 91u8)
                + 1,
        )
    } else {
        None
    }
}

/// Whether an item, if it parses, is an object.
pub open spec fn object_or_rejected(item: Seq<u8>) -> bool {
    match json_of(lossy_of(item)) {
        Some(v) => v is Object,
        None => true,
    }
}

/// Whether every item that parses is an object.
pub open spec fn object_items(items: Seq<Seq<u8>>) -> bool {
    forall|i: int| 0 <= i < items.len() ==> object_or_rejected(#[trigger] items[i])
}

/// Items that parse: each yields a row.
pub open spec fn parsed_items(items: Seq<Seq<u8>>) -> nat
    decreases items.len(),
{
    if items.len() == 0 {
        0
    } else {
        parsed_items(items.drop_last()) + if json_of(lossy_of(items.last())) is Some {
            1nat
        } else {
            0nat
        }
    }
}

/// Items that do not parse: each counts as malformed.
pub open spec fn rejected_items(items: Seq<Seq<u8>>) -> nat
    decreases items.len(),
{
    if items.len() == 0 {
        0
    } else {
        rejected_items(items.drop_last()) + if json_of(lossy_of(items.last())) is None {
            1nat
        } else {
            0nat
        }
    }
}

/// The shape after the items that parse, in order.
pub open spec fn structure_after(
    format: JsonFormat,
    start: JsonStructure,
    items: Seq<Seq<u8>>,
) -> JsonStructure
    decreases items.len(),
{
    if items.len() == 0 {
        start
    } else {
        let before = structure_after(format, start, items.drop_last());
        match json_of(lossy_of(items.last())) {
            Some(v) => next_structure(format, before, v),
            None => before,
        }
    }
}

proof fn lemma_separator_found(s: Seq<u8>, a: int, from: int, e: int)
    requires
        0 <= a <= from <= e < s.len(),
        separator_at(s.skip(a), e - a),
        forall|k: int| from - a <= k < e - a ==> !separator_at(s.skip(a), k),
    ensures
        separator_search(s, a, from) == Some(e),
    decreases e - from,
{
    if from < e {
        lemma_separator_found(s, a, from + 1, e);
    }
}

proof fn lemma_separator_absent(s: Seq<u8>, a: int, from: int)
    requires
        0 <= a <= from,
        a <= s.len(),
        forall|k: int| from - a <= k < s.len() - a ==> !separator_at(s.skip(a), k),
    ensures
        separator_search(s, a, from) is None,
    decreases s.len() - from,
{
    if from < s.len() {
        lemma_separator_absent(s, a, from + 1);
    }
}

} // verus!
