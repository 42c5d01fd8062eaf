//! Rows of Avro object container files: column names and flattened records.
use vstd::prelude::*;
use crate::json::{from_serde, JsonValue};

verus! {

/// The records that `apache_avro` reads from an object container file, each as a JSON
/// document; `None` where the file or a record cannot be read.
pub uninterp spec fn avro_records_of(bytes: Seq<u8>) -> Option<Seq<JsonValue>>;

/// Relies on `apache_avro::Reader` over the bytes and `apache_avro::from_value` into a
/// `serde_json::Value` for each record; the error is the crate's message.
#[verifier::external_body]
fn read_avro(bytes: &[u8]) -> (r: Result<Vec<JsonValue>, String>)
    ensures
        r is Ok <==> avro_records_of(bytes@) is Some,
        r matches Ok(v) ==> avro_records_of(bytes@) == Some(v@),
{
    let reader = apache_avro::Reader::new(bytes).map_err(|e| e.to_string())?;
    reader
        .map(|record| {
            let record = record.map_err(|e| e.to_string())?;
            let value = apache_avro::from_value::<serde_json::Value>(&record);
            value.map(|v| from_serde(&v)).map_err(|e| e.to_string())
        })
        .collect()
}

/// Whether `a` sorts before or equal to `b`, character by character.
pub open spec fn lex_le(a: Seq<char>, b: Seq<char>) -> bool
    decreases a.len(),
{
    if a.len() == 0 {
        true
    } else if b.len() == 0 {
        false
    } else if a[0] != b[0] {
        (a[0] as u32) < (b[0] as u32)
    } else {
        lex_le(a.drop_first(), b.drop_first())
    }
}

pub open spec fn sorted_names(v: Seq<Seq<char>>) -> bool {
    forall|i: int, j: int| 0 <= i < j < v.len() ==> lex_le(#[trigger] v[i], #[trigger] v[j])
}

/// Relies on `slice::sort` of strings, whose order (UTF-8 byte order) is the order of
/// code points: the same strings, in that order.
#[verifier::external_body]
fn sort_names(v: &mut Vec<String>)
    ensures
        final(v).deep_view().to_multiset() == old(v).deep_view().to_multiset(),
        sorted_names(final(v).deep_view()),
{
    v.sort();
}

/// `prefix.key`, or `key` under an empty prefix.
pub open spec fn dotted(prefix: Seq<char>, key: Seq<char>) -> Seq<char> {
    if prefix.len() == 0 {
        key
    } else {
        prefix + "."@ + key
    }
}

/// Whether every name starts with `prefix`.
pub open spec fn all_under(names: Seq<Seq<char>>, prefix: Seq<char>) -> bool {
    forall|i: int|
        0 <= i < names.len() ==> prefix.len() <= (#[trigger] names[i]).len() && names[i].take(
            prefix.len() as int,
        ) == prefix
}

/// `prefix.key`, or `key` under an empty prefix.
fn join_key(prefix: &str, key: &String) -> (r: String)
    ensures
        r@ == (if prefix@.len() == 0 {
            key@
        } else {
            prefix@ + "."@ + key@
        }),
{
    if prefix.is_empty() {
        key.clone()
    } else {
        let mut k = String::from_str(prefix);
        k.append(".");
        k.append(key.as_str());
        k
    }
}

/// Column names of a record: the dotted path of each non-object leaf, sorted. A value
/// that is not an object is one column, named by the prefix (or `value` without one).
pub fn extract_headers_from_value(val: &JsonValue, prefix: &str) -> (r: Vec<String>)
    ensures
        sorted_names(r.deep_view()),
        all_under(r.deep_view(), prefix@),
        val is Object ==> forall|m: int|
            0 <= m < val->Object_0@.len() && !((#[trigger] val->Object_0@[m]).1 is Object)
                ==> r.deep_view().contains(dotted(prefix@, val->Object_0@[m].0@)),
        !(val is Object) ==> r.deep_view() == seq![
            if prefix@.len() == 0 {
                "value"@
            } else {
                prefix@
            },
        ],
    decreases val,
{
    let mut headers: Vec<String> = Vec::new();
    match val {
        JsonValue::Object(entries, _) => {
            let mut i: usize = 0;
            while i < entries.len()
                invariant
                    i <= entries@.len(),
                    *val is Object,
                    val->Object_0 == *entries,
                    all_under(headers.deep_view(), prefix@),
                    forall|m: int|
                        0 <= m < i && !((#[trigger] entries@[m]).1 is Object)
                            ==> headers.deep_view().contains(dotted(prefix@, entries@[m].0@)),
                decreases entries@.len() - i,
            {
                let full_key = join_key(prefix, &entries[i].0);
                let ghost before = headers.deep_view();
                proof {
                    reveal_strlit(".");
                    assert(full_key@.take(prefix@.len() as int) =~= prefix@);
                }
                match &entries[i].1 {
                    JsonValue::Object(..) => {
                        proof {
                            vstd::std_specs::vec::axiom_vec_index_decreases(*entries, i as int);
                            assert(decreases_to!(*val => val->Object_0));
                            assert(decreases_to!(entries[i as int] => entries[i as int].1));
                        }
                        let mut nested = extract_headers_from_value(&entries[i].1, full_key.as_str());
                        let ghost nv = nested.deep_view();
                        headers.append(&mut nested);
                        proof {
                            assert(headers.deep_view() =~= before + nv);
                            assert forall|k: int| 0 <= k < headers.deep_view().len() implies prefix@.len()
                                <= (#[trigger] headers.deep_view()[k]).len()
                                && headers.deep_view()[k].take(prefix@.len() as int) == prefix@ by {
                                if k >= before.len() {
                                    let x = nv[k - before.len()];
                                    assert(x.take(full_key@.len() as int) == full_key@);
                                    assert(x.take(prefix@.len() as int) =~= full_key@.take(
                                        prefix@.len() as int,
                                    ));
                                }
                            }
                            assert forall|m: int|
                                0 <= m < i + 1 && !((#[trigger] entries@[m]).1 is Object)
                                    implies headers.deep_view().contains(
                                dotted(prefix@, entries@[m].0@),
                            ) by {
                                let w = choose|w: int|
                                    0 <= w < before.len() && before[w] == dotted(
                                        prefix@,
                                        entries@[m].0@,
                                    );
                                assert(headers.deep_view()[w] == before[w]);
                            }
                        }
                    },
                    _ => {
                        headers.push(full_key);
                        proof {
                            assert(headers.deep_view() =~= before.push(full_key@));
                            assert(full_key@ == dotted(prefix@, entries@[i as int].0@));
                            assert forall|m: int|
                                0 <= m < i + 1 && !((#[trigger] entries@[m]).1 is Object)
                                    implies headers.deep_view().contains(
                                dotted(prefix@, entries@[m].0@),
                            ) by {
                                if m < i {
                                    let w = choose|w: int|
                                        0 <= w < before.len() && before[w] == dotted(
                                            prefix@,
                                            entries@[m].0@,
                                        );
                                    assert(headers.deep_view()[w] == before[w]);
                                } else {
                                    assert(headers.deep_view()[before.len() as int] == full_key@);
                                }
                            }
                        }
                    },
                }
                i = i + 1;
            }
            let ghost unsorted = headers.deep_view();
            sort_names(&mut headers);
            proof {
                unsorted.to_multiset_ensures();
                headers.deep_view().to_multiset_ensures();
                assert forall|m: int|
                    0 <= m < entries@.len() && !((#[trigger] entries@[m]).1 is Object)
                        implies headers.deep_view().contains(dotted(prefix@, entries@[m].0@)) by {
                    assert(unsorted.to_multiset().count(dotted(prefix@, entries@[m].0@)) > 0);
                }
                assert forall|k: int| 0 <= k < headers.deep_view().len() implies prefix@.len()
                    <= (#[trigger] headers.deep_view()[k]).len()
                    && headers.deep_view()[k].take(prefix@.len() as int) == prefix@ by {
                    let x = headers.deep_view()[k];
                    assert(headers.deep_view().contains(x));
                    assert(unsorted.to_multiset().count(x) > 0);
                    assert(unsorted.contains(x));
                }
            }
        },
        _ => {
            headers.push(
                if prefix.is_empty() {
                    String::from_str("value")
                } else {
                    String::from_str(prefix)
                },
            );
            proof {
                reveal_strlit("value");
                assert(prefix@.take(prefix@.len() as int) =~= prefix@);
                assert(headers.deep_view()[0].take(prefix@.len() as int) =~= prefix@);
                assert(headers.deep_view() =~= seq![
                    if prefix@.len() == 0 {
                        "value"@
                    } else {
                        prefix@
                    },
                ]);
            }
        },
    }
    headers
}

/// Collects (dotted name, text) pairs for the leaves of `val` under `prefix`: arrays and
/// numbers as their JSON text, strings verbatim, nulls empty, booleans as words.
fn flatten_leaves(val: &JsonValue, prefix: &str, output: &mut Vec<(String, String)>)
    ensures
        final(output)@.len() >= old(output)@.len(),
    decreases val,
{
    match val {
        JsonValue::Object(entries, _) => {
            let mut i: usize = 0;
            while i < entries.len()
                invariant
                    i <= entries@.len(),
                    *val is Object,
                    val->Object_0 == *entries,
                    output@.len() >= old(output)@.len(),
                decreases entries@.len() - i,
            {
                let full_key = join_key(prefix, &entries[i].0);
                proof {
                    vstd::std_specs::vec::axiom_vec_index_decreases(*entries, i as int);
                    assert(decreases_to!(*val => val->Object_0));
                    assert(decreases_to!(entries[i as int] => entries[i as int].1));
                }
                flatten_leaves(&entries[i].1, full_key.as_str(), output);
                i = i + 1;
            }
        },
        JsonValue::Array(_, text) => {
            output.push((String::from_str(prefix), text.clone()));
        },
        JsonValue::Null => {
            output.push((String::from_str(prefix), String::new()));
        },
        JsonValue::Text(s) => {
            output.push((String::from_str(prefix), s.clone()));
        },
        JsonValue::Number(t) => {
            output.push((String::from_str(prefix), t.clone()));
        },
        JsonValue::Bool(b) => {
            output.push((String::from_str(prefix), String::from_str(if *b { "true" } else { "false" })));
        },
    }
}

/// The text of each leaf of `val` under the given column names, in their order; empty
/// where the record has no such leaf. A later leaf of the same name wins.
pub fn flatten_avro_value(val: &JsonValue, headers: &[String]) -> (r: Vec<String>)
    ensures
        r@.len() == headers@.len(),
{
    let mut leaves: Vec<(String, String)> = Vec::new();
    flatten_leaves(val, "", &mut leaves);
    let mut row: Vec<String> = Vec::new();
    let mut h: usize = 0;
    while h < headers.len()
        invariant
            h <= headers@.len(),
            row@.len() == h,
        decreases headers@.len() - h,
    {
        let mut cell = String::new();
        let mut i: usize = 0;
        while i < leaves.len()
            invariant
                i <= leaves@.len(),
                h < headers@.len(),
            decreases leaves@.len() - i,
        {
            if leaves[i].0 == headers[h] {
                cell = leaves[i].1.clone();
            }
            i = i + 1;
        }
        row.push(cell);
        h = h + 1;
    }
    row
}

/// Rows of an Avro object container file: the column names come from the first record,
/// and every record becomes a row under them. Fails with the reader's message on
/// unreadable data, and when the file holds no record.
pub fn avro_rows(bytes: &[u8]) -> (r: Result<(Vec<String>, Vec<Vec<String>>), String>)
    ensures
        avro_records_of(bytes@) is None ==> r is Err,
        avro_records_of(bytes@) matches Some(recs) ==> (r is Ok <==> recs.len() > 0),
        r matches Ok((headers, rows)) ==> avro_records_of(bytes@) matches Some(recs)
            && rows@.len() == recs.len() && sorted_names(headers.deep_view()) && forall|i: int|
            0 <= i < rows@.len() ==> #[trigger] rows@[i]@.len() == headers@.len(),
{
    let records = match read_avro(bytes) {
        Ok(v) => v,
        Err(e) => {
            return Err(e);
        },
    };
    if records.len() == 0 {
        return Err(String::from_str("Profiler not initialized"));
    }
    let headers = extract_headers_from_value(&records[0], "");
    let mut rows: Vec<Vec<String>> = Vec::new();
    let mut i: usize = 0;
    while i < records.len()
        invariant
            i <= records@.len(),
            rows@.len() == i,
            forall|k: int| 0 <= k < i ==> #[trigger] rows@[k]@.len() == headers@.len(),
        decreases records@.len() - i,
    {
        let row = flatten_avro_value(&records[i], headers.as_slice());
        rows.push(row);
        i = i + 1;
    }
    Ok((headers, rows))
}

} // verus!
