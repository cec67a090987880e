use vstd::prelude::*;

use crate::errors::{ErrorModel, JsonError};
use crate::value::{
    has_key, jm, jm_entries, lemma_jm_entries_insert, lemma_jm_entries_len,
    lemma_jm_entries_remove, lemma_lookup_wf, lemma_store_at_index, lemma_store_entry_props,
    lemma_store_entry_wf, lemma_wf_object, lookup, store_entry, wf, JsonModel, JsonValue,
};

verus! {

/// What replacing the value of `key` below `segs` with the string `val` does
/// to a document: read-only traversal, then overwrite-if-present. Whatever
/// was bound before, even a whole object, narrows to a string leaf.
pub open spec fn replace_at(
    m: JsonModel,
    segs: Seq<Seq<char>>,
    key: Seq<char>,
    val: Seq<char>,
) -> Result<JsonModel, ErrorModel>
    decreases segs.len(),
{
    if segs.len() == 0 {
        match m {
            JsonModel::Object(es) => if has_key(es, key) {
                Ok(JsonModel::Object(store_entry(es, key, JsonModel::String(val))))
            } else {
                Err(ErrorModel::KeyDoesNotExist(key))
            },
            _ => Err(ErrorModel::ExpectedObjectAtTarget),
        }
    } else {
        match m {
            JsonModel::Object(es) => match lookup(es, segs[0]) {
                Some(child) => if segs.len() >= 2 && !(child is Object) {
                    Err(ErrorModel::ExpectedObject(segs[0]))
                } else {
                    match replace_at(child, segs.drop_first(), key, val) {
                        Ok(c2) => Ok(JsonModel::Object(store_entry(es, segs[0], c2))),
                        Err(e) => Err(e),
                    }
                },
                None => Err(ErrorModel::PathNotFound(segs[0])),
            },
            _ => Err(ErrorModel::PathNotFound(segs[0])),
        }
    }
}

/// A successful replacement keeps the document well formed.
pub proof fn lemma_replace_at_wf(m: JsonModel, segs: Seq<Seq<char>>, key: Seq<char>, val: Seq<char>)
    requires
        wf(m),
    ensures
        replace_at(m, segs, key, val) matches Ok(m2) ==> wf(m2),
    decreases segs.len(),
{
    match m {
        JsonModel::Object(es) => {
            lemma_wf_object(es);
            if segs.len() == 0 {
                if has_key(es, key) {
                    lemma_store_entry_props(es, key, JsonModel::String(val));
                    lemma_store_entry_wf(es, key, JsonModel::String(val));
                    lemma_wf_object(store_entry(es, key, JsonModel::String(val)));
                }
            } else {
                match lookup(es, segs[0]) {
                    Some(child) => {
                        lemma_lookup_wf(es, segs[0]);
                        lemma_replace_at_wf(child, segs.drop_first(), key, val);
                        match replace_at(child, segs.drop_first(), key, val) {
                            Ok(c2) => {
                                lemma_store_entry_props(es, segs[0], c2);
                                lemma_store_entry_wf(es, segs[0], c2);
                                lemma_wf_object(store_entry(es, segs[0], c2));
                            },
                            Err(_) => {},
                        }
                    },
                    None => {},
                }
            }
        },
        _ => {},
    }
}

/// The recursive worker: replace below `path[i..]` in the owned tree `v`.
fn replace_go(v: JsonValue, path: &Vec<String>, i: usize, key: &str, value: &str) -> (r: (
    JsonValue,
    Result<(), JsonError>,
))
    requires
        i <= path@.len(),
        wf(v@),
    ensures
        ({
            let o = replace_at(v@, path.deep_view().skip(i as int), key@, value@);
            match r.1 {
                Ok(_) => o matches Ok(m2) && r.0@ == m2,
                Err(e) => o matches Err(em) && e@ == em && r.0@ == v@,
            }
        }),
        wf(r.0@),
    decreases path@.len() - i,
{
    let ghost segs = path.deep_view().skip(i as int);
    proof {
        assert(path.deep_view().len() == path@.len());
    }
    if i == path.len() {
        match v {
            JsonValue::Object(mut es) => {
                let ghost mk = jm_entries(es@);
                proof {
                    lemma_jm_entries_len(es@);
                }
                match crate::value::seek_entry(&es, key) {
                    Ok(j) => {
                        let ghost es_pre = es@;
                        let (kept, _old_val) = es.remove(j);
                        let leaf = JsonValue::String(value.to_owned());
                        proof {
                            lemma_jm_entries_remove(es_pre, j as int);
                            assert(kept@ == key@);
                            lemma_store_at_index(mk, key@, JsonModel::String(value@), j as int);
                            lemma_jm_entries_insert(es@, j as int, kept, leaf);
                            assert(jm_entries(es@.insert(j as int, (kept, leaf))) =~= mk.update(
                                j as int,
                                (key@, JsonModel::String(value@)),
                            ));
                            lemma_replace_at_wf(v@, segs, key@, value@);
                        }
                        es.insert(j, (kept, leaf));
                        (JsonValue::Object(es), Ok(()))
                    },
                    Err(_) => {
                        let e = JsonError::KeyDoesNotExist { key: key.to_owned() };
                        (JsonValue::Object(es), Err(e))
                    },
                }
            },
            other => (other, Err(JsonError::ExpectedObjectAtTarget)),
        }
    } else {
        let ghost seg0 = path.deep_view()[i as int];
        proof {
            assert(segs[0] == seg0);
            assert(segs.drop_first() =~= path.deep_view().skip(i + 1));
            assert(seg0 == path@[i as int]@);
        }
        match v {
            JsonValue::Object(mut es) => {
                let ghost mk = jm_entries(es@);
                proof {
                    lemma_jm_entries_len(es@);
                }
                let seg = path[i].as_str();
                match crate::value::seek_entry(&es, seg) {
                    Ok(j) => {
                        let is_last = i + 1 == path.len();
                        let child_is_obj = matches!(&es[j].1, JsonValue::Object(_));
                        proof {
                            assert(mk[j as int].1 == jm(es@[j as int].1));
                            crate::value::lemma_jm_is_object(es@[j as int].1);
                        }
                        if !is_last && !child_is_obj {
                            let e = JsonError::ExpectedObject { segment: seg.to_owned() };
                            (JsonValue::Object(es), Err(e))
                        } else {
                            let ghost es_pre = es@;
                            let (kept, child) = es.remove(j);
                            proof {
                                lemma_jm_entries_remove(es_pre, j as int);
                                assert(mk[j as int] == (kept@, jm(child)));
                                assert(v@ == JsonModel::Object(mk));
                                lemma_wf_object(mk);
                                assert(wf(jm(child)));
                            }
                            let (child2, res) = replace_go(child, path, i + 1, key, value);
                            proof {
                                lemma_store_at_index(mk, seg0, jm(child2), j as int);
                                lemma_jm_entries_insert(es@, j as int, kept, child2);
                                assert(jm_entries(es@.insert(j as int, (kept, child2)))
                                    =~= mk.update(j as int, (seg0, jm(child2))));
                                if res is Err {
                                    assert(mk.update(j as int, (seg0, jm(child2))) =~= mk);
                                }
                                lemma_replace_at_wf(v@, segs, key@, value@);
                            }
                            es.insert(j, (kept, child2));
                            (JsonValue::Object(es), res)
                        }
                    },
                    Err(_) => {
                        let e = JsonError::PathNotFound { segment: seg.to_owned() };
                        (JsonValue::Object(es), Err(e))
                    },
                }
            },
            other => {
                let e = JsonError::PathNotFound { segment: path[i].as_str().to_owned() };
                (other, Err(e))
            },
        }
    }
}

/// Replace the value bound to `key` at the object the intermediate segment
/// path `path` leads to with the string `new_value`. Every intermediate
/// segment must exist and be an object; an absent target key is refused, and
/// on any error the document is left as it was.
pub fn replace_value_at_key(
    json: &mut JsonValue,
    path: &Vec<String>,
    key: &str,
    new_value: &str,
) -> (r: Result<(), JsonError>)
    requires
        wf(old(json)@),
    ensures
        wf(final(json)@),
        ({
            let o = replace_at(old(json)@, path.deep_view(), key@, new_value@);
            match r {
                Ok(_) => o matches Ok(m2) && final(json)@ == m2,
                Err(e) => o matches Err(em) && e@ == em && final(json)@ == old(json)@,
            }
        }),
{
    let mut tmp = JsonValue::Null;
    core::mem::swap(json, &mut tmp);
    let (v2, r) = replace_go(tmp, path, 0, key, new_value);
    *json = v2;
    proof {
        assert(path.deep_view().skip(0) =~= path.deep_view());
    }
    r
}

/// Replace is refused with `KeyDoesNotExist` exactly when the landing
/// object lacks the target key; and whenever it goes through, the document
/// afterwards holds the new text as a string leaf under that key, whatever
/// kind of value stood there before.
pub proof fn lemma_replace_rejected_iff_key_absent(
    m: JsonModel,
    segs: Seq<Seq<char>>,
    key: Seq<char>,
    val: Seq<char>,
)
    requires
        wf(m),
    ensures
        replace_at(m, segs, key, val) == Result::<JsonModel, ErrorModel>::Err(
            ErrorModel::KeyDoesNotExist(key),
        ) <==> (crate::value::value_at(m, segs) matches Some(JsonModel::Object(es)) && !has_key(
            es,
            key,
        )),
        replace_at(m, segs, key, val) matches Ok(m2) ==> crate::value::value_at(
            m2,
            segs.push(key),
        ) == Some(JsonModel::String(val)),
    decreases segs.len(),
{
    if segs.len() == 0 {
        match m {
            JsonModel::Object(es) => {
                lemma_wf_object(es);
                if has_key(es, key) {
                    crate::value::lemma_store_entry_props(es, key, JsonModel::String(val));
                    let m2 = JsonModel::Object(store_entry(es, key, JsonModel::String(val)));
                    let p = segs.push(key);
                    assert(p[0] == key);
                    assert(p.drop_first() =~= Seq::<Seq<char>>::empty());
                    assert(crate::value::value_at(m2, p) == Some(JsonModel::String(val))) by {
                        reveal_with_fuel(crate::value::value_at, 3);
                        assert(lookup(store_entry(es, key, JsonModel::String(val)), key) == Some(
                            JsonModel::String(val),
                        ));
                    }
                }
            },
            _ => {},
        }
    } else {
        match m {
            JsonModel::Object(es) => {
                lemma_wf_object(es);
                lemma_lookup_wf(es, segs[0]);
                match lookup(es, segs[0]) {
                    Some(child) => {
                        lemma_replace_rejected_iff_key_absent(child, segs.drop_first(), key, val);
                        match replace_at(child, segs.drop_first(), key, val) {
                            Ok(c2) => {
                                crate::value::lemma_store_entry_props(es, segs[0], c2);
                                let m2 = JsonModel::Object(store_entry(es, segs[0], c2));
                                let p = segs.push(key);
                                assert(p[0] == segs[0]);
                                assert(p.drop_first() =~= segs.drop_first().push(key));
                                assert(crate::value::value_at(m2, p) == crate::value::value_at(
                                    c2,
                                    segs.drop_first().push(key),
                                )) by {
                                    reveal_with_fuel(crate::value::value_at, 2);
                                    assert(lookup(store_entry(es, segs[0], c2), segs[0]) == Some(
                                        c2,
                                    ));
                                    assert(p.len() > 0 && p[0] == segs[0]);
                                }
                            },
                            Err(_) => {},
                        }
                    },
                    None => {},
                }
            },
            _ => {},
        }
    }
}

} // verus!
