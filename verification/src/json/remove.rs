use vstd::prelude::*;

use crate::errors::{ErrorModel, JsonError};
use crate::value::{
    jm, jm_entries, lemma_jm_entries_insert, lemma_jm_entries_len, lemma_jm_entries_remove,
    lemma_lookup_wf, lemma_remove_at_index, lemma_remove_entry_noop, lemma_remove_entry_props,
    lemma_remove_entry_wf, lemma_store_at_index, lemma_store_entry_props, lemma_store_entry_wf,
    lemma_wf_object, lookup, remove_entry, store_entry, wf, JsonModel, JsonValue,
};

verus! {

/// What removing `key` at the landing object below `segs` does to a
/// document: read-only traversal, then removal that tolerates an absent key.
pub open spec fn remove_at(
    m: JsonModel,
    segs: Seq<Seq<char>>,
    key: Seq<char>,
) -> Result<JsonModel, ErrorModel>
    decreases segs.len(),
{
    if segs.len() == 0 {
        match m {
            JsonModel::Object(es) => Ok(JsonModel::Object(remove_entry(es, key))),
            _ => Err(ErrorModel::ExpectedObjectAtTarget),
        }
    } else {
        match m {
            JsonModel::Object(es) => match lookup(es, segs[0]) {
                Some(child) => if segs.len() >= 2 && !(child is Object) {
                    Err(ErrorModel::ExpectedObject(segs[0]))
                } else {
                    match remove_at(child, segs.drop_first(), key) {
                        Ok(c2) => Ok(JsonModel::Object(store_entry(es, segs[0], c2))),
                        Err(e) => Err(e),
                    }
                },
                None => Err(ErrorModel::PathNotFound(segs[0])),
            },
            _ => Err(ErrorModel::PathNotFound(segs[0])),
        }
    }
}

/// A successful removal keeps the document well formed.
pub proof fn lemma_remove_at_wf(m: JsonModel, segs: Seq<Seq<char>>, key: Seq<char>)
    requires
        wf(m),
    ensures
        remove_at(m, segs, key) matches Ok(m2) ==> wf(m2),
    decreases segs.len(),
{
    match m {
        JsonModel::Object(es) => {
            lemma_wf_object(es);
            if segs.len() == 0 {
                lemma_remove_entry_props(es, key);
                lemma_remove_entry_wf(es, key);
                lemma_wf_object(remove_entry(es, key));
            } else {
                match lookup(es, segs[0]) {
                    Some(child) => {
                        lemma_lookup_wf(es, segs[0]);
                        lemma_remove_at_wf(child, segs.drop_first(), key);
                        match remove_at(child, segs.drop_first(), key) {
                            Ok(c2) => {
                                lemma_store_entry_props(es, segs[0], c2);
                                lemma_store_entry_wf(es, segs[0], c2);
                                lemma_wf_object(store_entry(es, segs[0], c2));
                            },
                            Err(_) => {},
                        }
                    },
                    None => {},
                }
            }
        },
        _ => {},
    }
}

/// The recursive worker: remove below `path[i..]` in the owned tree `v`.
fn remove_go(v: JsonValue, path: &Vec<String>, i: usize, key: &str) -> (r: (
    JsonValue,
    Result<(), JsonError>,
))
    requires
        i <= path@.len(),
        wf(v@),
    ensures
        ({
            let o = remove_at(v@, path.deep_view().skip(i as int), key@);
            match r.1 {
                Ok(_) => o matches Ok(m2) && r.0@ == m2,
                Err(e) => o matches Err(em) && e@ == em && r.0@ == v@,
            }
        }),
        wf(r.0@),
    decreases path@.len() - i,
{
    let ghost segs = path.deep_view().skip(i as int);
    proof {
        assert(path.deep_view().len() == path@.len());
    }
    if i == path.len() {
        match v {
            JsonValue::Object(mut es) => {
                let ghost mk = jm_entries(es@);
                proof {
                    lemma_jm_entries_len(es@);
                }
                match crate::value::seek_entry(&es, key) {
                    Ok(j) => {
                        let ghost es_pre = es@;
                        proof {
                            lemma_remove_at_index(mk, key@, j as int);
                            lemma_jm_entries_remove(es_pre, j as int);
                            lemma_remove_at_wf(v@, segs, key@);
                        }
                        let _ = es.remove(j);
                        (JsonValue::Object(es), Ok(()))
                    },
                    Err(_) => {
                        proof {
                            lemma_remove_entry_noop(mk, key@);
                        }
                        (JsonValue::Object(es), Ok(()))
                    },
                }
            },
            other => (other, Err(JsonError::ExpectedObjectAtTarget)),
        }
    } else {
        let ghost seg0 = path.deep_view()[i as int];
        proof {
            assert(segs[0] == seg0);
            assert(segs.drop_first() =~= path.deep_view().skip(i + 1));
            assert(seg0 == path@[i as int]@);
        }
        match v {
            JsonValue::Object(mut es) => {
                let ghost mk = jm_entries(es@);
                proof {
                    lemma_jm_entries_len(es@);
                }
                let seg = path[i].as_str();
                match crate::value::seek_entry(&es, seg) {
                    Ok(j) => {
                        let is_last = i + 1 == path.len();
                        let child_is_obj = matches!(&es[j].1, JsonValue::Object(_));
                        proof {
                            assert(mk[j as int].1 == jm(es@[j as int].1));
                            crate::value::lemma_jm_is_object(es@[j as int].1);
                        }
                        if !is_last && !child_is_obj {
                            let e = JsonError::ExpectedObject { segment: seg.to_owned() };
                            (JsonValue::Object(es), Err(e))
                        } else {
                            let ghost es_pre = es@;
                            let (kept, child) = es.remove(j);
                            proof {
                                lemma_jm_entries_remove(es_pre, j as int);
                                assert(mk[j as int] == (kept@, jm(child)));
                                assert(v@ == JsonModel::Object(mk));
                                lemma_wf_object(mk);
                                assert(wf(jm(child)));
                            }
                            let (child2, res) = remove_go(child, path, i + 1, key);
                            proof {
                                lemma_store_at_index(mk, seg0, jm(child2), j as int);
                                lemma_jm_entries_insert(es@, j as int, kept, child2);
                                assert(jm_entries(es@.insert(j as int, (kept, child2)))
                                    =~= mk.update(j as int, (seg0, jm(child2))));
                                if res is Err {
                                    assert(mk.update(j as int, (seg0, jm(child2))) =~= mk);
                                }
                                lemma_remove_at_wf(v@, segs, key@);
                            }
                            es.insert(j, (kept, child2));
                            (JsonValue::Object(es), res)
                        }
                    },
                    Err(_) => {
                        let e = JsonError::PathNotFound { segment: seg.to_owned() };
                        (JsonValue::Object(es), Err(e))
                    },
                }
            },
            other => {
                let e = JsonError::PathNotFound { segment: path[i].as_str().to_owned() };
                (other, Err(e))
            },
        }
    }
}

/// Remove `key_to_remove` from the object the intermediate segment path
/// `path` leads to. Every intermediate segment must exist; removal of an
/// absent key is a no-op, and on any error the document is left as it was.
pub fn remove_key_at_path(
    json: &mut JsonValue,
    path: &Vec<String>,
    key_to_remove: &str,
) -> (r: Result<(), JsonError>)
    requires
        wf(old(json)@),
    ensures
        wf(final(json)@),
        ({
            let o = remove_at(old(json)@, path.deep_view(), key_to_remove@);
            match r {
                Ok(_) => o matches Ok(m2) && final(json)@ == m2,
                Err(e) => o matches Err(em) && e@ == em && final(json)@ == old(json)@,
            }
        }),
{
    let mut tmp = JsonValue::Null;
    core::mem::swap(json, &mut tmp);
    let (v2, r) = remove_go(tmp, path, 0, key_to_remove);
    *json = v2;
    proof {
        assert(path.deep_view().skip(0) =~= path.deep_view());
    }
    r
}

/// Inserting a key into the empty document and then removing the same key
/// at the same (empty) segment path returns the document to its empty state.
pub proof fn lemma_insert_then_remove_empty(key: Seq<char>, val: Seq<char>)
    ensures
        ({
            let empty_doc = JsonModel::Object(Seq::<(Seq<char>, JsonModel)>::empty());
            &&& crate::json::insert::insert_at(empty_doc, Seq::empty(), key, val) matches Ok(m2)
            &&& remove_at(
                crate::json::insert::insert_at(empty_doc, Seq::empty(), key, val)->Ok_0,
                Seq::empty(),
                key,
            ) == Result::<JsonModel, ErrorModel>::Ok(empty_doc)
        }),
{
    let empty_es = Seq::<(Seq<char>, JsonModel)>::empty();
    let st = store_entry(empty_es, key, JsonModel::String(val));
    assert(crate::value::lookup(empty_es, key) is None);
    assert(st[0] == (key, JsonModel::String(val)));
    assert(remove_entry(st, key) =~= empty_es) by {
        assert(st.drop_first() =~= empty_es);
    }
    assert(JsonModel::Object(remove_entry(st, key)) == JsonModel::Object(empty_es));
}

} // verus!
