use vstd::prelude::*;

use crate::errors::{ErrorModel, JsonError};
use crate::value::{
    has_key, jm, jm_entries, lemma_jm_entries_insert, lemma_jm_entries_len,
    lemma_jm_entries_remove, lemma_lookup_wf, lemma_store_at_gap, lemma_store_at_index,
    lemma_store_entry_props, lemma_store_entry_wf, lookup, store_entry, wf, JsonModel, JsonValue,
};

verus! {

/// What inserting `key -> val` below the segment path `segs` does to a
/// document: create-on-demand descent, then insert-without-overwrite.
/// On an error the document is unchanged, so only the new tree is returned.
pub open spec fn insert_at(
    m: JsonModel,
    segs: Seq<Seq<char>>,
    key: Seq<char>,
    val: Seq<char>,
) -> Result<JsonModel, ErrorModel>
    decreases segs.len(),
{
    if segs.len() == 0 {
        match m {
            JsonModel::Object(es) => if has_key(es, key) {
                Err(ErrorModel::KeyAlreadyExists(key))
            } else {
                Ok(JsonModel::Object(store_entry(es, key, JsonModel::String(val))))
            },
            _ => Err(ErrorModel::ExpectedObjectAtTarget),
        }
    } else {
        match m {
            JsonModel::Object(es) => match lookup(es, segs[0]) {
                Some(child) => if segs.len() >= 2 && !(child is Object) {
                    Err(ErrorModel::ExpectedObject(segs[0]))
                } else {
                    match insert_at(child, segs.drop_first(), key, val) {
                        Ok(c2) => Ok(JsonModel::Object(store_entry(es, segs[0], c2))),
                        Err(e) => Err(e),
                    }
                },
                None => match insert_at(
                    JsonModel::Object(Seq::empty()),
                    segs.drop_first(),
                    key,
                    val,
                ) {
                    Ok(c2) => Ok(JsonModel::Object(store_entry(es, segs[0], c2))),
                    Err(e) => Err(e),
                },
            },
            _ => Err(ErrorModel::ExpectedObject(segs[0])),
        }
    }
}

/// Descending into a freshly created object can only create further fresh
/// objects, so the insertion goes through.
pub proof fn lemma_insert_at_empty(segs: Seq<Seq<char>>, key: Seq<char>, val: Seq<char>)
    ensures
        insert_at(JsonModel::Object(Seq::empty()), segs, key, val) is Ok,
    decreases segs.len(),
{
    if segs.len() > 0 {
        lemma_insert_at_empty(segs.drop_first(), key, val);
    }
}

/// A successful insert keeps the document well formed.
pub proof fn lemma_insert_at_wf(m: JsonModel, segs: Seq<Seq<char>>, key: Seq<char>, val: Seq<char>)
    requires
        wf(m),
    ensures
        insert_at(m, segs, key, val) matches Ok(m2) ==> wf(m2),
    decreases segs.len(),
{
    match m {
        JsonModel::Object(es) => {
            crate::value::lemma_wf_object(es);
            if segs.len() == 0 {
                if !has_key(es, key) {
                    lemma_store_entry_props(es, key, JsonModel::String(val));
                    lemma_store_entry_wf(es, key, JsonModel::String(val));
                    crate::value::lemma_wf_object(store_entry(es, key, JsonModel::String(val)));
                }
            } else {
                let child = match lookup(es, segs[0]) {
                    Some(child) => child,
                    None => JsonModel::Object(Seq::empty()),
                };
                lemma_lookup_wf(es, segs[0]);
                lemma_insert_at_wf(child, segs.drop_first(), key, val);
                match insert_at(child, segs.drop_first(), key, val) {
                    Ok(c2) => {
                        lemma_store_entry_props(es, segs[0], c2);
                        lemma_store_entry_wf(es, segs[0], c2);
                        crate::value::lemma_wf_object(store_entry(es, segs[0], c2));
                    },
                    Err(_) => {},
                }
            }
        },
        _ => {},
    }
}

/// The recursive worker: apply the insert below `path[i..]` to the owned tree
/// `v` and hand the (possibly unchanged) tree back with the outcome.
fn insert_go(v: JsonValue, path: &Vec<String>, i: usize, key: &str, value: &str) -> (r: (
    JsonValue,
    Result<(), JsonError>,
))
    requires
        i <= path@.len(),
        wf(v@),
    ensures
        ({
            let o = insert_at(v@, path.deep_view().skip(i as int), key@, value@);
            match r.1 {
                Ok(_) => o matches Ok(m2) && r.0@ == m2,
                Err(e) => o matches Err(em) && e@ == em && r.0@ == v@,
            }
        }),
        wf(r.0@),
    decreases path@.len() - i,
{
    let ghost segs = path.deep_view().skip(i as int);
    proof {
        assert(path.deep_view().len() == path@.len());
    }
    if i == path.len() {
        match v {
            JsonValue::Object(mut es) => {
                let ghost mk = jm_entries(es@);
                proof {
                    lemma_jm_entries_len(es@);
                }
                match crate::value::seek_entry(&es, key) {
                    Ok(_j) => {
                        let e = JsonError::KeyAlreadyExists { key: key.to_owned() };
                        (JsonValue::Object(es), Err(e))
                    },
                    Err(j) => {
                        let key_owned = key.to_owned();
                        let leaf = JsonValue::String(value.to_owned());
                        proof {
                            lemma_store_at_gap(mk, key@, JsonModel::String(value@), j as int);
                            lemma_jm_entries_insert(es@, j as int, key_owned, leaf);
                            lemma_insert_at_wf(v@, segs, key@, value@);
                        }
                        es.insert(j, (key_owned, leaf));
                        (JsonValue::Object(es), Ok(()))
                    },
                }
            },
            other => (other, Err(JsonError::ExpectedObjectAtTarget)),
        }
    } else {
        let ghost seg0 = path.deep_view()[i as int];
        proof {
            assert(segs[0] == seg0);
            assert(segs.drop_first() =~= path.deep_view().skip(i + 1));
            assert(seg0 == path@[i as int]@);
        }
        match v {
            JsonValue::Object(mut es) => {
                let ghost mk = jm_entries(es@);
                proof {
                    lemma_jm_entries_len(es@);
                }
                let seg = path[i].as_str();
                match crate::value::seek_entry(&es, seg) {
                    Ok(j) => {
                        let is_last = i + 1 == path.len();
                        let child_is_obj = matches!(&es[j].1, JsonValue::Object(_));
                        proof {
                            assert(mk[j as int].1 == jm(es@[j as int].1));
                            crate::value::lemma_jm_is_object(es@[j as int].1);
                        }
                        if !is_last && !child_is_obj {
                            let e = JsonError::ExpectedObject { segment: seg.to_owned() };
                            (JsonValue::Object(es), Err(e))
                        } else {
                            let ghost es_pre = es@;
                            let (kept, child) = es.remove(j);
                            proof {
                                lemma_jm_entries_remove(es_pre, j as int);
                                assert(mk[j as int] == (kept@, jm(child)));
                                assert(v@ == JsonModel::Object(mk));
                                crate::value::lemma_wf_object(mk);
                                assert(wf(jm(child)));
                            }
                            let (child2, res) = insert_go(child, path, i + 1, key, value);
                            proof {
                                lemma_store_at_index(mk, seg0, jm(child2), j as int);
                                lemma_jm_entries_insert(es@, j as int, kept, child2);
                                assert(jm_entries(es@.insert(j as int, (kept, child2)))
                                    =~= mk.update(j as int, (seg0, jm(child2))));
                                if res is Err {
                                    assert(mk.update(j as int, (seg0, jm(child2))) =~= mk);
                                }
                                lemma_insert_at_wf(v@, segs, key@, value@);
                            }
                            es.insert(j, (kept, child2));
                            (JsonValue::Object(es), res)
                        }
                    },
                    Err(j) => {
                        let fresh = JsonValue::Object(Vec::new());
                        proof {
                            assert(fresh@ == JsonModel::Object(Seq::empty()));
                            lemma_insert_at_empty(segs.drop_first(), key@, value@);
                        }
                        let (child2, res) = insert_go(fresh, path, i + 1, key, value);
                        let seg_owned = seg.to_owned();
                        proof {
                            assert(seg_owned@ == seg0);
                            lemma_store_at_gap(mk, seg0, jm(child2), j as int);
                            lemma_jm_entries_insert(es@, j as int, seg_owned, child2);
                            lemma_insert_at_wf(v@, segs, key@, value@);
                        }
                        es.insert(j, (seg_owned, child2));
                        (JsonValue::Object(es), Ok(()))
                    },
                }
            },
            other => {
                let e = JsonError::ExpectedObject { segment: path[i].as_str().to_owned() };
                (other, Err(e))
            },
        }
    }
}

/// Insert `new_key -> new_value` under the intermediate segment path `path`,
/// creating missing intermediate objects on the way down. Insert never
/// overwrites: an occupied target key is refused, and on any error the
/// document is left as it was.
pub fn insert_under_key(
    json: &mut JsonValue,
    path: &Vec<String>,
    new_key: &str,
    new_value: &str,
) -> (r: Result<(), JsonError>)
    requires
        wf(old(json)@),
    ensures
        wf(final(json)@),
        ({
            let o = insert_at(old(json)@, path.deep_view(), new_key@, new_value@);
            match r {
                Ok(_) => o matches Ok(m2) && final(json)@ == m2,
                Err(e) => o matches Err(em) && e@ == em && final(json)@ == old(json)@,
            }
        }),
{
    let mut tmp = JsonValue::Null;
    core::mem::swap(json, &mut tmp);
    let (v2, r) = insert_go(tmp, path, 0, new_key, new_value);
    *json = v2;
    proof {
        assert(path.deep_view().skip(0) =~= path.deep_view());
    }
    r
}

/// Insert is refused with `KeyAlreadyExists` exactly when the landing
/// object, as it already stands in the document, carries the target key --
/// whatever kind of value is bound to it. When the landing object does not
/// exist yet, it is created fresh and can never carry the key.
pub proof fn lemma_insert_rejected_iff_key_present(
    m: JsonModel,
    segs: Seq<Seq<char>>,
    key: Seq<char>,
    val: Seq<char>,
)
    ensures
        insert_at(m, segs, key, val) == Result::<JsonModel, ErrorModel>::Err(
            ErrorModel::KeyAlreadyExists(key),
        ) <==> (crate::value::value_at(m, segs) matches Some(JsonModel::Object(es)) && has_key(
            es,
            key,
        )),
    decreases segs.len(),
{
    if segs.len() > 0 {
        match m {
            JsonModel::Object(es) => {
                match lookup(es, segs[0]) {
                    Some(child) => {
                        lemma_insert_rejected_iff_key_present(child, segs.drop_first(), key, val);
                    },
                    None => {
                        lemma_insert_at_empty(segs.drop_first(), key, val);
                    },
                }
            },
            _ => {},
        }
    }
}

} // verus!
