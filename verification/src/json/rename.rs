use vstd::prelude::*;

use crate::errors::{ErrorModel, JsonError};
use crate::strings::dotted;
use crate::value::{
    jm, jm_entries, lemma_jm_entries_insert, lemma_jm_entries_len, lemma_jm_entries_remove,
    lemma_lookup_wf, lemma_remove_at_index, lemma_remove_entry_props, lemma_remove_entry_wf,
    lemma_store_at_gap, lemma_store_at_index, lemma_store_entry_props, lemma_store_entry_wf,
    lemma_wf_object, lookup, remove_entry, store_entry, wf, JsonModel, JsonValue,
};
use vstd::pervasive::unreached;

verus! {

/// Detach the value the full segment path `segs` leads to: the taken value
/// and the tree without it. `None` when the path does not resolve to an
/// existing entry, in which case nothing is detached.
pub open spec fn take_at(m: JsonModel, segs: Seq<Seq<char>>) -> Option<(JsonModel, JsonModel)>
    decreases segs.len(),
{
    if segs.len() == 0 {
        None
    } else if segs.len() == 1 {
        match m {
            JsonModel::Object(es) => match lookup(es, segs[0]) {
                Some(val) => Some((val, JsonModel::Object(remove_entry(es, segs[0])))),
                None => None,
            },
            _ => None,
        }
    } else {
        match m {
            JsonModel::Object(es) => match lookup(es, segs[0]) {
                Some(child) => match take_at(child, segs.drop_first()) {
                    Some(taken) => Some(
                        (taken.0, JsonModel::Object(store_entry(es, segs[0], taken.1))),
                    ),
                    None => None,
                },
                None => None,
            },
            _ => None,
        }
    }
}

/// Whether the create-on-demand descent of the destination path meets only
/// objects (or gaps), so that placing the value cannot lose it.
pub open spec fn place_ok(m: JsonModel, segs: Seq<Seq<char>>) -> bool
    decreases segs.len(),
{
    if segs.len() <= 1 {
        m is Object
    } else {
        match m {
            JsonModel::Object(es) => match lookup(es, segs[0]) {
                Some(child) => place_ok(child, segs.drop_first()),
                None => true,
            },
            _ => false,
        }
    }
}

/// Put `val` under the last segment of `segs`, creating missing intermediate
/// objects and overwriting the destination slot unconditionally.
pub open spec fn place_at(m: JsonModel, segs: Seq<Seq<char>>, val: JsonModel) -> JsonModel
    decreases segs.len(),
{
    if segs.len() <= 1 {
        match m {
            JsonModel::Object(es) => JsonModel::Object(
                store_entry(es, if segs.len() == 1 {
                    segs[0]
                } else {
                    Seq::empty()
                }, val),
            ),
            _ => m,
        }
    } else {
        match m {
            JsonModel::Object(es) => {
                let child = match lookup(es, segs[0]) {
                    Some(child) => child,
                    None => JsonModel::Object(Seq::empty()),
                };
                JsonModel::Object(store_entry(es, segs[0], place_at(child, segs.drop_first(), val)))
            },
            _ => m,
        }
    }
}

/// Whatever is taken out of a well-formed document is well formed, and so is
/// what remains.
pub proof fn lemma_take_at_wf(m: JsonModel, segs: Seq<Seq<char>>)
    requires
        wf(m),
    ensures
        take_at(m, segs) matches Some(taken) ==> wf(taken.0) && wf(taken.1),
    decreases segs.len(),
{
    match m {
        JsonModel::Object(es) => {
            lemma_wf_object(es);
            if segs.len() == 1 {
                match lookup(es, segs[0]) {
                    Some(_) => {
                        lemma_lookup_wf(es, segs[0]);
                        lemma_remove_entry_props(es, segs[0]);
                        lemma_remove_entry_wf(es, segs[0]);
                        lemma_wf_object(remove_entry(es, segs[0]));
                    },
                    None => {},
                }
            } else if segs.len() > 1 {
                match lookup(es, segs[0]) {
                    Some(child) => {
                        lemma_lookup_wf(es, segs[0]);
                        lemma_take_at_wf(child, segs.drop_first());
                        match take_at(child, segs.drop_first()) {
                            Some(taken) => {
                                lemma_store_entry_props(es, segs[0], taken.1);
                                lemma_store_entry_wf(es, segs[0], taken.1);
                                lemma_wf_object(store_entry(es, segs[0], taken.1));
                            },
                            None => {},
                        }
                    },
                    None => {},
                }
            }
        },
        _ => {},
    }
}

/// Placing a well-formed value into a well-formed document keeps the
/// document well formed.
pub proof fn lemma_place_at_wf(m: JsonModel, segs: Seq<Seq<char>>, val: JsonModel)
    requires
        wf(m),
        wf(val),
    ensures
        wf(place_at(m, segs, val)),
    decreases segs.len(),
{
    match m {
        JsonModel::Object(es) => {
            lemma_wf_object(es);
            if segs.len() <= 1 {
                let key = if segs.len() == 1 {
                    segs[0]
                } else {
                    Seq::<char>::empty()
                };
                lemma_store_entry_props(es, key, val);
                lemma_store_entry_wf(es, key, val);
                lemma_wf_object(store_entry(es, key, val));
            } else {
                let child = match lookup(es, segs[0]) {
                    Some(child) => child,
                    None => JsonModel::Object(Seq::empty()),
                };
                lemma_lookup_wf(es, segs[0]);
                lemma_place_at_wf(child, segs.drop_first(), val);
                let c2 = place_at(child, segs.drop_first(), val);
                lemma_store_entry_props(es, segs[0], c2);
                lemma_store_entry_wf(es, segs[0], c2);
                lemma_wf_object(store_entry(es, segs[0], c2));
            }
        },
        _ => {},
    }
}

/// The recursive worker for the take side.
fn take_go(v: JsonValue, path: &Vec<String>, i: usize) -> (r: (JsonValue, Option<JsonValue>))
    requires
        i < path@.len(),
        wf(v@),
    ensures
        ({
            let o = take_at(v@, path.deep_view().skip(i as int));
            match r.1 {
                Some(taken) => o matches Some(t) && taken@ == t.0 && r.0@ == t.1,
                None => o is None && r.0@ == v@,
            }
        }),
        wf(r.0@),
    decreases path@.len() - i,
{
    let ghost segs = path.deep_view().skip(i as int);
    proof {
        assert(path.deep_view().len() == path@.len());
        assert(segs[0] == path@[i as int]@);
    }
    match v {
        JsonValue::Object(mut es) => {
            let ghost mk = jm_entries(es@);
            proof {
                lemma_jm_entries_len(es@);
            }
            let seg = path[i].as_str();
            let n = path.len();
            match crate::value::seek_entry(&es, seg) {
                Ok(j) => {
                    let ghost es_pre = es@;
                    let (kept, child) = es.remove(j);
                    proof {
                        lemma_jm_entries_remove(es_pre, j as int);
                        assert(mk[j as int] == (kept@, jm(child)));
                        assert(v@ == JsonModel::Object(mk));
                        lemma_wf_object(mk);
                        assert(wf(jm(child)));
                    }
                    if i + 1 == n {
                        proof {
                            lemma_remove_at_index(mk, segs[0], j as int);
                            lemma_take_at_wf(v@, segs);
                        }
                        (JsonValue::Object(es), Some(child))
                    } else {
                        proof {
                            assert(segs.drop_first() =~= path.deep_view().skip(i + 1));
                        }
                        let (child2, taken) = take_go(child, path, i + 1);
                        proof {
                            lemma_store_at_index(mk, segs[0], jm(child2), j as int);
                            lemma_jm_entries_insert(es@, j as int, kept, child2);
                            assert(jm_entries(es@.insert(j as int, (kept, child2))) =~= mk.update(
                                j as int,
                                (segs[0], jm(child2)),
                            ));
                            if taken is None {
                                assert(mk.update(j as int, (segs[0], jm(child2))) =~= mk);
                            }
                            lemma_take_at_wf(v@, segs);
                        }
                        es.insert(j, (kept, child2));
                        (JsonValue::Object(es), taken)
                    }
                },
                Err(_) => (JsonValue::Object(es), None),
            }
        },
        other => (other, None),
    }
}

/// The recursive worker for the place side.
fn place_go(v: JsonValue, path: &Vec<String>, i: usize, val: JsonValue) -> (r: JsonValue)
    requires
        i < path@.len(),
        wf(v@),
        wf(val@),
        place_ok(v@, path.deep_view().skip(i as int)),
    ensures
        r@ == place_at(v@, path.deep_view().skip(i as int), val@),
        wf(r@),
    decreases path@.len() - i,
{
    let ghost segs = path.deep_view().skip(i as int);
    proof {
        assert(path.deep_view().len() == path@.len());
        assert(segs[0] == path@[i as int]@);
    }
    match v {
        JsonValue::Object(mut es) => {
            let ghost mk = jm_entries(es@);
            proof {
                lemma_jm_entries_len(es@);
                assert(v@ == JsonModel::Object(mk));
                lemma_wf_object(mk);
            }
            let seg = path[i].as_str();
            let n = path.len();
            if i + 1 == n {
                match crate::value::seek_entry(&es, seg) {
                    Ok(j) => {
                        let ghost es_pre = es@;
                        let (kept, _old_val) = es.remove(j);
                        proof {
                            lemma_jm_entries_remove(es_pre, j as int);
                            lemma_store_at_index(mk, segs[0], jm(val), j as int);
                            lemma_jm_entries_insert(es@, j as int, kept, val);
                            assert(jm_entries(es@.insert(j as int, (kept, val))) =~= mk.update(
                                j as int,
                                (segs[0], jm(val)),
                            ));
                            lemma_place_at_wf(v@, segs, jm(val));
                        }
                        es.insert(j, (kept, val));
                        JsonValue::Object(es)
                    },
                    Err(j) => {
                        let seg_owned = seg.to_owned();
                        proof {
                            lemma_store_at_gap(mk, segs[0], jm(val), j as int);
                            lemma_jm_entries_insert(es@, j as int, seg_owned, val);
                            lemma_place_at_wf(v@, segs, jm(val));
                        }
                        es.insert(j, (seg_owned, val));
                        JsonValue::Object(es)
                    },
                }
            } else {
                proof {
                    assert(segs.drop_first() =~= path.deep_view().skip(i + 1));
                }
                match crate::value::seek_entry(&es, seg) {
                    Ok(j) => {
                        let ghost es_pre = es@;
                        let (kept, child) = es.remove(j);
                        proof {
                            lemma_jm_entries_remove(es_pre, j as int);
                            assert(mk[j as int] == (kept@, jm(child)));
                            assert(wf(jm(child)));
                        }
                        let child2 = place_go(child, path, i + 1, val);
                        proof {
                            lemma_store_at_index(mk, segs[0], jm(child2), j as int);
                            lemma_jm_entries_insert(es@, j as int, kept, child2);
                            assert(jm_entries(es@.insert(j as int, (kept, child2))) =~= mk.update(
                                j as int,
                                (segs[0], jm(child2)),
                            ));
                            lemma_place_at_wf(v@, segs, jm(val));
                        }
                        es.insert(j, (kept, child2));
                        JsonValue::Object(es)
                    },
                    Err(j) => {
                        let fresh = JsonValue::Object(Vec::new());
                        proof {
                            assert(fresh@ == JsonModel::Object(Seq::empty()));
                        }
                        let child2 = place_go(fresh, path, i + 1, val);
                        let seg_owned = seg.to_owned();
                        proof {
                            lemma_store_at_gap(mk, segs[0], jm(child2), j as int);
                            lemma_jm_entries_insert(es@, j as int, seg_owned, child2);
                            lemma_place_at_wf(v@, segs, jm(val));
                        }
                        es.insert(j, (seg_owned, child2));
                        JsonValue::Object(es)
                    },
                }
            }
        },
        _ => unreached(),
    }
}

/// Whether placing a value along `path` would meet only objects or gaps, so
/// that nothing can be lost on the way.
pub fn can_place(v: &JsonValue, path: &Vec<String>) -> (b: bool)
    requires
        wf(v@),
        path@.len() >= 1,
    ensures
        b == place_ok(v@, path.deep_view()),
{
    let ghost dv = path.deep_view();
    proof {
        assert(dv.len() == path@.len());
        assert(dv.skip(0) =~= dv);
    }
    let mut cur: &JsonValue = v;
    let mut i: usize = 0;
    let n = path.len();
    while i < n - 1
        invariant
            0 <= i < n,
            n == path@.len(),
            n >= 1,
            dv == path.deep_view(),
            dv.len() == path@.len(),
            wf(cur@),
            place_ok(v@, dv) == place_ok(cur@, dv.skip(i as int)),
        decreases n - i,
    {
        proof {
            assert(dv[i as int] == path@[i as int]@);
            assert(dv.skip(i as int)[0] == dv[i as int]);
            assert(dv.skip(i as int).drop_first() =~= dv.skip(i + 1));
            assert(dv.skip(i as int).len() == dv.len() - i);
        }
        match cur {
            JsonValue::Object(es) => {
                let ghost mk = jm_entries(es@);
                proof {
                    lemma_jm_entries_len(es@);
                    assert(cur@ == JsonModel::Object(mk));
                    lemma_wf_object(mk);
                }
                match crate::value::seek_entry(es, path[i].as_str()) {
                    Ok(j) => {
                        proof {
                            assert(mk[j as int].1 == jm(es@[j as int].1));
                        }
                        cur = &es[j].1;
                        i = i + 1;
                    },
                    Err(_) => {
                        return true;
                    },
                }
            },
            _ => {
                proof {
                    crate::value::lemma_jm_is_object(*cur);
                }
                return false;
            },
        }
    }
    proof {
        assert(dv.skip(i as int).len() == 1);
        crate::value::lemma_jm_is_object(*cur);
    }
    matches!(cur, JsonValue::Object(_))
}

/// Detach the value the full segment path `from_path` leads to, handing it
/// out and leaving the document without it. Nothing changes when the path
/// does not resolve to an existing entry.
pub fn take_value_at_path(json: &mut JsonValue, from_path: &Vec<String>) -> (r: Option<JsonValue>)
    requires
        wf(old(json)@),
    ensures
        wf(final(json)@),
        ({
            let o = take_at(old(json)@, from_path.deep_view());
            match r {
                Some(taken) => o matches Some(t) && taken@ == t.0 && final(json)@ == t.1,
                None => o is None && final(json)@ == old(json)@,
            }
        }),
{
    if from_path.len() == 0 {
        return None;
    }
    let mut tmp = JsonValue::Null;
    core::mem::swap(json, &mut tmp);
    proof {
        assert(from_path.deep_view().skip(0) =~= from_path.deep_view());
    }
    let (v2, taken) = take_go(tmp, from_path, 0);
    *json = v2;
    taken
}

/// Move the value at the full segment path `from_path` to the full segment
/// path `to_path`: a single atomic take, then a place that creates missing
/// intermediate objects and overwrites the destination slot, collapsing a
/// parent when the destination names it. When the source does not resolve,
/// nothing changes and the joined source path is reported.
pub fn rename_key_at_path(
    json: &mut JsonValue,
    from_path: &Vec<String>,
    to_path: &Vec<String>,
) -> (r: Result<(), JsonError>)
    requires
        wf(old(json)@),
        to_path@.len() >= 1,
        (take_at(old(json)@, from_path.deep_view()) matches Some(taken) ==> place_ok(
            taken.1,
            to_path.deep_view(),
        )),
    ensures
        wf(final(json)@),
        ({
            let o = take_at(old(json)@, from_path.deep_view());
            match r {
                Ok(_) => o matches Some(taken) && final(json)@ == place_at(
                    taken.1,
                    to_path.deep_view(),
                    taken.0,
                ),
                Err(e) => o is None && e@ == ErrorModel::SourceKeyNotFound(
                    dotted(from_path.deep_view()),
                ) && final(json)@ == old(json)@,
            }
        }),
{
    if from_path.len() == 0 {
        let joined = crate::strings::join_strings(from_path, ".");
        proof {
            reveal_strlit(".");
            assert("."@ =~= seq!['.']);
        }
        return Err(JsonError::SourceKeyNotFound { path: joined });
    }
    let mut tmp = JsonValue::Null;
    core::mem::swap(json, &mut tmp);
    proof {
        assert(from_path.deep_view().skip(0) =~= from_path.deep_view());
        assert(to_path.deep_view().skip(0) =~= to_path.deep_view());
    }
    let (v2, taken) = take_go(tmp, from_path, 0);
    match taken {
        Some(val) => {
            proof {
                lemma_take_at_wf(old(json)@, from_path.deep_view());
            }
            let v3 = place_go(v2, to_path, 0, val);
            *json = v3;
            Ok(())
        },
        None => {
            *json = v2;
            let joined = crate::strings::join_strings(from_path, ".");
            proof {
                reveal_strlit(".");
                assert("."@ =~= seq!['.']);
            }
            Err(JsonError::SourceKeyNotFound { path: joined })
        },
    }
}

} // verus!
