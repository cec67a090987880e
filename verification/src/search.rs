use vstd::prelude::*;

use crate::value::{
    jm, jm_entries, lemma_jm_entries_len, lemma_wf_object, value_at, wf, JsonModel, JsonValue,
};

verus! {

/// The string value the full segment path `path` leads to, if the descent
/// reaches one.
pub fn get_string_at_path(json: &JsonValue, path: &Vec<String>) -> (r: Option<String>)
    requires
        wf(json@),
    ensures
        match r {
            Some(s) => value_at(json@, path.deep_view()) == Some(JsonModel::String(s@)),
            None => match value_at(json@, path.deep_view()) {
                Some(m) => !(m is String),
                None => true,
            },
        },
{
    let ghost dv = path.deep_view();
    proof {
        assert(dv.len() == path@.len());
        assert(dv.skip(0) =~= dv);
    }
    let mut cur: &JsonValue = json;
    let mut i: usize = 0;
    while i < path.len()
        invariant
            0 <= i <= path@.len(),
            dv == path.deep_view(),
            dv.len() == path@.len(),
            wf(cur@),
            value_at(json@, dv) == value_at(cur@, dv.skip(i as int)),
        decreases path@.len() - i,
    {
        proof {
            assert(dv[i as int] == path@[i as int]@);
            assert(dv.skip(i as int)[0] == dv[i as int]);
            assert(dv.skip(i as int).drop_first() =~= dv.skip(i + 1));
        }
        match cur {
            JsonValue::Object(es) => {
                let ghost mk = jm_entries(es@);
                proof {
                    lemma_jm_entries_len(es@);
                    assert(cur@ == JsonModel::Object(mk));
                    lemma_wf_object(mk);
                }
                match crate::value::seek_entry(es, path[i].as_str()) {
                    Ok(j) => {
                        proof {
                            assert(mk[j as int].1 == jm(es@[j as int].1));
                        }
                        cur = &es[j].1;
                        i = i + 1;
                    },
                    Err(_) => {
                        return None;
                    },
                }
            },
            _ => {
                return None;
            },
        }
    }
    proof {
        assert(dv.skip(dv.len() as int) =~= Seq::<Seq<char>>::empty());
        assert(value_at(cur@, Seq::<Seq<char>>::empty()) == Some(cur@));
    }
    match cur {
        JsonValue::String(s) => Some(s.as_str().to_owned()),
        _ => None,
    }
}

/// Which of the given paths to keep, judged by the per-path scan outcome:
/// the path at each position stays exactly when its flag says its value was
/// found nowhere.
pub open spec fn kept_paths(ps: Seq<Seq<char>>, fs: Seq<bool>) -> Seq<Seq<char>>
    decreases ps.len(),
{
    if ps.len() == 0 {
        Seq::empty()
    } else {
        let front = kept_paths(ps.drop_last(), fs.drop_last());
        if fs.last() {
            front
        } else {
            front.push(ps.last())
        }
    }
}

/// Keep the paths whose value the source scan never found. `found` carries
/// one flag per path, in the same order, truthy when the path's value
/// occurred somewhere under the searched root.
pub fn filter_unused_paths(paths: &Vec<String>, found: &Vec<bool>) -> (r: Vec<String>)
    requires
        paths@.len() == found@.len(),
    ensures
        r.deep_view() == kept_paths(paths.deep_view(), found@),
{
    let ghost pdv = paths.deep_view();
    let mut r: Vec<String> = Vec::new();
    proof {
        assert(pdv.take(0) =~= Seq::<Seq<char>>::empty());
        assert(found@.take(0) =~= Seq::<bool>::empty());
        assert(r.deep_view() =~= Seq::<Seq<char>>::empty());
    }
    let mut i: usize = 0;
    while i < paths.len()
        invariant
            0 <= i <= paths@.len(),
            pdv == paths.deep_view(),
            pdv.len() == paths@.len(),
            found@.len() == paths@.len(),
            r.deep_view() == kept_paths(pdv.take(i as int), found@.take(i as int)),
        decreases paths@.len() - i,
    {
        let ghost rdv = r.deep_view();
        proof {
            assert(pdv[i as int] == paths@[i as int]@);
            assert(pdv.take(i + 1).drop_last() =~= pdv.take(i as int));
            assert(found@.take(i + 1).drop_last() =~= found@.take(i as int));
            assert(pdv.take(i + 1).last() == pdv[i as int]);
            assert(found@.take(i + 1).last() == found@[i as int]);
        }
        if !found[i] {
            r.push(paths[i].as_str().to_owned());
            proof {
                assert(r.deep_view() =~= rdv.push(pdv[i as int])) by {
                    assert forall|k: int|
                        0 <= k < r.deep_view().len() implies r.deep_view()[k] == rdv.push(
                        pdv[i as int],
                    )[k] by {
                        assert(r.deep_view()[k] == r@[k]@);
                    }
                }
            }
        }
        i = i + 1;
    }
    proof {
        assert(pdv.take(pdv.len() as int) =~= pdv);
        assert(found@.take(found@.len() as int) =~= found@);
    }
    r
}

} // verus!
