use vstd::prelude::*;

use crate::errors::{ErrorModel, JsonError};
use crate::strings::{
    find_last, insert_sorted, last_index_of, lemma_last_index_of_bounds, seq_sorted_le, split_on,
    split_string, str_compare, KeyOrder,
};

verus! {

/// The path string with trailing slashes removed.
pub open spec fn strip_trailing_slashes(s: Seq<char>) -> Seq<char>
    decreases s.len(),
{
    if s.len() > 0 && s.last() == '/' {
        strip_trailing_slashes(s.drop_last())
    } else {
        s
    }
}

/// The stem of a file path: its last path segment without the extension, or
/// nothing when the path names no file. A name whose only dot comes first
/// keeps it: such names are dotfiles, not extensions.
pub open spec fn stem_of(s: Seq<char>) -> Option<Seq<char>> {
    let t = strip_trailing_slashes(s);
    if t.len() == 0 {
        None
    } else {
        let name = t.skip(last_index_of(t, '/') + 1);
        if name == seq!['.'] || name == seq!['.', '.'] {
            None
        } else {
            let l = last_index_of(name, '.');
            if l <= 0 {
                Some(name)
            } else {
                Some(name.take(l))
            }
        }
    }
}

/// What asking for the stem of one path yields.
pub open spec fn stem_result(p: Seq<char>) -> Result<Seq<char>, ErrorModel> {
    if p.len() == 0 {
        Err(ErrorModel::EmptyPathString)
    } else {
        match stem_of(p) {
            Some(st) => Ok(st),
            None => Err(ErrorModel::NoFileStem),
        }
    }
}

/// The stems of all the paths, or the first failure among them.
pub open spec fn stems_of(ps: Seq<Seq<char>>) -> Result<Seq<Seq<char>>, ErrorModel>
    decreases ps.len(),
{
    if ps.len() == 0 {
        Ok(Seq::empty())
    } else {
        match stems_of(ps.drop_last()) {
            Err(e) => Err(e),
            Ok(sts) => match stem_result(ps.last()) {
                Err(e) => Err(e),
                Ok(st) => Ok(sts.push(st)),
            },
        }
    }
}

/// The keys of an update mapping.
pub open spec fn key_views(us: Seq<(String, String)>) -> Seq<Seq<char>>
    decreases us.len(),
{
    if us.len() == 0 {
        Seq::empty()
    } else {
        key_views(us.drop_last()).push(us.last().0@)
    }
}

pub proof fn lemma_key_views_len(us: Seq<(String, String)>)
    ensures
        key_views(us).len() == us.len(),
        forall|i: int| 0 <= i < us.len() ==> #[trigger] key_views(us)[i] == us[i].0@,
    decreases us.len(),
{
    if us.len() > 0 {
        lemma_key_views_len(us.drop_last());
    }
}

/// Of `xs`, in order, the members that `keys` lacks.
pub open spec fn absent_from(xs: Seq<Seq<char>>, keys: Seq<Seq<char>>) -> Seq<Seq<char>>
    decreases xs.len(),
{
    if xs.len() == 0 {
        Seq::empty()
    } else {
        let front = absent_from(xs.drop_last(), keys);
        if keys.contains(xs.last()) {
            front
        } else {
            front.push(xs.last())
        }
    }
}

/// If an earlier path already failed, the failure stands whatever follows.
proof fn lemma_stems_of_first_err(ps: Seq<Seq<char>>, i: int)
    requires
        0 <= i < ps.len(),
        stems_of(ps.take(i)) is Ok,
        stem_result(ps[i]) is Err,
    ensures
        stems_of(ps) == Result::<Seq<Seq<char>>, ErrorModel>::Err(stem_result(ps[i])->Err_0),
    decreases ps.len(),
{
    if i == ps.len() - 1 {
        assert(ps.drop_last() =~= ps.take(i));
        assert(ps.last() == ps[i]);
    } else {
        assert(ps.drop_last().take(i) =~= ps.take(i));
        assert(ps.drop_last()[i] == ps[i]);
        lemma_stems_of_first_err(ps.drop_last(), i);
    }
}

/// Whether the update mapping carries `key`.
fn updates_contain(updates: &Vec<(String, String)>, key: &str) -> (b: bool)
    ensures
        b == key_views(updates@).contains(key@),
{
    let ghost kvs = key_views(updates@);
    proof {
        lemma_key_views_len(updates@);
    }
    let mut i: usize = 0;
    while i < updates.len()
        invariant
            0 <= i <= updates@.len(),
            kvs == key_views(updates@),
            kvs.len() == updates@.len(),
            forall|i0: int| 0 <= i0 < updates@.len() ==> #[trigger] kvs[i0] == updates@[i0].0@,
            forall|k: int| 0 <= k < i ==> kvs[k] != key@,
        decreases updates@.len() - i,
    {
        if matches!(str_compare(updates[i].0.as_str(), key), KeyOrder::Equal) {
            proof {
                assert(kvs[i as int] == key@);
            }
            return true;
        }
        i = i + 1;
    }
    false
}

/// The stem of one file path. A path is refused when it is empty or names
/// no file.
pub fn get_file_stem(path_str: &str) -> (r: Result<String, JsonError>)
    ensures
        path_str@.len() == 0 ==> (r matches Err(e) && e@ == ErrorModel::EmptyPathString),
        path_str@.len() > 0 ==> match r {
            Ok(st) => stem_of(path_str@) == Some(st@),
            Err(e) => stem_of(path_str@) is None && e@ == ErrorModel::NoFileStem,
        },
{
    let n = path_str.unicode_len();
    if n == 0 {
        return Err(JsonError::EmptyPathString);
    }
    proof {
        assert(path_str@.take(n as int) =~= path_str@);
        reveal_strlit(".");
        reveal_strlit("..");
        assert("."@ =~= seq!['.']);
        assert(".."@ =~= seq!['.', '.']);
    }
    let mut end: usize = n;
    while end > 0
        invariant_except_break
            0 <= end <= n,
            n == path_str@.len(),
            strip_trailing_slashes(path_str@) == strip_trailing_slashes(path_str@.take(end as int)),
        ensures
            0 <= end <= n,
            n == path_str@.len(),
            strip_trailing_slashes(path_str@) == path_str@.take(end as int),
        decreases end,
    {
        let ch = path_str.get_char(end - 1);
        proof {
            assert(path_str@.take(end as int).last() == path_str@[end - 1]);
            assert(path_str@.take(end as int).drop_last() =~= path_str@.take(end - 1));
        }
        if ch != '/' {
            break ;
        }
        end = end - 1;
        proof {
            if end == 0 {
                assert(path_str@.take(0) =~= Seq::<char>::empty());
            }
        }
    }
    if end == 0 {
        return Err(JsonError::NoFileStem);
    }
    let t = path_str.substring_char(0, end);
    let ghost tv = strip_trailing_slashes(path_str@);
    proof {
        assert(t@ == tv);
        lemma_last_index_of_bounds(tv, '/');
    }
    let name = match find_last(t, '/') {
        Some(k) => {
            let nm = t.substring_char(k + 1, end);
            proof {
                assert(nm@ =~= tv.skip(last_index_of(tv, '/') + 1));
            }
            nm
        },
        None => {
            proof {
                assert(t@ =~= tv.skip(last_index_of(tv, '/') + 1));
            }
            t
        },
    };
    if matches!(str_compare(name, "."), KeyOrder::Equal) || matches!(
        str_compare(name, ".."),
        KeyOrder::Equal,
    ) {
        return Err(JsonError::NoFileStem);
    }
    proof {
        lemma_last_index_of_bounds(name@, '.');
    }
    match find_last(name, '.') {
        None => Ok(name.to_owned()),
        Some(l) => {
            if l == 0 {
                Ok(name.to_owned())
            } else {
                let st = name.substring_char(0, l);
                proof {
                    assert(st@ =~= name@.take(last_index_of(name@, '.')));
                }
                Ok(st.to_owned())
            }
        },
    }
}

/// Split a dotted key string at its last dot: everything before it is the
/// intermediate segment path, everything after it the final key. A string
/// without a dot is all key. Purely syntactic: any input is accepted.
pub fn get_path_and_key(s: &str) -> (r: Result<(Vec<String>, String), JsonError>)
    ensures
        r matches Ok(pk) && ({
            let l = last_index_of(s@, '.');
            if l < 0 {
                pk.0@.len() == 0 && pk.1@ == s@
            } else {
                pk.0.deep_view() == split_on(s@.take(l), '.') && pk.1@ == s@.skip(l + 1)
            }
        }),
        !s@.contains('.') ==> (r matches Ok(pk) && pk.0@.len() == 0 && pk.1@ == s@),
{
    proof {
        lemma_last_index_of_bounds(s@, '.');
        if last_index_of(s@, '.') >= 0 {
            assert(s@.contains('.')) by {
                assert(s@[last_index_of(s@, '.')] == '.');
            }
        }
    }
    let n = s.unicode_len();
    match find_last(s, '.') {
        None => Ok((Vec::new(), s.to_owned())),
        Some(l) => {
            let left = s.substring_char(0, l);
            let right = s.substring_char(l + 1, n);
            proof {
                assert(left@ =~= s@.take(l as int));
                assert(right@ =~= s@.skip(l + 1));
            }
            let parts = split_string(left, '.');
            Ok((parts, right.to_owned()))
        },
    }
}

/// Split a comma-separated list of file stems.
pub fn parse_limit(s: &str) -> (r: Vec<String>)
    ensures
        r.deep_view() == split_on(s@, ','),
        r@.len() >= 1,
{
    split_string(s, ',')
}

/// Check that the files and the update mapping account for each other
/// exactly: every file stem must have an update key and every update key a
/// file stem. The offending stems or keys are reported in sorted order, the
/// stems first.
pub fn validate_paths_and_updates_file_keys_match(
    updates: &Vec<(String, String)>,
    paths: &Vec<String>,
) -> (r: Result<(), JsonError>)
    ensures
        ({
            let kvs = key_views(updates@);
            match stems_of(paths.deep_view()) {
                Err(e0) => r matches Err(e) && e@ == e0,
                Ok(sts) => {
                    let miss = absent_from(sts, kvs);
                    let extra = absent_from(kvs, sts);
                    if miss.len() > 0 {
                        r matches Err(e) && e@ matches ErrorModel::MissingUpdateKeys(ms)
                            && seq_sorted_le(ms) && ms.to_multiset() == miss.to_multiset()
                    } else if extra.len() > 0 {
                        r matches Err(e) && e@ matches ErrorModel::ExtraUpdateKeys(ms)
                            && seq_sorted_le(ms) && ms.to_multiset() == extra.to_multiset()
                    } else {
                        r is Ok
                    }
                },
            }
        }),
{
    broadcast use vstd::seq_lib::group_to_multiset_ensures;

    let ghost pdv = paths.deep_view();
    let ghost kvs = key_views(updates@);
    let mut stems: Vec<String> = Vec::new();
    proof {
        assert(pdv.take(0) =~= Seq::<Seq<char>>::empty());
        assert(stems.deep_view() =~= Seq::<Seq<char>>::empty());
    }
    let mut i: usize = 0;
    while i < paths.len()
        invariant
            0 <= i <= paths@.len(),
            pdv == paths.deep_view(),
            kvs == key_views(updates@),
            pdv.len() == paths@.len(),
            stems_of(pdv.take(i as int)) == Result::<Seq<Seq<char>>, ErrorModel>::Ok(
                stems.deep_view(),
            ),
        decreases paths@.len() - i,
    {
        proof {
            assert(pdv[i as int] == paths@[i as int]@);
            assert(pdv.take(i + 1).drop_last() =~= pdv.take(i as int));
            assert(pdv.take(i + 1).last() == pdv[i as int]);
        }
        match get_file_stem(paths[i].as_str()) {
            Ok(st) => {
                let ghost old_sdv = stems.deep_view();
                let ghost stv = st@;
                stems.push(st);
                proof {
                    assert(stems.deep_view() =~= old_sdv.push(stv)) by {
                        assert forall|k: int|
                            0 <= k < stems.deep_view().len() implies stems.deep_view()[k]
                            == old_sdv.push(stv)[k] by {
                            assert(stems.deep_view()[k] == stems@[k]@);
                        }
                    }
                    assert(stems_of(pdv.take(i + 1)) == Result::<Seq<Seq<char>>, ErrorModel>::Ok(
                        stems.deep_view(),
                    ));
                }
                i = i + 1;
            },
            Err(e) => {
                proof {
                    lemma_stems_of_first_err(pdv, i as int);
                }
                return Err(e);
            },
        }
    }
    proof {
        assert(pdv.take(pdv.len() as int) =~= pdv);
    }
    let ghost sts = stems.deep_view();
    let mut missing: Vec<String> = Vec::new();
    proof {
        assert(sts.take(0) =~= Seq::<Seq<char>>::empty());
        assert(missing.deep_view() =~= Seq::<Seq<char>>::empty());
        assert(missing.deep_view().to_multiset() =~= absent_from(sts.take(0), kvs).to_multiset());
    }
    let mut j: usize = 0;
    while j < stems.len()
        invariant
            0 <= j <= stems@.len(),
            sts == stems.deep_view(),
            kvs == key_views(updates@),
            sts.len() == stems@.len(),
            seq_sorted_le(missing.deep_view()),
            missing.deep_view().to_multiset() == absent_from(sts.take(j as int), kvs).to_multiset(),
        decreases stems@.len() - j,
    {
        proof {
            broadcast use vstd::seq_lib::group_to_multiset_ensures;

            assert(sts[j as int] == stems@[j as int]@);
            assert(sts.take(j + 1).drop_last() =~= sts.take(j as int));
            assert(sts.take(j + 1).last() == sts[j as int]);
        }
        if !updates_contain(updates, stems[j].as_str()) {
            insert_sorted(&mut missing, stems[j].as_str());
            proof {
                broadcast use vstd::seq_lib::group_to_multiset_ensures;

                assert(absent_from(sts.take(j + 1), kvs) == absent_from(sts.take(j as int), kvs).push(sts[j as int]));
            }
        }
        j = j + 1;
    }
    proof {
        assert(sts.take(sts.len() as int) =~= sts);
    }
    if missing.len() > 0 {
        proof {
            assert(absent_from(sts, kvs).to_multiset().len() == absent_from(sts, kvs).len());
            assert(missing.deep_view().to_multiset().len() == missing.deep_view().len());
        }
        return Err(JsonError::MissingUpdateKeys { keys: missing });
    }
    proof {
        assert(absent_from(sts, kvs).to_multiset().len() == absent_from(sts, kvs).len());
        assert(missing.deep_view().to_multiset().len() == missing.deep_view().len());
    }
    let mut extra: Vec<String> = Vec::new();
    proof {
        lemma_key_views_len(updates@);
        assert(kvs.take(0) =~= Seq::<Seq<char>>::empty());
        assert(extra.deep_view() =~= Seq::<Seq<char>>::empty());
        assert(extra.deep_view().to_multiset() =~= absent_from(kvs.take(0), sts).to_multiset());
    }
    let mut j2: usize = 0;
    while j2 < updates.len()
        invariant
            0 <= j2 <= updates@.len(),
            sts == stems.deep_view(),
            kvs == key_views(updates@),
            kvs.len() == updates@.len(),
            forall|i0: int| 0 <= i0 < updates@.len() ==> #[trigger] kvs[i0] == updates@[i0].0@,
            seq_sorted_le(extra.deep_view()),
            extra.deep_view().to_multiset() == absent_from(kvs.take(j2 as int), sts).to_multiset(),
        decreases updates@.len() - j2,
    {
        proof {
            broadcast use vstd::seq_lib::group_to_multiset_ensures;

            assert(kvs.take(j2 + 1).drop_last() =~= kvs.take(j2 as int));
            assert(kvs.take(j2 + 1).last() == kvs[j2 as int]);
        }
        if !crate::strings::contains_string(&stems, updates[j2].0.as_str()) {
            insert_sorted(&mut extra, updates[j2].0.as_str());
            proof {
                broadcast use vstd::seq_lib::group_to_multiset_ensures;

                assert(absent_from(kvs.take(j2 + 1), sts) == absent_from(kvs.take(j2 as int), sts).push(kvs[j2 as int]));
            }
        }
        j2 = j2 + 1;
    }
    proof {
        assert(kvs.take(kvs.len() as int) =~= kvs);
    }
    if extra.len() > 0 {
        proof {
            assert(absent_from(kvs, sts).to_multiset().len() == absent_from(kvs, sts).len());
            assert(extra.deep_view().to_multiset().len() == extra.deep_view().len());
        }
        return Err(JsonError::ExtraUpdateKeys { keys: extra });
    }
    proof {
        assert(absent_from(kvs, sts).to_multiset().len() == absent_from(kvs, sts).len());
        assert(extra.deep_view().to_multiset().len() == extra.deep_view().len());
    }
    Ok(())
}

/// Check that every stem in the requested subset has an entry in the update
/// mapping; the stems it lacks are reported in sorted order.
pub fn validate_required_keys_exist(
    updates: &Vec<(String, String)>,
    required: &Vec<String>,
) -> (r: Result<(), JsonError>)
    ensures
        ({
            let miss = absent_from(required.deep_view(), key_views(updates@));
            if miss.len() > 0 {
                r matches Err(e) && e@ matches ErrorModel::MissingUpdateKeys(ms) && seq_sorted_le(
                    ms,
                ) && ms.to_multiset() == miss.to_multiset()
            } else {
                r is Ok
            }
        }),
{
    broadcast use vstd::seq_lib::group_to_multiset_ensures;

    let ghost rdv = required.deep_view();
    let ghost kvs = key_views(updates@);
    let mut missing: Vec<String> = Vec::new();
    proof {
        assert(rdv.take(0) =~= Seq::<Seq<char>>::empty());
        assert(missing.deep_view() =~= Seq::<Seq<char>>::empty());
        assert(missing.deep_view().to_multiset() =~= absent_from(rdv.take(0), kvs).to_multiset());
    }
    let mut j: usize = 0;
    while j < required.len()
        invariant
            0 <= j <= required@.len(),
            rdv == required.deep_view(),
            kvs == key_views(updates@),
            rdv.len() == required@.len(),
            seq_sorted_le(missing.deep_view()),
            missing.deep_view().to_multiset() == absent_from(rdv.take(j as int), kvs).to_multiset(),
        decreases required@.len() - j,
    {
        proof {
            broadcast use vstd::seq_lib::group_to_multiset_ensures;

            assert(rdv[j as int] == required@[j as int]@);
            assert(rdv.take(j + 1).drop_last() =~= rdv.take(j as int));
            assert(rdv.take(j + 1).last() == rdv[j as int]);
        }
        if !updates_contain(updates, required[j].as_str()) {
            insert_sorted(&mut missing, required[j].as_str());
            proof {
                broadcast use vstd::seq_lib::group_to_multiset_ensures;

                assert(absent_from(rdv.take(j + 1), kvs) == absent_from(rdv.take(j as int), kvs).push(rdv[j as int]));
            }
        }
        j = j + 1;
    }
    proof {
        assert(rdv.take(rdv.len() as int) =~= rdv);
    }
    if missing.len() > 0 {
        proof {
            assert(absent_from(rdv, kvs).to_multiset().len() == absent_from(rdv, kvs).len());
            assert(missing.deep_view().to_multiset().len() == missing.deep_view().len());
        }
        return Err(JsonError::MissingUpdateKeys { keys: missing });
    }
    proof {
        assert(absent_from(rdv, kvs).to_multiset().len() == absent_from(rdv, kvs).len());
        assert(missing.deep_view().to_multiset().len() == missing.deep_view().len());
    }
    Ok(())
}

} // verus!
