use vstd::prelude::*;

use crate::errors::{ErrorModel, JsonError};
use crate::strings::{dotted, join_with, lemma_join_with_push, seq_sorted};
use crate::value::{
    entries_sorted, jm, jm_entries, lemma_jm_entries_len, lemma_lookup_absent, lemma_wf_object,
    lookup, wf, JsonModel, JsonValue,
};

verus! {

/// Whether the segment path `q` leads from `m` to a leaf: a value that is
/// not an object.
pub open spec fn is_leaf_path(m: JsonModel, q: Seq<Seq<char>>) -> bool
    decreases q.len(),
{
    if q.len() == 0 {
        !(m is Object)
    } else {
        match m {
            JsonModel::Object(es) => match lookup(es, q[0]) {
                Some(child) => is_leaf_path(child, q.drop_first()),
                None => false,
            },
            _ => false,
        }
    }
}

/// Whether `y` is the dotted rendering, below the prefix `prefix`, of some
/// leaf path of `m`.
pub open spec fn leaf_str_below(m: JsonModel, prefix: Seq<Seq<char>>, y: Seq<char>) -> bool {
    exists|q: Seq<Seq<char>>| #[trigger] is_leaf_path(m, q) && y == dotted(prefix + q)
}

/// The dotted leaf paths of a whole document.
pub open spec fn leaf_str(m: JsonModel, y: Seq<char>) -> bool {
    leaf_str_below(m, Seq::empty(), y)
}

/// Looking a key up after appending one entry: the new entry answers only
/// for keys the old list does not bind.
pub proof fn lemma_lookup_push(es: Seq<(Seq<char>, JsonModel)>, x: (Seq<char>, JsonModel))
    ensures
        forall|k: Seq<char>|
            #[trigger] lookup(es.push(x), k) == if lookup(es, k) is Some {
                lookup(es, k)
            } else if x.0 == k {
                Some(x.1)
            } else {
                None::<JsonModel>
            },
    decreases es.len(),
{
    if es.len() == 0 {
        assert forall|k: Seq<char>|
            #[trigger] lookup(es.push(x), k) == if lookup(es, k) is Some {
                lookup(es, k)
            } else if x.0 == k {
                Some(x.1)
            } else {
                None::<JsonModel>
            } by {
            reveal_with_fuel(lookup, 3);
            let s = es.push(x);
            assert(s.len() == 1);
            assert(s[0] == x);
            assert(s.drop_first() =~= Seq::<(Seq<char>, JsonModel)>::empty());
            if x.0 == k {
                assert(lookup(s, k) == Some(x.1));
            } else {
                assert(lookup(s, k) == lookup(s.drop_first(), k));
            }
        }
    } else {
        lemma_lookup_push(es.drop_first(), x);
        assert forall|k: Seq<char>|
            #[trigger] lookup(es.push(x), k) == if lookup(es, k) is Some {
                lookup(es, k)
            } else if x.0 == k {
                Some(x.1)
            } else {
                None::<JsonModel>
            } by {
            reveal_with_fuel(lookup, 3);
            assert(es.push(x)[0] == es[0]);
            assert(es.push(x).drop_first() =~= es.drop_first().push(x));
            if es[0].0 == k {
                assert(lookup(es.push(x), k) == Some(es[0].1));
                assert(lookup(es, k) == Some(es[0].1));
            } else {
                assert(lookup(es.push(x), k) == lookup(es.drop_first().push(x), k));
                assert(lookup(es, k) == lookup(es.drop_first(), k));
            }
        }
    }
}

/// Extending the visible entries of an object by one: its leaf paths grow by
/// exactly the paths through the new entry.
pub proof fn lemma_leaf_path_split(es: Seq<(Seq<char>, JsonModel)>, i: int)
    requires
        entries_sorted(es),
        0 <= i < es.len(),
    ensures
        forall|q: Seq<Seq<char>>|
            #[trigger] is_leaf_path(JsonModel::Object(es.take(i + 1)), q) <==> (is_leaf_path(
                JsonModel::Object(es.take(i)),
                q,
            ) || (q.len() > 0 && q[0] == es[i].0 && is_leaf_path(es[i].1, q.drop_first()))),
{
    assert forall|w: int| 0 <= w < i implies (#[trigger] es.take(i)[w].0) != es[i].0 by {
        assert(es.take(i)[w] == es[w]);
        crate::strings::lemma_str_lt_irreflexive(es[i].0);
    }
    lemma_lookup_absent(es.take(i), es[i].0);
    lemma_lookup_push(es.take(i), es[i]);
    assert(es.take(i + 1) =~= es.take(i).push(es[i]));
    assert forall|q: Seq<Seq<char>>|
        #[trigger] is_leaf_path(JsonModel::Object(es.take(i + 1)), q) <==> (is_leaf_path(
            JsonModel::Object(es.take(i)),
            q,
        ) || (q.len() > 0 && q[0] == es[i].0 && is_leaf_path(es[i].1, q.drop_first()))) by {
        if q.len() > 0 {
            assert(lookup(es.take(i).push(es[i]), q[0]) == if lookup(es.take(i), q[0]) is Some {
                lookup(es.take(i), q[0])
            } else if es[i].0 == q[0] {
                Some(es[i].1)
            } else {
                None::<JsonModel>
            });
        }
    }
}

/// The same, over dotted strings.
pub proof fn lemma_leaf_str_split(es: Seq<(Seq<char>, JsonModel)>, i: int, prefix: Seq<Seq<char>>)
    requires
        entries_sorted(es),
        0 <= i < es.len(),
    ensures
        forall|y: Seq<char>|
            #[trigger] leaf_str_below(JsonModel::Object(es.take(i + 1)), prefix, y)
                <==> (leaf_str_below(JsonModel::Object(es.take(i)), prefix, y) || leaf_str_below(
                es[i].1,
                prefix.push(es[i].0),
                y,
            )),
{
    lemma_leaf_path_split(es, i);
    assert forall|y: Seq<char>|
        #[trigger] leaf_str_below(JsonModel::Object(es.take(i + 1)), prefix, y)
            <==> (leaf_str_below(JsonModel::Object(es.take(i)), prefix, y) || leaf_str_below(
            es[i].1,
            prefix.push(es[i].0),
            y,
        )) by {
        if leaf_str_below(JsonModel::Object(es.take(i + 1)), prefix, y) {
            let q = choose|q: Seq<Seq<char>>|
                #[trigger] is_leaf_path(JsonModel::Object(es.take(i + 1)), q) && y == dotted(
                    prefix + q,
                );
            if is_leaf_path(JsonModel::Object(es.take(i)), q) {
                assert(leaf_str_below(JsonModel::Object(es.take(i)), prefix, y));
            } else {
                let q2 = q.drop_first();
                assert(is_leaf_path(es[i].1, q2));
                assert(prefix + q =~= prefix.push(es[i].0) + q2);
                assert(leaf_str_below(es[i].1, prefix.push(es[i].0), y));
            }
        }
        if leaf_str_below(JsonModel::Object(es.take(i)), prefix, y) {
            let q = choose|q: Seq<Seq<char>>|
                #[trigger] is_leaf_path(JsonModel::Object(es.take(i)), q) && y == dotted(
                    prefix + q,
                );
            assert(is_leaf_path(JsonModel::Object(es.take(i + 1)), q));
        }
        if leaf_str_below(es[i].1, prefix.push(es[i].0), y) {
            let q2 = choose|q2: Seq<Seq<char>>|
                #[trigger] is_leaf_path(es[i].1, q2) && y == dotted(prefix.push(es[i].0) + q2);
            let q = seq![es[i].0] + q2;
            assert(q.drop_first() =~= q2);
            assert(is_leaf_path(JsonModel::Object(es.take(i + 1)), q));
            assert(prefix + q =~= prefix.push(es[i].0) + q2);
            assert(leaf_str_below(JsonModel::Object(es.take(i + 1)), prefix, y));
        }
    }
}

/// An object with no visible entries has no leaf paths.
pub proof fn lemma_leaf_str_empty_object(prefix: Seq<Seq<char>>)
    ensures
        forall|y: Seq<char>|
            !(#[trigger] leaf_str_below(
                JsonModel::Object(Seq::<(Seq<char>, JsonModel)>::empty()),
                prefix,
                y,
            )),
{
    let m = JsonModel::Object(Seq::<(Seq<char>, JsonModel)>::empty());
    assert forall|y: Seq<char>| !(#[trigger] leaf_str_below(m, prefix, y)) by {
        if leaf_str_below(m, prefix, y) {
            let q = choose|q: Seq<Seq<char>>| #[trigger] is_leaf_path(m, q) && y == dotted(
                prefix + q,
            );
            if q.len() > 0 {
                assert(!is_leaf_path(m, q));
            }
        }
    }
}

/// A non-object is exactly one leaf, at the prefix itself.
pub proof fn lemma_leaf_str_at_leaf(m: JsonModel, prefix: Seq<Seq<char>>)
    requires
        !(m is Object),
    ensures
        forall|y: Seq<char>| #[trigger] leaf_str_below(m, prefix, y) <==> y == dotted(prefix),
{
    assert forall|y: Seq<char>| #[trigger] leaf_str_below(m, prefix, y) <==> y == dotted(
        prefix,
    ) by {
        if leaf_str_below(m, prefix, y) {
            let q = choose|q: Seq<Seq<char>>| #[trigger] is_leaf_path(m, q) && y == dotted(
                prefix + q,
            );
            assert(q.len() == 0);
            assert(prefix + q =~= prefix);
        }
        if y == dotted(prefix) {
            let q = Seq::<Seq<char>>::empty();
            assert(is_leaf_path(m, q));
            assert(prefix + q =~= prefix);
            assert(leaf_str_below(m, prefix, y));
        }
    }
}

/// The first value in traversal order that is neither an object nor a
/// string, as the segment path leading to it.
pub open spec fn first_bad(m: JsonModel) -> Option<Seq<Seq<char>>>
    decreases m,
{
    match m {
        JsonModel::Object(es) => first_bad_entries(es),
        JsonModel::String(_) => None,
        _ => Some(Seq::empty()),
    }
}

pub open spec fn first_bad_entries(es: Seq<(Seq<char>, JsonModel)>) -> Option<Seq<Seq<char>>>
    decreases es,
{
    if es.len() == 0 {
        None
    } else {
        match first_bad(es[0].1) {
            Some(p) => Some(seq![es[0].0] + p),
            None => first_bad_entries(es.drop_first()),
        }
    }
}

pub proof fn lemma_first_bad_entries_none(es: Seq<(Seq<char>, JsonModel)>)
    requires
        forall|w: int| 0 <= w < es.len() ==> (#[trigger] first_bad(es[w].1)) is None,
    ensures
        first_bad_entries(es) is None,
    decreases es.len(),
{
    if es.len() > 0 {
        assert(first_bad(es[0].1) is None);
        assert forall|w: int| 0 <= w < es.drop_first().len() implies (#[trigger] first_bad(
            es.drop_first()[w].1,
        )) is None by {
            assert(es.drop_first()[w] == es[w + 1]);
        }
        lemma_first_bad_entries_none(es.drop_first());
    }
}

pub proof fn lemma_first_bad_entries_at(es: Seq<(Seq<char>, JsonModel)>, i: int)
    requires
        0 <= i < es.len(),
        forall|w: int| 0 <= w < i ==> (#[trigger] first_bad(es[w].1)) is None,
        first_bad(es[i].1) is Some,
    ensures
        first_bad_entries(es) == Some(seq![es[i].0] + first_bad(es[i].1)->0),
    decreases i,
{
    if i > 0 {
        assert forall|w: int| 0 <= w < i - 1 implies (#[trigger] first_bad(
            es.drop_first()[w].1,
        )) is None by {
            assert(es.drop_first()[w] == es[w + 1]);
        }
        assert(es.drop_first()[i - 1] == es[i]);
        lemma_first_bad_entries_at(es.drop_first(), i - 1);
    } else {
        assert(first_bad(es[0].1) is Some);
    }
}

/// Walk the tree below `v`, whose position is the segment prefix `pseq`
/// (rendered as `prefix`), and add the dotted path of every leaf to the
/// sorted list `out`. Any non-object value counts as a leaf.
pub(crate) fn collect_paths(
    v: &JsonValue,
    prefix: &str,
    at_root: bool,
    Ghost(pseq): Ghost<Seq<Seq<char>>>,
    out: &mut Vec<String>,
)
    requires
        wf(v@),
        prefix@ == dotted(pseq),
        at_root <==> pseq.len() == 0,
        seq_sorted(old(out).deep_view()),
    ensures
        seq_sorted(final(out).deep_view()),
        forall|y: Seq<char>|
            final(out).deep_view().contains(y) <==> (old(out).deep_view().contains(y)
                || leaf_str_below(v@, pseq, y)),
    decreases v,
{
    match v {
        JsonValue::Object(es) => {
            let ghost mk = jm_entries(es@);
            proof {
                lemma_jm_entries_len(es@);
                assert(v@ == JsonModel::Object(mk));
                lemma_wf_object(mk);
                lemma_leaf_str_empty_object(pseq);
                assert(mk.take(0) =~= Seq::<(Seq<char>, JsonModel)>::empty());
            }
            let ghost out0 = out.deep_view();
            let mut i: usize = 0;
            while i < es.len()
                invariant
                    0 <= i <= es@.len(),
                    *v is Object,
                    v->Object_0@ == es@,
                    mk == jm_entries(es@),
                    mk.len() == es@.len(),
                    entries_sorted(mk),
                    forall|i0: int|
                        0 <= i0 < es@.len() ==> #[trigger] mk[i0] == (es@[i0].0@, jm(es@[i0].1)),
                    forall|i0: int| 0 <= i0 < mk.len() ==> #[trigger] wf(mk[i0].1),
                    prefix@ == dotted(pseq),
                    at_root <==> pseq.len() == 0,
                    seq_sorted(out.deep_view()),
                    forall|y: Seq<char>|
                        #[trigger] out.deep_view().contains(y) <==> (out0.contains(y)
                            || leaf_str_below(JsonModel::Object(mk.take(i as int)), pseq, y)),
                decreases es@.len() - i,
            {
                let key = es[i].0.as_str();
                let mut np = String::new();
                if !at_root {
                    np.append(prefix);
                    np.append(".");
                }
                np.append(key);
                proof {
                    reveal_strlit(".");
                    assert("."@ =~= seq!['.']);
                    lemma_join_with_push(pseq, seq!['.'], key@);
                    assert(np@ == dotted(pseq.push(mk[i as int].0)));
                }
                let ghost mid = out.deep_view();
                proof {
                    assert(forall|y: Seq<char>|
                        #[trigger] mid.contains(y) <==> (out0.contains(y) || leaf_str_below(
                            JsonModel::Object(mk.take(i as int)),
                            pseq,
                            y,
                        )));
                    assert(mk[i as int].1 == jm(es@[i as int].1));
                    assert(wf(jm(es@[i as int].1)));
                    assert(decreases_to!(*v => v->Object_0));
                    assert(decreases_to!(v->Object_0 => v->Object_0@));
                    assert(decreases_to!(v->Object_0@ => v->Object_0@[i as int]));
                    assert(decreases_to!(v->Object_0@[i as int] => v->Object_0@[i as int].1));
                    assert(decreases_to!(*v => es@[i as int].1));
                    assert(es@[i as int].1 == v->Object_0@[i as int].1);
                }
                collect_paths(&es[i].1, np.as_str(), false, Ghost(pseq.push(mk[i as int].0)), out);
                proof {
                    lemma_leaf_str_split(mk, i as int, pseq);
                    assert forall|y: Seq<char>|
                        out.deep_view().contains(y) <==> (out0.contains(y) || leaf_str_below(
                            JsonModel::Object(mk.take(i + 1)),
                            pseq,
                            y,
                        )) by {
                        assert(mk[i as int].1 == jm(es@[i as int].1));
                        assert(out.deep_view().contains(y) <==> (mid.contains(y) || leaf_str_below(
                            jm(es@[i as int].1),
                            pseq.push(mk[i as int].0),
                            y,
                        )));
                        assert(mid.contains(y) <==> (out0.contains(y) || leaf_str_below(
                            JsonModel::Object(mk.take(i as int)),
                            pseq,
                            y,
                        )));
                        assert(leaf_str_below(JsonModel::Object(mk.take(i + 1)), pseq, y) <==> (
                        leaf_str_below(JsonModel::Object(mk.take(i as int)), pseq, y)
                            || leaf_str_below(mk[i as int].1, pseq.push(mk[i as int].0), y)));
                    }
                }
                i = i + 1;
            }
            proof {
                assert(mk.take(mk.len() as int) =~= mk);
            }
        },
        _ => {
            proof {
                crate::value::lemma_jm_is_object(*v);
                lemma_leaf_str_at_leaf(v@, pseq);
            }
            crate::strings::insert_sorted_unique(out, prefix);
        },
    }
}

/// As `collect_paths`, but only strings may stand at the leaves: the first
/// other value met in traversal order stops the walk.
fn collect_paths_strict(
    v: &JsonValue,
    prefix: &str,
    at_root: bool,
    Ghost(pseq): Ghost<Seq<Seq<char>>>,
    out: &mut Vec<String>,
) -> (r: Result<(), JsonError>)
    requires
        wf(v@),
        prefix@ == dotted(pseq),
        at_root <==> pseq.len() == 0,
        seq_sorted(old(out).deep_view()),
    ensures
        seq_sorted(final(out).deep_view()),
        match r {
            Ok(_) => first_bad(v@) is None && (forall|y: Seq<char>|
                final(out).deep_view().contains(y) <==> (old(out).deep_view().contains(y)
                    || leaf_str_below(v@, pseq, y))),
            Err(e) => first_bad(v@) matches Some(p) && e@ == ErrorModel::UnexpectedValueType(
                dotted(pseq + p),
            ),
        },
    decreases v,
{
    match v {
        JsonValue::String(_) => {
            proof {
                crate::value::lemma_jm_is_object(*v);
                lemma_leaf_str_at_leaf(v@, pseq);
            }
            crate::strings::insert_sorted_unique(out, prefix);
            Ok(())
        },
        JsonValue::Object(es) => {
            let ghost mk = jm_entries(es@);
            proof {
                lemma_jm_entries_len(es@);
                assert(v@ == JsonModel::Object(mk));
                lemma_wf_object(mk);
                lemma_leaf_str_empty_object(pseq);
                assert(mk.take(0) =~= Seq::<(Seq<char>, JsonModel)>::empty());
            }
            let ghost out0 = out.deep_view();
            let mut i: usize = 0;
            while i < es.len()
                invariant
                    0 <= i <= es@.len(),
                    *v is Object,
                    v->Object_0@ == es@,
                    mk == jm_entries(es@),
                    mk.len() == es@.len(),
                    entries_sorted(mk),
                    forall|i0: int|
                        0 <= i0 < es@.len() ==> #[trigger] mk[i0] == (es@[i0].0@, jm(es@[i0].1)),
                    forall|i0: int| 0 <= i0 < mk.len() ==> #[trigger] wf(mk[i0].1),
                    forall|w: int| 0 <= w < i ==> (#[trigger] first_bad(mk[w].1)) is None,
                    prefix@ == dotted(pseq),
                    at_root <==> pseq.len() == 0,
                    seq_sorted(out.deep_view()),
                    forall|y: Seq<char>|
                        #[trigger] out.deep_view().contains(y) <==> (out0.contains(y)
                            || leaf_str_below(JsonModel::Object(mk.take(i as int)), pseq, y)),
                decreases es@.len() - i,
            {
                let key = es[i].0.as_str();
                let mut np = String::new();
                if !at_root {
                    np.append(prefix);
                    np.append(".");
                }
                np.append(key);
                proof {
                    reveal_strlit(".");
                    assert("."@ =~= seq!['.']);
                    lemma_join_with_push(pseq, seq!['.'], key@);
                    assert(np@ == dotted(pseq.push(mk[i as int].0)));
                }
                let ghost mid = out.deep_view();
                proof {
                    assert(forall|y: Seq<char>|
                        #[trigger] mid.contains(y) <==> (out0.contains(y) || leaf_str_below(
                            JsonModel::Object(mk.take(i as int)),
                            pseq,
                            y,
                        )));
                    assert(mk[i as int].1 == jm(es@[i as int].1));
                    assert(wf(jm(es@[i as int].1)));
                    assert(decreases_to!(*v => v->Object_0));
                    assert(decreases_to!(v->Object_0 => v->Object_0@));
                    assert(decreases_to!(v->Object_0@ => v->Object_0@[i as int]));
                    assert(decreases_to!(v->Object_0@[i as int] => v->Object_0@[i as int].1));
                    assert(decreases_to!(*v => es@[i as int].1));
                    assert(es@[i as int].1 == v->Object_0@[i as int].1);
                }
                let step = collect_paths_strict(
                    &es[i].1,
                    np.as_str(),
                    false,
                    Ghost(pseq.push(mk[i as int].0)),
                    out,
                );
                match step {
                    Ok(_) => {
                        proof {
                            lemma_leaf_str_split(mk, i as int, pseq);
                            assert forall|y: Seq<char>|
                                out.deep_view().contains(y) <==> (out0.contains(y)
                                    || leaf_str_below(
                                    JsonModel::Object(mk.take(i + 1)),
                                    pseq,
                                    y,
                                )) by {
                                assert(mk[i as int].1 == jm(es@[i as int].1));
                                assert(out.deep_view().contains(y) <==> (mid.contains(y)
                                    || leaf_str_below(
                                    jm(es@[i as int].1),
                                    pseq.push(mk[i as int].0),
                                    y,
                                )));
                                assert(mid.contains(y) <==> (out0.contains(y) || leaf_str_below(
                                    JsonModel::Object(mk.take(i as int)),
                                    pseq,
                                    y,
                                )));
                                assert(leaf_str_below(JsonModel::Object(mk.take(i + 1)), pseq, y)
                                    <==> (leaf_str_below(
                                    JsonModel::Object(mk.take(i as int)),
                                    pseq,
                                    y,
                                ) || leaf_str_below(mk[i as int].1, pseq.push(mk[i as int].0), y)));
                            }
                        }
                    },
                    Err(e) => {
                        proof {
                            lemma_first_bad_entries_at(mk, i as int);
                            let p = first_bad(mk[i as int].1)->0;
                            assert(pseq.push(mk[i as int].0) + p =~= pseq + (seq![mk[i as int].0]
                                + p));
                        }
                        return Err(e);
                    },
                }
                i = i + 1;
            }
            proof {
                assert(mk.take(mk.len() as int) =~= mk);
                lemma_first_bad_entries_none(mk);
            }
            Ok(())
        },
        _ => {
            proof {
                crate::value::lemma_jm_is_object(*v);
                assert(first_bad(v@) == Some(Seq::<Seq<char>>::empty()));
                assert(pseq + Seq::<Seq<char>>::empty() =~= pseq);
            }
            Err(JsonError::UnexpectedValueType { path: prefix.to_owned() })
        },
    }
}

/// All dotted leaf paths of a document, sorted and free of duplicates. Only
/// objects may branch and only strings may stand at the leaves: the first
/// other value met in traversal order is refused, named by its own path.
pub fn get_json_paths(value: &JsonValue) -> (r: Result<Vec<String>, JsonError>)
    requires
        wf(value@),
    ensures
        match r {
            Ok(paths) => {
                &&& first_bad(value@) is None
                &&& seq_sorted(paths.deep_view())
                &&& forall|y: Seq<char>| paths.deep_view().contains(y) <==> leaf_str(value@, y)
            },
            Err(e) => first_bad(value@) matches Some(p) && e@ == ErrorModel::UnexpectedValueType(
                dotted(p),
            ),
        },
{
    let mut out: Vec<String> = Vec::new();
    let empty = String::new();
    proof {
        assert(dotted(Seq::<Seq<char>>::empty()) == Seq::<char>::empty());
        assert(Seq::<Seq<char>>::empty() + first_bad(value@)->0 =~= first_bad(value@)->0);
    }
    let r = collect_paths_strict(
        value,
        empty.as_str(),
        true,
        Ghost(Seq::<Seq<char>>::empty()),
        &mut out,
    );
    match r {
        Ok(_) => Ok(out),
        Err(e) => Err(e),
    }
}

/// A segment path is a leaf path exactly when the read-only descent reaches
/// a value that is not an object.
pub proof fn lemma_leaf_path_is_value(m: JsonModel, p: Seq<Seq<char>>)
    ensures
        is_leaf_path(m, p) <==> (crate::value::value_at(m, p) matches Some(c) && !(c is Object)),
    decreases p.len(),
{
    if p.len() > 0 {
        match m {
            JsonModel::Object(es) => {
                match lookup(es, p[0]) {
                    Some(child) => {
                        lemma_leaf_path_is_value(child, p.drop_first());
                    },
                    None => {},
                }
            },
            _ => {},
        }
    }
}

/// A value looked up among entries none of which hides an offending value
/// hides none itself.
proof fn lemma_no_bad_lookup(es: Seq<(Seq<char>, JsonModel)>, k: Seq<char>)
    requires
        first_bad_entries(es) is None,
        lookup(es, k) is Some,
    ensures
        first_bad(lookup(es, k)->0) is None,
    decreases es.len(),
{
    if es.len() > 0 && es[0].0 != k {
        lemma_no_bad_lookup(es.drop_first(), k);
    }
}

/// In a document with no offending value, every leaf the descent reaches is
/// a string.
pub proof fn lemma_all_leaves_strings(m: JsonModel, p: Seq<Seq<char>>)
    requires
        first_bad(m) is None,
    ensures
        (crate::value::value_at(m, p) matches Some(c) && !(c is Object)) ==> crate::value::value_at(
            m,
            p,
        )->0 is String,
    decreases p.len(),
{
    if p.len() > 0 {
        match m {
            JsonModel::Object(es) => {
                match lookup(es, p[0]) {
                    Some(child) => {
                        lemma_no_bad_lookup(es, p[0]);
                        lemma_all_leaves_strings(child, p.drop_first());
                    },
                    None => {},
                }
            },
            _ => {},
        }
    }
}

/// The enumerated dotted paths of a string-leaved object tree carry the
/// tree: each one, split back at its dots, is again the segment path it was
/// made from, and looking that path up still finds the string leaf. This
/// holds as long as no key has a dot of its own.
pub proof fn lemma_leaf_path_recovers(m: JsonModel, p: Seq<Seq<char>>)
    requires
        m is Object,
        first_bad(m) is None,
        is_leaf_path(m, p),
        forall|j: int| 0 <= j < p.len() ==> !(#[trigger] p[j]).contains('.'),
    ensures
        crate::strings::split_on(dotted(p), '.') == p,
        crate::value::value_at(m, p) matches Some(c) && c is String,
{
    assert(p.len() >= 1);
    crate::strings::lemma_split_join(p, '.');
    lemma_leaf_path_is_value(m, p);
    lemma_all_leaves_strings(m, p);
}

} // verus!
