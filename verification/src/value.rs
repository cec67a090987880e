use vstd::prelude::*;

use crate::strings::str_lt;

verus! {

/// One JSON document tree. Object entries are kept strictly sorted by key
/// (the order a key-sorting serializer writes them in); `wf` states that.
/// A number is carried as its literal text, since the mutation engine never
/// looks inside one.
#[derive(PartialEq, Eq, Debug)]
pub enum JsonValue {
    Object(Vec<(String, JsonValue)>),
    Array(Vec<JsonValue>),
    String(String),
    Number(String),
    Bool(bool),
    Null,
}

/// The mathematical model of a document: the same tree over sequences.
#[verifier::ext_equal]
pub enum JsonModel {
    Object(Seq<(Seq<char>, JsonModel)>),
    Array(Seq<JsonModel>),
    String(Seq<char>),
    Number(Seq<char>),
    Bool(bool),
    Null,
}

pub open spec fn jm_entries(es: Seq<(String, JsonValue)>) -> Seq<(Seq<char>, JsonModel)>
    decreases es,
{
    if es.len() == 0 {
        Seq::empty()
    } else {
        jm_entries(es.drop_last()).push((es.last().0@, jm(es.last().1)))
    }
}

pub open spec fn jm_list(vs: Seq<JsonValue>) -> Seq<JsonModel>
    decreases vs,
{
    if vs.len() == 0 {
        Seq::empty()
    } else {
        jm_list(vs.drop_last()).push(jm(vs.last()))
    }
}

/// The model of a document tree.
pub open spec fn jm(v: JsonValue) -> JsonModel
    decreases v,
{
    match v {
        JsonValue::Object(es) => JsonModel::Object(jm_entries(es@)),
        JsonValue::Array(vs) => JsonModel::Array(jm_list(vs@)),
        JsonValue::String(s) => JsonModel::String(s@),
        JsonValue::Number(s) => JsonModel::Number(s@),
        JsonValue::Bool(b) => JsonModel::Bool(b),
        JsonValue::Null => JsonModel::Null,
    }
}

impl View for JsonValue {
    type V = JsonModel;

    open spec fn view(&self) -> JsonModel {
        jm(*self)
    }
}

pub proof fn lemma_jm_entries_len(es: Seq<(String, JsonValue)>)
    ensures
        jm_entries(es).len() == es.len(),
        forall|i: int|
            0 <= i < es.len() ==> #[trigger] jm_entries(es)[i] == (es[i].0@, jm(es[i].1)),
    decreases es,
{
    if es.len() > 0 {
        lemma_jm_entries_len(es.drop_last());
    }
}

pub proof fn lemma_jm_list_len(vs: Seq<JsonValue>)
    ensures
        jm_list(vs).len() == vs.len(),
        forall|i: int| 0 <= i < vs.len() ==> #[trigger] jm_list(vs)[i] == jm(vs[i]),
    decreases vs,
{
    if vs.len() > 0 {
        lemma_jm_list_len(vs.drop_last());
    }
}

/// Object keys strictly ascending: sorted and free of duplicates.
pub open spec fn entries_sorted(es: Seq<(Seq<char>, JsonModel)>) -> bool {
    forall|i: int, j: int| 0 <= i < j < es.len() ==> str_lt(es[i].0, es[j].0)
}

/// Well-formedness of a document: every object in the tree keeps its entries
/// strictly sorted by key.
pub open spec fn wf(m: JsonModel) -> bool
    decreases m,
{
    match m {
        JsonModel::Object(es) => entries_sorted(es) && wf_entries(es),
        JsonModel::Array(vs) => wf_list(vs),
        _ => true,
    }
}

pub open spec fn wf_entries(es: Seq<(Seq<char>, JsonModel)>) -> bool
    decreases es,
{
    if es.len() == 0 {
        true
    } else {
        wf(es[0].1) && wf_entries(es.drop_first())
    }
}

pub open spec fn wf_list(vs: Seq<JsonModel>) -> bool
    decreases vs,
{
    if vs.len() == 0 {
        true
    } else {
        wf(vs[0]) && wf_list(vs.drop_first())
    }
}

pub proof fn lemma_wf_entries_iff(es: Seq<(Seq<char>, JsonModel)>)
    ensures
        wf_entries(es) <==> (forall|i: int| 0 <= i < es.len() ==> #[trigger] wf(es[i].1)),
    decreases es.len(),
{
    if es.len() > 0 {
        lemma_wf_entries_iff(es.drop_first());
        if wf(es[0].1) && wf_entries(es.drop_first()) {
            assert forall|i: int| 0 <= i < es.len() implies #[trigger] wf(es[i].1) by {
                if i > 0 {
                    assert(wf(es.drop_first()[i - 1]

.1));
                    assert(es.drop_first()[i - 1] == es[i]);
                }
            }
        }
        if forall|i: int| 0 <= i < es.len() ==> #[trigger] wf(es[i].1) {
            assert forall|i: int| 0 <= i < es.drop_first().len() implies #[trigger] wf(
                es.drop_first()[i].1,
            ) by {
                assert(es.drop_first()[i] == es[i + 1]);
            }
        }
    }
}

pub proof fn lemma_wf_list_iff(vs: Seq<JsonModel>)
    ensures
        wf_list(vs) <==> (forall|i: int| 0 <= i < vs.len() ==> #[trigger] wf(vs[i])),
    decreases vs.len(),
{
    if vs.len() > 0 {
        lemma_wf_list_iff(vs.drop_first());
        if wf(vs[0]) && wf_list(vs.drop_first()) {
            assert forall|i: int| 0 <= i < vs.len() implies #[trigger] wf(vs[i]) by {
                if i > 0 {
                    assert(wf(vs.drop_first()[i - 1]));
                    assert(vs.drop_first()[i - 1] == vs[i]);
                }
            }
        }
        if forall|i: int| 0 <= i < vs.len() ==> #[trigger] wf(vs[i]) {
            assert forall|i: int| 0 <= i < vs.drop_first().len() implies #[trigger] wf(
                vs.drop_first()[i],
            ) by {
                assert(vs.drop_first()[i] == vs[i + 1]);
            }
        }
    }
}

/// The value under `key` in an entry list, if any.
pub open spec fn lookup(es: Seq<(Seq<char>, JsonModel)>, key: Seq<char>) -> Option<JsonModel>
    decreases es.len(),
{
    if es.len() == 0 {
        None
    } else if es[0].0 == key {
        Some(es[0].1)
    } else {
        lookup(es.drop_first(), key)
    }
}

pub open spec fn has_key(es: Seq<(Seq<char>, JsonModel)>, key: Seq<char>) -> bool {
    lookup(es, key) is Some
}

/// The value a read-only descent along `segs` reaches, if any.
pub open spec fn value_at(m: JsonModel, segs: Seq<Seq<char>>) -> Option<JsonModel>
    decreases segs.len(),
{
    if segs.len() == 0 {
        Some(m)
    } else {
        match m {
            JsonModel::Object(es) => match lookup(es, segs[0]) {
                Some(child) => value_at(child, segs.drop_first()),
                None => None,
            },
            _ => None,
        }
    }
}

/// The entry list with `key` bound to `val`: inserted at its sorted place,
/// or overwriting an existing binding.
pub open spec fn store_entry(
    es: Seq<(Seq<char>, JsonModel)>,
    key: Seq<char>,
    val: JsonModel,
) -> Seq<(Seq<char>, JsonModel)>
    decreases es.len(),
{
    if es.len() == 0 {
        seq![(key, val)]
    } else if key == es[0].0 {
        seq![(key, val)] + es.drop_first()
    } else if str_lt(key, es[0].0) {
        seq![(key, val)] + es
    } else {
        seq![es[0]] + store_entry(es.drop_first(), key, val)
    }
}

/// The entry list without its binding for `key`, if it had one.
pub open spec fn remove_entry(
    es: Seq<(Seq<char>, JsonModel)>,
    key: Seq<char>,
) -> Seq<(Seq<char>, JsonModel)>
    decreases es.len(),
{
    if es.len() == 0 {
        Seq::empty()
    } else if es[0].0 == key {
        es.drop_first()
    } else {
        seq![es[0]] + remove_entry(es.drop_first(), key)
    }
}

pub proof fn lemma_jm_entries_insert(es: Seq<(String, JsonValue)>, i: int, k: String, v: JsonValue)
    requires
        0 <= i <= es.len(),
    ensures
        jm_entries(es.insert(i, (k, v))) == jm_entries(es).insert(i, (k@, jm(v))),
{
    lemma_jm_entries_len(es);
    lemma_jm_entries_len(es.insert(i, (k, v)));
    assert(jm_entries(es.insert(i, (k, v))) =~= jm_entries(es).insert(i, (k@, jm(v))));
}

pub proof fn lemma_jm_entries_remove(es: Seq<(String, JsonValue)>, i: int)
    requires
        0 <= i < es.len(),
    ensures
        jm_entries(es.remove(i)) == jm_entries(es).remove(i),
{
    lemma_jm_entries_len(es);
    lemma_jm_entries_len(es.remove(i));
    assert(jm_entries(es.remove(i)) =~= jm_entries(es).remove(i));
}

/// Search the entry list for `key`: `Ok(i)` when found at `i`, `Err(i)` when
/// absent with `i` its sorted insertion position.
pub fn seek_entry(es: &Vec<(String, JsonValue)>, key: &str) -> (r: Result<usize, usize>)
    requires
        entries_sorted(jm_entries(es@)),
    ensures
        ({
            let mk = jm_entries(es@);
            match r {
                Ok(i) => {
                    &&& i < es@.len()
                    &&& mk[i as int].0 == key@
                    &&& lookup(mk, key@) == Some(mk[i as int].1)
                },
                Err(i) => {
                    &&& i <= es@.len()
                    &&& (forall|k: int| 0 <= k < i ==> str_lt(#[trigger] mk[k].0, key@))
                    &&& (forall|k: int| i <= k < es@.len() ==> str_lt(key@, #[trigger] mk[k].0))
                    &&& lookup(mk, key@) is None
                },
            }
        }),
{
    let ghost mk = jm_entries(es@);
    proof {
        lemma_jm_entries_len(es@);
    }
    let mut i: usize = 0;
    while i < es.len()
        invariant
            0 <= i <= es@.len(),
            mk == jm_entries(es@),
            mk.len() == es@.len(),
            entries_sorted(mk),
            forall|i0: int|
                0 <= i0 < es@.len() ==> #[trigger] mk[i0] == (es@[i0].0@, jm(es@[i0].1)),
            forall|k: int| 0 <= k < i ==> str_lt(#[trigger] mk[k].0, key@),
        decreases es@.len() - i,
    {
        match crate::strings::str_compare(es[i].0.as_str(), key) {
            crate::strings::KeyOrder::Less => {
                i = i + 1;
            },
            crate::strings::KeyOrder::Equal => {
                proof {
                    lemma_lookup_at_index(mk, key@, i as int);
                }
                return Ok(i);
            },
            crate::strings::KeyOrder::Greater => {
                proof {
                    assert forall|k: int| i <= k < es@.len() implies str_lt(
                        key@,
                        #[trigger] mk[k].0,
                    ) by {
                        if k > i {
                            crate::strings::lemma_str_lt_transitive(key@, mk[i as int].0, mk[k].0);
                        }
                    }
                    assert forall|k: int| 0 <= k < es@.len() implies (#[trigger] mk[k].0)
                        != key@ by {
                        crate::strings::lemma_str_lt_irreflexive(key@);
                        if k < i {
                            crate::strings::lemma_str_lt_asymmetric(mk[k].0, key@);
                        } else {
                            crate::strings::lemma_str_lt_asymmetric(key@, mk[k].0);
                        }
                    }
                    lemma_lookup_absent(mk, key@);
                }
                return Err(i);
            },
        }
    }
    proof {
        assert forall|k: int| 0 <= k < es@.len() implies (#[trigger] mk[k].0) != key@ by {
            crate::strings::lemma_str_lt_irreflexive(key@);
            crate::strings::lemma_str_lt_asymmetric(mk[k].0, key@);
        }
        lemma_lookup_absent(mk, key@);
    }
    Err(i)
}

/// If the key at index `i` is `key`, the (first-match) lookup finds that entry.
pub proof fn lemma_lookup_at_index(es: Seq<(Seq<char>, JsonModel)>, key: Seq<char>, i: int)
    requires
        entries_sorted(es),
        0 <= i < es.len(),
        es[i].0 == key,
    ensures
        lookup(es, key) == Some(es[i].1),
    decreases i,
{
    if i > 0 {
        assert(str_lt(es[0].0, key));
        crate::strings::lemma_str_lt_irreflexive(key);
        assert(es.drop_first()[i - 1] == es[i]);
        lemma_lookup_at_index(es.drop_first(), key, i - 1);
    }
}

/// If no entry carries `key`, the lookup comes back empty.
pub proof fn lemma_lookup_absent(es: Seq<(Seq<char>, JsonModel)>, key: Seq<char>)
    requires
        forall|k: int| 0 <= k < es.len() ==> (#[trigger] es[k].0) != key,
    ensures
        lookup(es, key) is None,
    decreases es.len(),
{
    if es.len() > 0 {
        assert forall|k: int| 0 <= k < es.drop_first().len() implies (#[trigger] es.drop_first()[k].0) != key by {
            assert(es.drop_first()[k] == es[k + 1]);
        }
        lemma_lookup_absent(es.drop_first(), key);
    }
}

/// Storing over the entry at index `i` is a pointwise update.
pub proof fn lemma_store_at_index(
    es: Seq<(Seq<char>, JsonModel)>,
    key: Seq<char>,
    val: JsonModel,
    i: int,
)
    requires
        entries_sorted(es),
        0 <= i < es.len(),
        es[i].0 == key,
    ensures
        store_entry(es, key, val) == es.update(i, (key, val)),
    decreases i,
{
    if i == 0 {
        assert(store_entry(es, key, val) =~= es.update(0, (key, val)));
    } else {
        assert(str_lt(es[0].0, key));
        crate::strings::lemma_str_lt_irreflexive(key);
        crate::strings::lemma_str_lt_asymmetric(es[0].0, key);
        assert(es.drop_first()[i - 1] == es[i]);
        lemma_store_at_index(es.drop_first(), key, val, i - 1);
        assert(store_entry(es, key, val) =~= es.update(i, (key, val))) by {
            assert(es.drop_first().update(i - 1, (key, val)) =~= es.update(i, (key, val)).drop_first());
        }
    }
}

/// Storing an absent key at boundary position `i` is a pointwise insertion.
pub proof fn lemma_store_at_gap(
    es: Seq<(Seq<char>, JsonModel)>,
    key: Seq<char>,
    val: JsonModel,
    i: int,
)
    requires
        entries_sorted(es),
        0 <= i <= es.len(),
        forall|k: int| 0 <= k < i ==> str_lt(#[trigger] es[k].0, key),
        forall|k: int| i <= k < es.len() ==> str_lt(key, #[trigger] es[k].0),
    ensures
        store_entry(es, key, val) == es.insert(i, (key, val)),
    decreases i,
{
    if i == 0 {
        if es.len() == 0 {
            assert(store_entry(es, key, val) =~= es.insert(0, (key, val)));
        } else {
            assert(str_lt(key, es[0].0));
            crate::strings::lemma_str_lt_irreflexive(key);
            crate::strings::lemma_str_lt_asymmetric(key, es[0].0);
            assert(store_entry(es, key, val) =~= es.insert(0, (key, val)));
        }
    } else {
        assert(str_lt(es[0].0, key));
        crate::strings::lemma_str_lt_irreflexive(key);
        crate::strings::lemma_str_lt_asymmetric(es[0].0, key);
        assert forall|k: int| 0 <= k < i - 1 implies str_lt(
            #[trigger] es.drop_first()[k].0,
            key,
        ) by {
            assert(es.drop_first()[k] == es[k + 1]);
        }
        assert forall|k: int| i - 1 <= k < es.drop_first().len() implies str_lt(
            key,
            #[trigger] es.drop_first()[k].0,
        ) by {
            assert(es.drop_first()[k] == es[k + 1]);
        }
        lemma_store_at_gap(es.drop_first(), key, val, i - 1);
        assert(store_entry(es, key, val) =~= es.insert(i, (key, val))) by {
            assert(es.drop_first().insert(i - 1, (key, val)) =~= es.insert(i, (key, val)).drop_first());
        }
    }
}

/// Removing the key found at index `i` is a pointwise removal.
pub proof fn lemma_remove_at_index(es: Seq<(Seq<char>, JsonModel)>, key: Seq<char>, i: int)
    requires
        entries_sorted(es),
        0 <= i < es.len(),
        es[i].0 == key,
    ensures
        remove_entry(es, key) == es.remove(i),
    decreases i,
{
    if i == 0 {
        assert(remove_entry(es, key) =~= es.remove(0));
    } else {
        assert(str_lt(es[0].0, key));
        crate::strings::lemma_str_lt_irreflexive(key);
        assert(es.drop_first()[i - 1] == es[i]);
        lemma_remove_at_index(es.drop_first(), key, i - 1);
        assert(remove_entry(es, key) =~= es.remove(i)) by {
            assert(es.drop_first().remove(i - 1) =~= es.remove(i).drop_first());
        }
    }
}

/// The tail of a sorted entry list is sorted.
pub proof fn lemma_entries_sorted_tail(es: Seq<(Seq<char>, JsonModel)>)
    requires
        entries_sorted(es),
        es.len() > 0,
    ensures
        entries_sorted(es.drop_first()),
{
    assert forall|i: int, j: int| 0 <= i < j < es.drop_first().len() implies str_lt(
        es.drop_first()[i].0,
        es.drop_first()[j].0,
    ) by {
        assert(es.drop_first()[i] == es[i + 1]);
        assert(es.drop_first()[j] == es[j + 1]);
    }
}

/// Storing keeps the entry list sorted, only adds the stored pair, and binds
/// exactly `key` to `val`, leaving every other binding alone.
pub proof fn lemma_store_entry_props(es: Seq<(Seq<char>, JsonModel)>, key: Seq<char>, val: JsonModel)
    requires
        entries_sorted(es),
    ensures
        entries_sorted(store_entry(es, key, val)),
        forall|i: int|
            0 <= i < store_entry(es, key, val).len() ==> (#[trigger] store_entry(es, key, val)[i])
                == (key, val) || es.contains(store_entry(es, key, val)[i]),
        forall|k2: Seq<char>|
            #[trigger] lookup(store_entry(es, key, val), k2) == if k2 == key {
                Some(val)
            } else {
                lookup(es, k2)
            },
    decreases es.len(),
{
    let st = store_entry(es, key, val);
    if es.len() == 0 {
        assert forall|k2: Seq<char>|
            #[trigger] lookup(st, k2) == if k2 == key {
                Some(val)
            } else {
                lookup(es, k2)
            } by {
            reveal_with_fuel(lookup, 3);
            assert(st[0] == (key, val));
            if k2 != key {
                assert(st.drop_first() =~= Seq::<(Seq<char>, JsonModel)>::empty());
            }
        }
    } else if key == es[0].0 {
        lemma_entries_sorted_tail(es);
        assert forall|i: int| 0 <= i < st.len() implies (#[trigger] st[i]) == (key, val)
            || es.contains(st[i]) by {
            if i > 0 {
                assert(st[i] == es[i]);
            } else {
                assert(st[0] == (key, val));
            }
        }
        assert forall|k2: Seq<char>|
            #[trigger] lookup(st, k2) == if k2 == key {
                Some(val)
            } else {
                lookup(es, k2)
            } by {
            reveal_with_fuel(lookup, 3);
            assert(st[0] == (key, val));
            assert(st.drop_first() =~= es.drop_first());
        }
    } else if str_lt(key, es[0].0) {
        assert forall|i: int, j: int| 0 <= i < j < st.len() implies str_lt(st[i].0, st[j].0) by {
            if i == 0 {
                assert(st[0] == (key, val));
                assert(st[j] == es[j - 1]);
                if j > 1 {
                    crate::strings::lemma_str_lt_transitive(key, es[0].0, es[j - 1].0);
                }
            } else {
                assert(st[i] == es[i - 1]);
                assert(st[j] == es[j - 1]);
            }
        }
        assert forall|i: int| 0 <= i < st.len() implies (#[trigger] st[i]) == (key, val)
            || es.contains(st[i]) by {
            if i > 0 {
                assert(st[i] == es[i - 1]);
            } else {
                assert(st[0] == (key, val));
            }
        }
        assert forall|k2: Seq<char>|
            #[trigger] lookup(st, k2) == if k2 == key {
                Some(val)
            } else {
                lookup(es, k2)
            } by {
            reveal_with_fuel(lookup, 3);
            assert(st[0] == (key, val));
            assert(st.drop_first() =~= es);
        }
    } else {
        crate::strings::lemma_str_lt_connected(key, es[0].0);
        assert(str_lt(es[0].0, key));
        lemma_entries_sorted_tail(es);
        lemma_store_entry_props(es.drop_first(), key, val);
        let sub = store_entry(es.drop_first(), key, val);
        assert(st =~= seq![es[0]] + sub);
        assert forall|i: int, j: int| 0 <= i < j < st.len() implies str_lt(st[i].0, st[j].0) by {
            if i == 0 {
                assert(st[j] == sub[j - 1]);
                if sub[j - 1] == (key, val) {
                    assert(str_lt(es[0].0, key));
                } else {
                    assert(es.drop_first().contains(sub[j - 1]));
                    let w = choose|w: int|
                        0 <= w < es.drop_first().len() && es.drop_first()[w] == sub[j - 1];
                    assert(es[w + 1] == sub[j - 1]);
                    assert(str_lt(es[0].0, es[w + 1].0));
                }
            } else {
                assert(st[i] == sub[i - 1]);
                assert(st[j] == sub[j - 1]);
            }
        }
        assert forall|i: int| 0 <= i < st.len() implies (#[trigger] st[i]) == (key, val)
            || es.contains(st[i]) by {
            if i == 0 {
                assert(st[0] == es[0]);
                assert(es.contains(es[0]));
            } else {
                assert(st[i] == sub[i - 1]);
                if sub[i - 1] != (key, val) {
                    assert(es.drop_first().contains(sub[i - 1]));
                    let w = choose|w: int|
                        0 <= w < es.drop_first().len() && es.drop_first()[w] == sub[i - 1];
                    assert(es[w + 1] == sub[i - 1]);
                }
            }
        }
        assert forall|k2: Seq<char>|
            #[trigger] lookup(st, k2) == if k2 == key {
                Some(val)
            } else {
                lookup(es, k2)
            } by {
            reveal_with_fuel(lookup, 3);
            crate::strings::lemma_str_lt_irreflexive(key);
            assert(st[0] == es[0]);
            assert(st.drop_first() =~= sub);
            assert(lookup(sub, k2) == if k2 == key {
                Some(val)
            } else {
                lookup(es.drop_first(), k2)
            });
        }
    }
}

/// Removing keeps the entry list sorted, drops only entries of the removed
/// key, and unbinds exactly `key`, leaving every other binding alone.
pub proof fn lemma_remove_entry_props(es: Seq<(Seq<char>, JsonModel)>, key: Seq<char>)
    requires
        entries_sorted(es),
    ensures
        entries_sorted(remove_entry(es, key)),
        forall|i: int|
            0 <= i < remove_entry(es, key).len() ==> es.contains(
                #[trigger] remove_entry(es, key)[i],
            ),
        forall|k2: Seq<char>|
            #[trigger] lookup(remove_entry(es, key), k2) == if k2 == key {
                None
            } else {
                lookup(es, k2)
            },
    decreases es.len(),
{
    let rm = remove_entry(es, key);
    if es.len() == 0 {
    } else if es[0].0 == key {
        lemma_entries_sorted_tail(es);
        assert forall|i: int| 0 <= i < rm.len() implies es.contains(#[trigger] rm[i]) by {
            assert(es[i + 1] == rm[i]);
        }
        assert forall|k2: Seq<char>|
            #[trigger] lookup(rm, k2) == if k2 == key {
                None
            } else {
                lookup(es, k2)
            } by {
            reveal_with_fuel(lookup, 3);
            if k2 == key {
                assert forall|k: int| 0 <= k < rm.len() implies (#[trigger] rm[k].0) != key by {
                    assert(rm[k] == es[k + 1]);
                    assert(str_lt(es[0].0, es[k + 1].0));
                    crate::strings::lemma_str_lt_irreflexive(key);
                }
                lemma_lookup_absent(rm, key);
            }
        }
    } else {
        lemma_entries_sorted_tail(es);
        lemma_remove_entry_props(es.drop_first(), key);
        let sub = remove_entry(es.drop_first(), key);
        assert(rm =~= seq![es[0]] + sub);
        assert forall|i: int, j: int| 0 <= i < j < rm.len() implies str_lt(rm[i].0, rm[j].0) by {
            if i == 0 {
                assert(rm[j] == sub[j - 1]);
                assert(es.drop_first().contains(sub[j - 1]));
                let w = choose|w: int|
                    0 <= w < es.drop_first().len() && es.drop_first()[w] == sub[j - 1];
                assert(es[w + 1] == sub[j - 1]);
                assert(str_lt(es[0].0, es[w + 1].0));
            } else {
                assert(rm[i] == sub[i - 1]);
                assert(rm[j] == sub[j - 1]);
            }
        }
        assert forall|i: int| 0 <= i < rm.len() implies es.contains(#[trigger] rm[i]) by {
            if i == 0 {
                assert(es.contains(es[0]));
            } else {
                assert(rm[i] == sub[i - 1]);
                assert(es.drop_first().contains(sub[i - 1]));
                let w = choose|w: int|
                    0 <= w < es.drop_first().len() && es.drop_first()[w] == sub[i - 1];
                assert(es[w + 1] == sub[i - 1]);
            }
        }
        assert forall|k2: Seq<char>|
            #[trigger] lookup(rm, k2) == if k2 == key {
                None
            } else {
                lookup(es, k2)
            } by {
            reveal_with_fuel(lookup, 3);
            assert(rm[0] == es[0]);
            assert(rm.drop_first() =~= sub);
            assert(lookup(sub, k2) == if k2 == key {
                None
            } else {
                lookup(es.drop_first(), k2)
            });
        }
    }
}

/// An object is well formed exactly when its entries are sorted and each of
/// its values is well formed.
pub proof fn lemma_wf_object(es: Seq<(Seq<char>, JsonModel)>)
    ensures
        wf(JsonModel::Object(es)) <==> (entries_sorted(es) && (forall|i: int|
            0 <= i < es.len() ==> #[trigger] wf(es[i].1))),
{
    lemma_wf_entries_iff(es);
}

/// Only an object value models to an object.
pub proof fn lemma_jm_is_object(v: JsonValue)
    ensures
        (jm(v) is Object) <==> (v is Object),
{
    match v {
        JsonValue::Object(_) => {},
        JsonValue::Array(_) => {},
        JsonValue::String(_) => {},
        JsonValue::Number(_) => {},
        JsonValue::Bool(_) => {},
        JsonValue::Null => {},
    }
}

/// Storing a well-formed value among well-formed entries leaves every entry
/// well formed.
pub proof fn lemma_store_entry_wf(es: Seq<(Seq<char>, JsonModel)>, key: Seq<char>, val: JsonModel)
    requires
        forall|i: int| 0 <= i < es.len() ==> #[trigger] wf(es[i].1),
        wf(val),
    ensures
        forall|i: int|
            0 <= i < store_entry(es, key, val).len() ==> #[trigger] wf(store_entry(es, key, val)[i].1),
    decreases es.len(),
{
    let st = store_entry(es, key, val);
    if es.len() == 0 {
        assert forall|i: int| 0 <= i < st.len() implies #[trigger] wf(st[i].1) by {
            assert(st[0] == (key, val));
        }
    } else if key == es[0].0 {
        assert forall|i: int| 0 <= i < st.len() implies #[trigger] wf(st[i].1) by {
            if i == 0 {
                assert(st[0] == (key, val));
            } else {
                assert(st[i] == es[i]);
            }
        }
    } else if str_lt(key, es[0].0) {
        assert forall|i: int| 0 <= i < st.len() implies #[trigger] wf(st[i].1) by {
            if i == 0 {
                assert(st[0] == (key, val));
            } else {
                assert(st[i] == es[i - 1]);
            }
        }
    } else {
        assert forall|i: int| 0 <= i < es.drop_first().len() implies #[trigger] wf(
            es.drop_first()[i].1,
        ) by {
            assert(es.drop_first()[i] == es[i + 1]);
        }
        lemma_store_entry_wf(es.drop_first(), key, val);
        let sub = store_entry(es.drop_first(), key, val);
        assert forall|i: int| 0 <= i < st.len() implies #[trigger] wf(st[i].1) by {
            if i == 0 {
                assert(st[0] == es[0]);
            } else {
                assert(st[i] == sub[i - 1]);
            }
        }
    }
}

/// Removing a key keeps the remaining entries well formed.
pub proof fn lemma_remove_entry_wf(es: Seq<(Seq<char>, JsonModel)>, key: Seq<char>)
    requires
        forall|i: int| 0 <= i < es.len() ==> #[trigger] wf(es[i].1),
    ensures
        forall|i: int|
            0 <= i < remove_entry(es, key).len() ==> #[trigger] wf(remove_entry(es, key)[i].1),
    decreases es.len(),
{
    let rm = remove_entry(es, key);
    if es.len() == 0 {
    } else if es[0].0 == key {
        assert forall|i: int| 0 <= i < rm.len() implies #[trigger] wf(rm[i].1) by {
            assert(rm[i] == es[i + 1]);
        }
    } else {
        assert forall|i: int| 0 <= i < es.drop_first().len() implies #[trigger] wf(
            es.drop_first()[i].1,
        ) by {
            assert(es.drop_first()[i] == es[i + 1]);
        }
        lemma_remove_entry_wf(es.drop_first(), key);
        let sub = remove_entry(es.drop_first(), key);
        assert forall|i: int| 0 <= i < rm.len() implies #[trigger] wf(rm[i].1) by {
            if i == 0 {
                assert(rm[0] == es[0]);
            } else {
                assert(rm[i] == sub[i - 1]);
            }
        }
    }
}

/// A value looked up among well-formed entries is well formed.
pub proof fn lemma_lookup_wf(es: Seq<(Seq<char>, JsonModel)>, key: Seq<char>)
    requires
        forall|i: int| 0 <= i < es.len() ==> #[trigger] wf(es[i].1),
    ensures
        lookup(es, key) matches Some(c) ==> wf(c),
    decreases es.len(),
{
    if es.len() > 0 && es[0].0 != key {
        assert forall|i: int| 0 <= i < es.drop_first().len() implies #[trigger] wf(
            es.drop_first()[i].1,
        ) by {
            assert(es.drop_first()[i] == es[i + 1]);
        }
        lemma_lookup_wf(es.drop_first(), key);
    }
}

/// Removing a key that is not bound changes nothing.
pub proof fn lemma_remove_entry_noop(es: Seq<(Seq<char>, JsonModel)>, key: Seq<char>)
    requires
        lookup(es, key) is None,
    ensures
        remove_entry(es, key) == es,
    decreases es.len(),
{
    if es.len() > 0 {
        lemma_remove_entry_noop(es.drop_first(), key);
        assert(seq![es[0]] + es.drop_first() =~= es);
    }
}

impl JsonValue {
    /// A fresh object with no entries.
    pub fn empty_object() -> (r: JsonValue)
        ensures
            r@ == JsonModel::Object(Seq::<(Seq<char>, JsonModel)>::empty()),
            wf(r@),
    {
        JsonValue::Object(Vec::new())
    }

    /// A string leaf.
    pub fn string_value(s: &str) -> (r: JsonValue)
        ensures
            r@ == JsonModel::String(s@),
            wf(r@),
    {
        JsonValue::String(s.to_owned())
    }

    /// This object with `key` bound to `val`: added at its sorted place, or
    /// overwriting the old binding.
    pub fn with_entry(self, key: &str, val: JsonValue) -> (r: JsonValue)
        requires
            self@ is Object,
            wf(self@),
            wf(val@),
        ensures
            r@ == JsonModel::Object(store_entry(self@->Object_0, key@, val@)),
            wf(r@),
    {
        match self {
            JsonValue::Object(mut es) => {
                let ghost mk = jm_entries(es@);
                proof {
                    lemma_jm_entries_len(es@);
                    lemma_wf_object(mk);
                    lemma_store_entry_props(mk, key@, jm(val));
                    lemma_store_entry_wf(mk, key@, jm(val));
                    lemma_wf_object(store_entry(mk, key@, jm(val)));
                }
                match seek_entry(&es, key) {
                    Ok(j) => {
                        let ghost es_pre = es@;
                        let (kept, _old_val) = es.remove(j);
                        proof {
                            lemma_jm_entries_remove(es_pre, j as int);
                            assert(kept@ == key@);
                            lemma_store_at_index(mk, key@, jm(val), j as int);
                            lemma_jm_entries_insert(es@, j as int, kept, val);
                            assert(jm_entries(es@.insert(j as int, (kept, val))) =~= mk.update(
                                j as int,
                                (key@, jm(val)),
                            ));
                        }
                        es.insert(j, (kept, val));
                        JsonValue::Object(es)
                    },
                    Err(j) => {
                        let key_owned = key.to_owned();
                        proof {
                            lemma_store_at_gap(mk, key@, jm(val), j as int);
                            lemma_jm_entries_insert(es@, j as int, key_owned, val);
                        }
                        es.insert(j, (key_owned, val));
                        JsonValue::Object(es)
                    },
                }
            },
            _ => vstd::pervasive::unreached(),
        }
    }

    /// Whether the whole tree is well formed, checked bottom-up.
    pub fn check_well_formed(&self) -> (b: bool)
        ensures
            b == wf(self@),
        decreases self,
    {
        match self {
            JsonValue::Object(es) => {
                let ghost mk = jm_entries(es@);
                proof {
                    lemma_jm_entries_len(es@);
                    lemma_wf_entries_iff(mk);
                }
                let mut i: usize = 0;
                let mut ok = true;
                while i < es.len()
                    invariant
                        0 <= i <= es@.len(),
                        *self is Object,
                        self->Object_0@ == es@,
                        mk == jm_entries(es@),
                        mk.len() == es@.len(),
                        forall|i0: int|
                            0 <= i0 < es@.len() ==> #[trigger] mk[i0] == (
                                es@[i0].0@,
                                jm(es@[i0].1),
                            ),
                        ok ==> ((forall|p: int, q: int|
                            0 <= p < q < i ==> str_lt(mk[p].0, mk[q].0)) && (forall|i0: int|
                            0 <= i0 < i ==> #[trigger] wf(mk[i0].1))),
                        !ok ==> !wf(self@),
                    decreases es@.len() - i,
                {
                    if i > 0 && !matches!(
                        crate::strings::str_compare(es[i - 1].0.as_str(), es[i].0.as_str()),
                        crate::strings::KeyOrder::Less,
                    ) {
                        proof {
                            assert(!str_lt(mk[i - 1].0, mk[i as int].0));
                            assert(!entries_sorted(mk));
                            lemma_wf_entries_iff(mk);
                            assert(!wf(self@));
                        }
                        ok = false;
                    }
                    proof {
                        assert(decreases_to!(*self => self->Object_0));
                        assert(decreases_to!(self->Object_0 => self->Object_0@));
                        assert(decreases_to!(self->Object_0@ => self->Object_0@[i as int]));
                        let ghost ii = i as int;
                        assert(decreases_to!(self->Object_0@[ii] => self->Object_0@[ii].1));
                        assert(self->Object_0@[i as int].1 == es@[i as int].1);
                    }
                    let child_ok = es[i].1.check_well_formed();
                    if !child_ok {
                        proof {
                            assert(!wf(mk[i as int].1));
                            lemma_wf_entries_iff(mk);
                            assert(!wf(self@));
                        }
                        ok = false;
                    }
                    let ghost i0 = i as int;
                    i = i + 1;
                    proof {
                        if ok {
                            assert forall|p: int, q: int| 0 <= p < q < i implies str_lt(
                                mk[p].0,
                                mk[q].0,
                            ) by {
                                if q < i0 {
                                } else if p < q && q == i0 && p < i0 - 1 {
                                    crate::strings::lemma_str_lt_transitive(
                                        mk[p].0,
                                        mk[i0 - 1].0,
                                        mk[i0].0,
                                    );
                                }
                            }
                        }
                    }
                }
                proof {
                    lemma_wf_entries_iff(mk);
                    if ok {
                        assert(entries_sorted(mk));
                    }
                }
                ok
            },
            JsonValue::Array(vs) => {
                let ghost ml = jm_list(vs@);
                proof {
                    lemma_jm_list_len(vs@);
                    lemma_wf_list_iff(ml);
                }
                let mut i: usize = 0;
                let mut ok = true;
                while i < vs.len()
                    invariant
                        0 <= i <= vs@.len(),
                        *self is Array,
                        self->Array_0@ == vs@,
                        ml == jm_list(vs@),
                        ml.len() == vs@.len(),
                        forall|i0: int| 0 <= i0 < vs@.len() ==> #[trigger] ml[i0] == jm(vs@[i0]),
                        ok ==> (forall|i0: int| 0 <= i0 < i ==> #[trigger] wf(ml[i0])),
                        !ok ==> !wf(self@),
                    decreases vs@.len() - i,
                {
                    proof {
                        assert(decreases_to!(*self => self->Array_0));
                        assert(decreases_to!(self->Array_0 => self->Array_0@));
                        assert(decreases_to!(self->Array_0@ => self->Array_0@[i as int]));
                        assert(self->Array_0@[i as int] == vs@[i as int]);
                    }
                    let child_ok = vs[i].check_well_formed();
                    if !child_ok {
                        proof {
                            assert(!wf(ml[i as int]));
                            lemma_wf_list_iff(ml);
                            assert(!wf(self@));
                        }
                        ok = false;
                    }
                    i = i + 1;
                }
                proof {
                    lemma_wf_list_iff(ml);
                }
                ok
            },
            _ => true,
        }
    }
}

} // verus!
