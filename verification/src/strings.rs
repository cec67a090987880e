use vstd::prelude::*;

verus! {

/// Lexicographic order on character sequences: `a` comes strictly before `b`.
/// This is the order in which object keys are kept and path lists are reported.
pub open spec fn str_lt(a: Seq<char>, b: Seq<char>) -> bool
    decreases a.len(),
{
    if b.len() == 0 {
        false
    } else if a.len() == 0 {
        true
    } else if a[0] == b[0] {
        str_lt(a.skip(1), b.skip(1))
    } else {
        (a[0] as u32) < (b[0] as u32)
    }
}

pub proof fn lemma_str_lt_irreflexive(a: Seq<char>)
    ensures
        !str_lt(a, a),
    decreases a.len(),
{
    if a.len() > 0 {
        lemma_str_lt_irreflexive(a.skip(1));
    }
}

pub proof fn lemma_str_lt_connected(a: Seq<char>, b: Seq<char>)
    ensures
        str_lt(a, b) || str_lt(b, a) || a == b,
    decreases a.len(),
{
    if a.len() == 0 || b.len() == 0 {
        if a.len() == b.len() {
            assert(a =~= b);
        }
    } else if a[0] == b[0] {
        lemma_str_lt_connected(a.skip(1), b.skip(1));
        if a.skip(1) == b.skip(1) {
            assert(a.skip(1).len() == b.skip(1).len());
            assert(a.len() == b.len());
            assert forall|k: int| 0 <= k < a.len() implies a[k] == b[k] by {
                if k > 0 {
                    assert(a.skip(1)[k - 1] == b.skip(1)[k - 1]);
                }
            }
            assert(a =~= b);
        }
    } else {
        vstd::utf8::char_u32_cast(a[0], a[0] as u32);
        vstd::utf8::char_u32_cast(b[0], b[0] as u32);
    }
}

pub proof fn lemma_str_lt_asymmetric(a: Seq<char>, b: Seq<char>)
    ensures
        str_lt(a, b) ==> !str_lt(b, a),
    decreases a.len(),
{
    if a.len() > 0 && b.len() > 0 && a[0] == b[0] {
        lemma_str_lt_asymmetric(a.skip(1), b.skip(1));
    }
}

pub proof fn lemma_str_lt_transitive(a: Seq<char>, b: Seq<char>, c: Seq<char>)
    ensures
        str_lt(a, b) && str_lt(b, c) ==> str_lt(a, c),
    decreases a.len(),
{
    if a.len() > 0 && b.len() > 0 && c.len() > 0 {
        lemma_str_lt_transitive(a.skip(1), b.skip(1), c.skip(1));
    }
}

/// How two strings compare in the key order.
pub enum KeyOrder {
    Less,
    Equal,
    Greater,
}

/// If `a` and `b` agree on their first `i` characters and differ at `i`,
/// the order is decided by the characters at `i`.
proof fn lemma_str_lt_at_first_difference(a: Seq<char>, b: Seq<char>, i: int)
    requires
        0 <= i < a.len(),
        i < b.len(),
        forall|k: int| 0 <= k < i ==> a[k] == b[k],
        a[i] != b[i],
    ensures
        str_lt(a, b) <==> (a[i] as u32) < (b[i] as u32),
    decreases i,
{
    if i > 0 {
        assert(a[0] == b[0]);
        assert forall|k: int| 0 <= k < i - 1 implies a.skip(1)[k] == b.skip(1)[k] by {
            assert(a[k + 1] == b[k + 1]);
        }
        assert(a.skip(1)[i - 1] == a[i]);
        assert(b.skip(1)[i - 1] == b[i]);
        lemma_str_lt_at_first_difference(a.skip(1), b.skip(1), i - 1);
    }
}

/// If `a` is a strict prefix of `b`, then `a` comes first.
proof fn lemma_str_lt_strict_prefix(a: Seq<char>, b: Seq<char>)
    requires
        a.len() < b.len(),
        forall|k: int| 0 <= k < a.len() ==> a[k] == b[k],
    ensures
        str_lt(a, b),
    decreases a.len(),
{
    if a.len() > 0 {
        assert(a[0] == b[0]);
        assert forall|k: int| 0 <= k < a.len() - 1 implies a.skip(1)[k] == b.skip(1)[k] by {
            assert(a[k + 1] == b[k + 1]);
        }
        lemma_str_lt_strict_prefix(a.skip(1), b.skip(1));
    }
}

/// The parts of `p` joined with `sep` between them.
pub open spec fn join_with(p: Seq<Seq<char>>, sep: Seq<char>) -> Seq<char>
    decreases p.len(),
{
    if p.len() == 0 {
        Seq::empty()
    } else if p.len() == 1 {
        p[0]
    } else {
        p[0] + sep + join_with(p.drop_first(), sep)
    }
}

/// The dotted rendering of a segment path, as mutation commands write it.
pub open spec fn dotted(p: Seq<Seq<char>>) -> Seq<char> {
    join_with(p, seq!['.'])
}

pub proof fn lemma_join_with_push(p: Seq<Seq<char>>, sep: Seq<char>, x: Seq<char>)
    ensures
        p.len() == 0 ==> join_with(p.push(x), sep) == x,
        p.len() > 0 ==> join_with(p.push(x), sep) == join_with(p, sep) + sep + x,
    decreases p.len(),
{
    let q = p.push(x);
    if p.len() == 0 {
        assert(q.len() == 1);
        assert(q[0] == x);
    } else if p.len() == 1 {
        assert(q.drop_first() =~= seq![x]);
        assert(seq![x][0] == x);
        assert(join_with(seq![x], sep) == x);
        assert(q[0] == p[0]);
        assert(join_with(q, sep) == p[0] + sep + x);
        assert(join_with(p, sep) == p[0]);
    } else {
        lemma_join_with_push(p.drop_first(), sep, x);
        assert(q.drop_first() =~= p.drop_first().push(x));
        assert(q[0] == p[0]);
        assert(join_with(q, sep) == q[0] + sep + join_with(q.drop_first(), sep));
        assert(p[0] + sep + (join_with(p.drop_first(), sep) + sep + x) =~= (p[0] + sep
            + join_with(p.drop_first(), sep)) + sep + x);
    }
}

/// Join the given parts with `sep` between them.
pub fn join_strings(parts: &Vec<String>, sep: &str) -> (r: String)
    ensures
        r@ == join_with(parts.deep_view(), sep@),
{
    let mut r = String::new();
    let mut i: usize = 0;
    while i < parts.len()
        invariant
            0 <= i <= parts@.len(),
            parts.deep_view().len() == parts@.len(),
            r@ == join_with(parts.deep_view().take(i as int), sep@),
        decreases parts@.len() - i,
    {
        proof {
            let dv = parts.deep_view();
            let ii = i as int;
            assert(dv[ii] == parts@[ii]@);
            lemma_join_with_push(dv.take(ii), sep@, dv[ii]);
            assert(dv.take(ii).push(dv[ii]) =~= dv.take(ii + 1));
        }
        if i > 0 {
            r.append(sep);
        }
        r.append(parts[i].as_str());
        i = i + 1;
    }
    proof {
        assert(parts.deep_view().take(parts@.len() as int) =~= parts.deep_view());
    }
    r
}

/// The position of the last occurrence of `c` in `s`, or -1 if there is none.
pub open spec fn last_index_of(s: Seq<char>, c: char) -> int
    decreases s.len(),
{
    if s.len() == 0 {
        -1
    } else if s.last() == c {
        s.len() - 1
    } else {
        last_index_of(s.drop_last(), c)
    }
}

pub proof fn lemma_last_index_of_bounds(s: Seq<char>, c: char)
    ensures
        -1 <= last_index_of(s, c) < s.len(),
        last_index_of(s, c) >= 0 ==> s[last_index_of(s, c)] == c,
        forall|k: int| last_index_of(s, c) < k < s.len() ==> s[k] != c,
    decreases s.len(),
{
    if s.len() > 0 && s.last() != c {
        lemma_last_index_of_bounds(s.drop_last(), c);
        assert forall|k: int| last_index_of(s, c) < k < s.len() implies s[k] != c by {
            if k < s.len() - 1 {
                assert(s.drop_last()[k] != c);
            }
        }
    }
}

/// Find the last occurrence of `c` in `s`, scanning from the end.
pub fn find_last(s: &str, c: char) -> (o: Option<usize>)
    ensures
        match o {
            Some(k) => last_index_of(s@, c) == k as int,
            None => last_index_of(s@, c) == -1,
        },
{
    let n = s.unicode_len();
    proof {
        assert(s@.take(n as int) =~= s@);
    }
    let mut i: usize = n;
    while i > 0
        invariant
            0 <= i <= n,
            n == s@.len(),
            last_index_of(s@, c) == last_index_of(s@.take(i as int), c),
        decreases i,
    {
        let ch = s.get_char(i - 1);
        proof {
            assert(s@.take(i as int).last() == s@[i - 1]);
            assert(s@.take(i as int).drop_last() =~= s@.take(i - 1));
        }
        if ch == c {
            return Some(i - 1);
        }
        i = i - 1;
    }
    proof {
        assert(s@.take(0) =~= Seq::<char>::empty());
    }
    None
}

/// Split `s` at every occurrence of `c`: n separators give n + 1 parts.
pub open spec fn split_on(s: Seq<char>, c: char) -> Seq<Seq<char>>
    decreases s.len(),
{
    if s.len() == 0 {
        seq![Seq::empty()]
    } else if s[0] == c {
        seq![Seq::<char>::empty()] + split_on(s.skip(1), c)
    } else {
        let rest = split_on(s.skip(1), c);
        seq![seq![s[0]] + rest[0]] + rest.drop_first()
    }
}

pub proof fn lemma_split_on_len(s: Seq<char>, c: char)
    ensures
        split_on(s, c).len() >= 1,
    decreases s.len(),
{
    if s.len() > 0 {
        lemma_split_on_len(s.skip(1), c);
    }
}

/// Split `s` at every occurrence of `c`.
pub fn split_string(s: &str, c: char) -> (parts: Vec<String>)
    ensures
        parts.deep_view() == split_on(s@, c),
        parts@.len() >= 1,
    decreases s@.len(),
{
    let n = s.unicode_len();
    if n == 0 {
        let mut parts: Vec<String> = Vec::new();
        parts.push(String::new());
        proof {
            assert(parts.deep_view() =~= split_on(s@, c));
        }
        return parts;
    }
    let c0 = s.get_char(0);
    let tail = s.substring_char(1, n);
    proof {
        assert(tail@ == s@.skip(1));
        lemma_split_on_len(tail@, c);
    }
    let mut rest = split_string(tail, c);
    if c0 == c {
        rest.insert(0, String::new());
        proof {
            assert(rest.deep_view() =~= split_on(s@, c));
        }
        rest
    } else {
        let head = s.substring_char(0, 1);
        let first = rest.remove(0);
        let mut new_first = head.to_owned();
        new_first.append(first.as_str());
        rest.insert(0, new_first);
        proof {
            assert(head@ =~= seq![s@[0]]);
            assert(rest.deep_view() =~= split_on(s@, c));
        }
        rest
    }
}

/// A string free of the separator splits into itself alone.
pub proof fn lemma_split_on_whole(s: Seq<char>, c: char)
    requires
        !s.contains(c),
    ensures
        split_on(s, c) == seq![s],
    decreases s.len(),
{
    if s.len() > 0 {
        assert(s[0] != c) by {
            if s[0] == c {
                assert(s.contains(c));
            }
        }
        assert(!s.skip(1).contains(c)) by {
            if s.skip(1).contains(c) {
                let w = choose|w: int| 0 <= w < s.skip(1).len() && s.skip(1)[w] == c;
                assert(s[w + 1] == c);
                assert(s.contains(c));
            }
        }
        lemma_split_on_whole(s.skip(1), c);
        let rest = split_on(s.skip(1), c);
        assert(rest[0] == s.skip(1));
        assert(seq![s[0]] + s.skip(1) =~= s);
        assert(rest.drop_first() =~= Seq::<Seq<char>>::empty());
        assert(split_on(s, c) =~= seq![s]);
    } else {
        assert(s =~= Seq::<char>::empty());
        assert(split_on(s, c) =~= seq![s]);
    }
}

/// Splitting a string whose head holds no separator peels the head off.
pub proof fn lemma_split_on_concat(a: Seq<char>, b: Seq<char>, c: char)
    requires
        !a.contains(c),
    ensures
        split_on(a + seq![c] + b, c) == seq![a] + split_on(b, c),
    decreases a.len(),
{
    let s = a + seq![c] + b;
    if a.len() == 0 {
        assert(s =~= seq![c] + b);
        assert(s[0] == c);
        assert(s.skip(1) =~= b);
        assert(a =~= Seq::<char>::empty());
        assert(split_on(s, c) =~= seq![a] + split_on(b, c));
    } else {
        assert(s[0] == a[0]);
        assert(a[0] != c) by {
            if a[0] == c {
                assert(a.contains(c));
            }
        }
        assert(!a.skip(1).contains(c)) by {
            if a.skip(1).contains(c) {
                let w = choose|w: int| 0 <= w < a.skip(1).len() && a.skip(1)[w] == c;
                assert(a[w + 1] == c);
                assert(a.contains(c));
            }
        }
        assert(s.skip(1) =~= a.skip(1) + seq![c] + b);
        lemma_split_on_concat(a.skip(1), b, c);
        let rest = split_on(s.skip(1), c);
        assert(rest == seq![a.skip(1)] + split_on(b, c));
        assert(rest[0] == a.skip(1));
        assert(seq![s[0]] + rest[0] =~= a);
        assert(rest.drop_first() =~= split_on(b, c));
        assert(split_on(s, c) =~= seq![a] + split_on(b, c));
    }
}

/// Joining dot-free segments with the separator and splitting again
/// recovers exactly the segments.
pub proof fn lemma_split_join(p: Seq<Seq<char>>, c: char)
    requires
        p.len() >= 1,
        forall|j: int| 0 <= j < p.len() ==> !(#[trigger] p[j]).contains(c),
    ensures
        split_on(join_with(p, seq![c]), c) == p,
    decreases p.len(),
{
    if p.len() == 1 {
        lemma_split_on_whole(p[0], c);
        assert(join_with(p, seq![c]) == p[0]);
        assert(seq![p[0]] =~= p);
    } else {
        assert forall|j: int| 0 <= j < p.drop_first().len() implies !(#[trigger] p.drop_first()[j]).contains(c) by {
            assert(p.drop_first()[j] == p[j + 1]);
        }
        lemma_split_join(p.drop_first(), c);
        lemma_split_on_concat(p[0], join_with(p.drop_first(), seq![c]), c);
        assert(join_with(p, seq![c]) == p[0] + seq![c] + join_with(p.drop_first(), seq![c]));
        assert(seq![p[0]] + p.drop_first() =~= p);
    }
}

/// Decide how `a` and `b` stand in the key order.
pub fn str_compare(a: &str, b: &str) -> (c: KeyOrder)
    ensures
        c is Less <==> str_lt(a@, b@),
        c is Equal <==> a@ == b@,
        c is Greater <==> str_lt(b@, a@),
{
    let a_len = a.unicode_len();
    let b_len = b.unicode_len();
    let n = if a_len < b_len {
        a_len
    } else {
        b_len
    };
    let mut i: usize = 0;
    while i < n
        invariant
            0 <= i <= n,
            n <= a@.len(),
            n <= b@.len(),
            n == a@.len() || n == b@.len(),
            a_len == a@.len(),
            b_len == b@.len(),
            forall|k: int| 0 <= k < i ==> a@[k] == b@[k],
        decreases n - i,
    {
        let ca = a.get_char(i);
        let cb = b.get_char(i);
        if ca != cb {
            proof {
                lemma_str_lt_at_first_difference(a@, b@, i as int);
                lemma_str_lt_at_first_difference(b@, a@, i as int);
                vstd::utf8::char_u32_cast(ca, ca as u32);
                vstd::utf8::char_u32_cast(cb, cb as u32);
            }
            if (ca as u32) < (cb as u32) {
                return KeyOrder::Less;
            } else {
                return KeyOrder::Greater;
            }
        }
        i = i + 1;
    }
    if a_len < b_len {
        proof {
            lemma_str_lt_strict_prefix(a@, b@);
            lemma_str_lt_asymmetric(a@, b@);
        }
        KeyOrder::Less
    } else if b_len < a_len {
        proof {
            lemma_str_lt_strict_prefix(b@, a@);
            lemma_str_lt_asymmetric(b@, a@);
        }
        KeyOrder::Greater
    } else {
        proof {
            assert(a@ =~= b@);
            lemma_str_lt_irreflexive(a@);
        }
        KeyOrder::Equal
    }
}

/// A strictly ascending sequence of strings: sorted and duplicate-free.
pub open spec fn seq_sorted(ps: Seq<Seq<char>>) -> bool {
    forall|i: int, j: int| 0 <= i < j < ps.len() ==> str_lt(ps[i], ps[j])
}

/// Whether `s` occurs in `v`.
pub fn contains_string(v: &Vec<String>, s: &str) -> (b: bool)
    ensures
        b == v.deep_view().contains(s@),
{
    let ghost dv = v.deep_view();
    let mut i: usize = 0;
    while i < v.len()
        invariant
            0 <= i <= v@.len(),
            dv == v.deep_view(),
            dv.len() == v@.len(),
            forall|k: int| 0 <= k < i ==> dv[k] != s@,
        decreases v@.len() - i,
    {
        if matches!(str_compare(v[i].as_str(), s), KeyOrder::Equal) {
            proof {
                assert(dv[i as int] == s@);
            }
            return true;
        }
        proof {
            lemma_str_lt_irreflexive(s@);
        }
        i = i + 1;
    }
    false
}

/// Insert `s` into the sorted list `v`, keeping it sorted, unless it is
/// already there.
pub fn insert_sorted_unique(v: &mut Vec<String>, s: &str)
    requires
        seq_sorted(old(v).deep_view()),
    ensures
        seq_sorted(final(v).deep_view()),
        forall|y: Seq<char>|
            final(v).deep_view().contains(y) <==> (old(v).deep_view().contains(y) || y == s@),
{
    let ghost dv = old(v).deep_view();
    let mut i: usize = 0;
    while i < v.len()
        invariant
            0 <= i <= v@.len(),
            dv == v.deep_view(),
            dv == old(v).deep_view(),
            dv.len() == v@.len(),
            seq_sorted(dv),
            forall|k: int| 0 <= k < i ==> str_lt(dv[k], s@),
        decreases v@.len() - i,
    {
        match str_compare(v[i].as_str(), s) {
            KeyOrder::Less => {
                i = i + 1;
            },
            KeyOrder::Equal => {
                proof {
                    assert(dv[i as int] == s@);
                    assert(dv.contains(s@));
                }
                return ;
            },
            KeyOrder::Greater => {
                v.insert(i, s.to_owned());
                proof {
                    let dv2 = v.deep_view();
                    assert(dv2 =~= dv.insert(i as int, s@)) by {
                        assert forall|k: int| 0 <= k < dv2.len() implies dv2[k] == dv.insert(
                            i as int,
                            s@,
                        )[k] by {
                            assert(dv2[k] == v@[k]@);
                        }
                    }
                    assert forall|p: int, q: int| 0 <= p < q < dv2.len() implies str_lt(
                        dv2[p],
                        dv2[q],
                    ) by {
                        let ii = i as int;
                        if p < ii && q == ii {
                        } else if p < ii && q > ii {
                        } else if p == ii && q > ii {
                            lemma_str_lt_transitive(s@, dv[ii], dv[q - 1]);
                        }
                    }
                    assert forall|y: Seq<char>| dv2.contains(y) <==> (dv.contains(y) || y == s@) by {
                        let ii = i as int;
                        if dv2.contains(y) {
                            let k = choose|k: int| 0 <= k < dv2.len() && dv2[k] == y;
                            if k < ii {
                                assert(dv[k] == y);
                            } else if k > ii {
                                assert(dv[k - 1] == y);
                            }
                        }
                        if dv.contains(y) {
                            let k = choose|k: int| 0 <= k < dv.len() && dv[k] == y;
                            if k < ii {
                                assert(dv2[k] == y);
                            } else {
                                assert(dv2[k + 1] == y);
                            }
                        }
                        if y == s@ {
                            assert(dv2[ii] == y);
                        }
                    }
                }
                return ;
            },
        }
    }
    v.push(s.to_owned());
    proof {
        let dv2 = v.deep_view();
        assert(dv2 =~= dv.push(s@)) by {
            assert forall|k: int| 0 <= k < dv2.len() implies dv2[k] == dv.push(s@)[k] by {
                assert(dv2[k] == v@[k]@);
            }
        }
        assert forall|y: Seq<char>| dv2.contains(y) <==> (dv.contains(y) || y == s@) by {
            if dv2.contains(y) {
                let k = choose|k: int| 0 <= k < dv2.len() && dv2[k] == y;
                if k < dv.len() {
                    assert(dv[k] == y);
                }
            }
            if dv.contains(y) {
                let k = choose|k: int| 0 <= k < dv.len() && dv[k] == y;
                assert(dv2[k] == y);
            }
            if y == s@ {
                assert(dv2[dv.len() as int] == y);
            }
        }
    }
}

/// A weakly ascending sequence of strings: sorted, duplicates allowed.
pub open spec fn seq_sorted_le(ps: Seq<Seq<char>>) -> bool {
    forall|i: int, j: int| 0 <= i < j < ps.len() ==> !str_lt(ps[j], ps[i])
}

/// Inserting one element into a sequence adds it to the multiset of its
/// elements.
pub proof fn lemma_to_multiset_insert(s: Seq<Seq<char>>, i: int, x: Seq<char>)
    requires
        0 <= i <= s.len(),
    ensures
        s.insert(i, x).to_multiset() == s.to_multiset().insert(x),
{
    broadcast use vstd::seq_lib::group_to_multiset_ensures;

    let a = s.take(i);
    let b = s.skip(i);
    assert(s.insert(i, x) =~= a.push(x) + b);
    assert(s =~= a + b);
    vstd::seq_lib::lemma_multiset_commutative(a.push(x), b);
    vstd::seq_lib::lemma_multiset_commutative(a, b);
    assert(a.push(x).to_multiset() =~= a.to_multiset().insert(x));
    assert(s.insert(i, x).to_multiset() =~= s.to_multiset().insert(x));
}

/// Insert `s` into the weakly sorted list `v`, keeping it sorted. Unlike
/// `insert_sorted_unique`, a value already present is inserted again.
pub fn insert_sorted(v: &mut Vec<String>, s: &str)
    requires
        seq_sorted_le(old(v).deep_view()),
    ensures
        seq_sorted_le(final(v).deep_view()),
        final(v).deep_view().to_multiset() == old(v).deep_view().to_multiset().insert(s@),
{
    let ghost dv = old(v).deep_view();
    let mut i: usize = 0;
    while i < v.len()
        invariant_except_break
            0 <= i <= v@.len(),
            dv == v.deep_view(),
            dv == old(v).deep_view(),
            dv.len() == v@.len(),
            seq_sorted_le(dv),
            forall|k: int| 0 <= k < i ==> !str_lt(s@, #[trigger] dv[k]),
        ensures
            0 <= i <= v@.len(),
            dv == v.deep_view(),
            dv == old(v).deep_view(),
            dv.len() == v@.len(),
            seq_sorted_le(dv),
            forall|k: int| 0 <= k < i ==> !str_lt(s@, #[trigger] dv[k]),
            i < dv.len() ==> str_lt(s@, dv[i as int]),
        decreases v@.len() - i,
    {
        match str_compare(v[i].as_str(), s) {
            KeyOrder::Greater => {
                break ;
            },
            _ => {
                proof {
                    lemma_str_lt_irreflexive(s@);
                    lemma_str_lt_asymmetric(dv[i as int], s@);
                }
                i = i + 1;
            },
        }
    }
    v.insert(i, s.to_owned());
    proof {
        let dv2 = v.deep_view();
        assert(dv2 =~= dv.insert(i as int, s@)) by {
            assert forall|k: int| 0 <= k < dv2.len() implies dv2[k] == dv.insert(i as int, s@)[k] by {
                assert(dv2[k] == v@[k]@);
            }
        }
        assert forall|p: int, q: int| 0 <= p < q < dv2.len() implies !str_lt(dv2[q], dv2[p]) by {
            let ii = i as int;
            lemma_str_lt_asymmetric(dv2[p], dv2[q]);
            if p < ii && q == ii {
                lemma_str_lt_asymmetric(s@, dv[p]);
            } else if p == ii && q > ii {
                lemma_str_lt_connected(dv[ii], dv[q - 1]);
                if dv[ii] == dv[q - 1] {
                    lemma_str_lt_asymmetric(s@, dv[q - 1]);
                } else {
                    lemma_str_lt_transitive(s@, dv[ii], dv[q - 1]);
                    lemma_str_lt_asymmetric(s@, dv[q - 1]);
                }
            }
        }
        lemma_to_multiset_insert(dv, i as int, s@);
    }
}

/// In a sorted list the first element is strictly below every member of the
/// tail, so the tail holds exactly the other members.
pub proof fn lemma_sorted_tail_members(ps: Seq<Seq<char>>)
    requires
        seq_sorted(ps),
        ps.len() > 0,
    ensures
        seq_sorted(ps.drop_first()),
        forall|y: Seq<char>|
            ps.drop_first().contains(y) <==> (ps.contains(y) && y != ps[0]),
{
    let tail = ps.drop_first();
    assert forall|y: Seq<char>| tail.contains(y) implies (ps.contains(y) && y != ps[0]) by {
        let k = choose|k: int| 0 <= k < tail.len() && tail[k] == y;
        assert(ps[k + 1] == y);
        assert(str_lt(ps[0], y));
        lemma_str_lt_irreflexive(y);
    }
    assert forall|y: Seq<char>| ps.contains(y) && y != ps[0] implies tail.contains(y) by {
        let k = choose|k: int| 0 <= k < ps.len() && ps[k] == y;
        assert(k != 0);
        assert(tail[k - 1] == y);
    }
}

/// Two sorted, duplicate-free lists with the same members are the same list.
/// Together with the contracts of `get_missing_paths` this shows that the
/// reported path lists are symmetric under swapping the operands: the paths
/// missing in the target against a reference are exactly the paths missing in
/// the reference when the two documents trade places.
pub proof fn lemma_sorted_same_members_equal(p: Seq<Seq<char>>, q: Seq<Seq<char>>)
    requires
        seq_sorted(p),
        seq_sorted(q),
        forall|y: Seq<char>| p.contains(y) <==> q.contains(y),
    ensures
        p == q,
    decreases p.len(),
{
    if p.len() == 0 {
        if q.len() > 0 {
            assert(q.contains(q[0]));
        }
        assert(p =~= q);
    } else {
        assert(p.contains(p[0]));
        assert(q.contains(p[0]));
        let j = choose|j: int| 0 <= j < q.len() && q[j] == p[0];
        assert(q.contains(q[0]));
        assert(p.contains(q[0]));
        let i = choose|i: int| 0 <= i < p.len() && p[i] == q[0];
        if j > 0 {
            assert(str_lt(q[0], p[0]));
            if i > 0 {
                assert(str_lt(p[0], q[0]));
                lemma_str_lt_asymmetric(p[0], q[0]);
                assert(false);
            } else {
                lemma_str_lt_irreflexive(p[0]);
                assert(false);
            }
        }
        assert(q[0] == p[0]);
        lemma_sorted_tail_members(p);
        lemma_sorted_tail_members(q);
        assert forall|y: Seq<char>|
            p.drop_first().contains(y) <==> q.drop_first().contains(y) by {
            assert(p.drop_first().contains(y) <==> (p.contains(y) && y != p[0]));
            assert(q.drop_first().contains(y) <==> (q.contains(y) && y != q[0]));
        }
        lemma_sorted_same_members_equal(p.drop_first(), q.drop_first());
        assert(p =~= q) by {
            assert forall|k: int| 0 <= k < p.len() implies p[k] == q[k] by {
                if k > 0 {
                    assert(p.drop_first()[k - 1] == q.drop_first()[k - 1]);
                }
            }
        }
    }
}

} // verus!
