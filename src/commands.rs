//! Commands over whole maps of named sets: key-by-key algebra, span
//! reshaping, and merging of groups.
use vstd::prelude::*;
use crate::error::SpanError;
use crate::intspan::{IntSpan, card_of, lemma_canonical};
use crate::keymap::{KeyMap, map_of, keys_unique, lemma_map_of_index, lemma_map_of_keys};
use crate::ops::{SetOp, SpanOp, set_op_result, span_op_result, span_op_fits};
use crate::setmap::{NamedSets, GroupedSets, sets_wf, groups_wf, in_some_group};

verus! {

/// The set of `m` under `k`, or the empty set when `k` is missing.
pub open spec fn set_or_empty(m: Map<Seq<char>, IntSpan>, k: Seq<char>) -> Set<int> {
    if m.contains_key(k) {
        m[k]@
    } else {
        Set::<int>::empty()
    }
}

/// Whether some entry of `e` before position `i` has key `k`.
pub open spec fn key_before<V>(e: Seq<(String, V)>, i: int, k: Seq<char>) -> bool {
    exists|j: int| 0 <= j < i && (#[trigger] e[j]).0@ == k
}

proof fn lemma_key_before_step<V>(e: Seq<(String, V)>, i: int, k: Seq<char>)
    requires
        0 <= i < e.len(),
    ensures
        key_before(e, i + 1, k) <==> key_before(e, i, k) || e[i].0@ == k,
{
    if key_before(e, i + 1, k) {
        let j = choose|j: int| 0 <= j < i + 1 && (#[trigger] e[j]).0@ == k;
        if j < i {
            assert(key_before(e, i, k));
        }
    }
    if e[i].0@ == k {
        assert(0 <= i < i + 1 && e[i].0@ == k);
    }
}

proof fn lemma_key_before_all<V>(e: Seq<(String, V)>, k: Seq<char>)
    ensures
        key_before(e, e.len() as int, k) <==> map_of(e).contains_key(k),
{
    lemma_map_of_keys(e, k);
}

/// Applies `op` key by key over the keys of both maps; a key missing on one
/// side stands for the empty set there.
pub fn compare(op: SetOp, a: &NamedSets, b: &NamedSets) -> (r: NamedSets)
    requires
        a.wf(),
        b.wf(),
        sets_wf(a@),
        sets_wf(b@),
    ensures
        r.wf(),
        sets_wf(r@),
        forall|k: Seq<char>| #[trigger] r@.contains_key(k) <==> a@.contains_key(k) || b@.contains_key(k),
        forall|k: Seq<char>|
            #[trigger] r@.contains_key(k) ==> r@[k]@ == set_op_result(op, set_or_empty(a@, k), set_or_empty(b@, k)),
{
    let ghost ea = a.entries();
    let ghost eb = b.entries();
    proof {
        a.lemma_view();
        b.lemma_view();
    }
    let empty = IntSpan::new();
    let mut r: NamedSets = KeyMap::new();
    let na = a.len();
    let mut i: usize = 0;
    while i < na
        invariant
            na == ea.len(),
            ea == a.entries(),
            a@ == map_of(ea),
            keys_unique(ea),
            a.wf(),
            b.wf(),
            sets_wf(a@),
            sets_wf(b@),
            empty.wf(),
            empty@ == Set::<int>::empty(),
            0 <= i <= na,
            r.wf(),
            sets_wf(r@),
            forall|k: Seq<char>| #[trigger] r@.contains_key(k) <==> key_before(ea, i as int, k),
            forall|k: Seq<char>|
                #[trigger] r@.contains_key(k) ==> r@[k]@ == set_op_result(op, set_or_empty(a@, k), set_or_empty(b@, k)),
        decreases na - i,
    {
        let key = a.key_at(i);
        proof {
            lemma_map_of_index(ea, i as int);
        }
        let va = a.value_at(i);
        let vb = match b.get(key.as_str()) {
            Some(v) => v,
            None => &empty,
        };
        let t = op.apply(va, vb);
        r.insert(key.clone(), t);
        proof {
            assert forall|k: Seq<char>| #[trigger] r@.contains_key(k) <==> key_before(ea, i + 1, k) by {
                lemma_key_before_step(ea, i as int, k);
            }
        }
        i = i + 1;
    }
    proof {
        assert forall|k: Seq<char>| #[trigger] r@.contains_key(k) <==> a@.contains_key(k) || key_before(eb, 0, k) by {
            lemma_key_before_all(ea, k);
        }
    }
    let nb = b.len();
    let mut j: usize = 0;
    while j < nb
        invariant
            nb == eb.len(),
            eb == b.entries(),
            b@ == map_of(eb),
            keys_unique(eb),
            a.wf(),
            b.wf(),
            sets_wf(a@),
            sets_wf(b@),
            empty.wf(),
            empty@ == Set::<int>::empty(),
            0 <= j <= nb,
            r.wf(),
            sets_wf(r@),
            forall|k: Seq<char>| #[trigger] r@.contains_key(k) <==> a@.contains_key(k) || key_before(eb, j as int, k),
            forall|k: Seq<char>|
                #[trigger] r@.contains_key(k) ==> r@[k]@ == set_op_result(op, set_or_empty(a@, k), set_or_empty(b@, k)),
        decreases nb - j,
    {
        let key = b.key_at(j);
        proof {
            lemma_map_of_index(eb, j as int);
        }
        if !a.contains_key(key.as_str()) {
            let t = op.apply(&empty, b.value_at(j));
            r.insert(key.clone(), t);
        }
        proof {
            assert forall|k: Seq<char>| #[trigger] r@.contains_key(k) <==> a@.contains_key(k) || key_before(eb, j + 1, k) by {
                lemma_key_before_step(eb, j as int, k);
            }
        }
        j = j + 1;
    }
    proof {
        assert forall|k: Seq<char>| #[trigger] r@.contains_key(k) <==> a@.contains_key(k) || b@.contains_key(k) by {
            lemma_key_before_all(eb, k);
        }
    }
    r
}

/// Applies `op` with distance `n` to every set; `OutOfRange` when widening
/// some set would leave `i32`.
pub fn span(op: SpanOp, n: i32, m: &NamedSets) -> (r: Result<NamedSets, SpanError>)
    requires
        m.wf(),
        sets_wf(m@),
    ensures
        r is Ok <==> forall|k: Seq<char>| #[trigger] m@.contains_key(k) ==> span_op_fits(op, n as int, m@[k]),
        r matches Ok(t) ==> t.wf() && sets_wf(t@) && t@.dom() == m@.dom() && forall|k: Seq<char>|
            #[trigger] t@.contains_key(k) ==> t@[k]@ == span_op_result(op, n as int, m@[k]),
        r is Err ==> r == Err::<NamedSets, SpanError>(SpanError::OutOfRange),
{
    let ghost e = m.entries();
    proof {
        m.lemma_view();
    }
    let mut t: NamedSets = KeyMap::new();
    let len = m.len();
    let mut i: usize = 0;
    while i < len
        invariant
            len == e.len(),
            e == m.entries(),
            m@ == map_of(e),
            keys_unique(e),
            sets_wf(m@),
            0 <= i <= len,
            t.wf(),
            sets_wf(t@),
            forall|k: Seq<char>| #[trigger] t@.contains_key(k) <==> key_before(e, i as int, k),
            forall|k: Seq<char>| #[trigger] t@.contains_key(k) ==> t@[k]@ == span_op_result(op, n as int, m@[k]) && span_op_fits(op, n as int, m@[k]),
        decreases len - i,
    {
        let key = m.key_at(i);
        proof {
            lemma_map_of_index(e, i as int);
        }
        match op.apply(n, m.value_at(i)) {
            Ok(s) => {
                t.insert(key.clone(), s);
            },
            Err(err) => {
                return Err(err);
            },
        }
        proof {
            assert forall|k: Seq<char>| #[trigger] t@.contains_key(k) <==> key_before(e, i + 1, k) by {
                lemma_key_before_step(e, i as int, k);
            }
        }
        i = i + 1;
    }
    proof {
        assert forall|k: Seq<char>| #[trigger] t@.contains_key(k) <==> m@.contains_key(k) by {
            lemma_key_before_all(e, k);
        }
        assert(t@.dom() =~= m@.dom());
    }
    Ok(t)
}

/// Whether group `n` of `g` has a set under `k` that holds `x`.
pub open spec fn in_group_set(g: Map<Seq<char>, KeyMap<IntSpan>>, n: Seq<char>, k: Seq<char>, x: int) -> bool {
    g.contains_key(n) && g[n]@.contains_key(k) && g[n]@[k]@.contains(x)
}

/// The union, over the groups of `g` that have key `k`, of their sets under `k`.
pub open spec fn combined_set(g: Map<Seq<char>, KeyMap<IntSpan>>, k: Seq<char>) -> Set<int> {
    Set::new(|x: int| exists|n: Seq<char>| #[trigger] in_group_set(g, n, k, x))
}

spec fn in_entries_upto(e: Seq<(String, KeyMap<IntSpan>)>, i: int, k: Seq<char>) -> bool {
    exists|gi: int| 0 <= gi < i && (#[trigger] e[gi]).1@.contains_key(k)
}

spec fn in_entry_set_upto(e: Seq<(String, KeyMap<IntSpan>)>, i: int, k: Seq<char>, x: int) -> bool {
    exists|gi: int| 0 <= gi < i && (#[trigger] e[gi]).1@.contains_key(k) && e[gi].1@[k]@.contains(x)
}

/// Merges all groups into one map: for each key, the union of its sets over
/// the groups that have it.
pub fn combine(g: &GroupedSets) -> (r: NamedSets)
    requires
        g.wf(),
        groups_wf(g@),
    ensures
        r.wf(),
        sets_wf(r@),
        forall|k: Seq<char>| #[trigger] r@.contains_key(k) <==> in_some_group(g@, k),
        forall|k: Seq<char>| #[trigger] r@.contains_key(k) ==> r@[k]@ == combined_set(g@, k),
{
    let ghost e = g.entries();
    proof {
        g.lemma_view();
    }
    let mut acc: NamedSets = KeyMap::new();
    let n = g.len();
    let mut i: usize = 0;
    while i < n
        invariant
            n == e.len(),
            e == g.entries(),
            g@ == map_of(e),
            keys_unique(e),
            groups_wf(g@),
            0 <= i <= n,
            acc.wf(),
            sets_wf(acc@),
            forall|k: Seq<char>| #[trigger] acc@.contains_key(k) <==> in_entries_upto(e, i as int, k),
            forall|k: Seq<char>, x: int| #[trigger] acc@.contains_key(k) ==> (#[trigger] acc@[k]@.contains(x) <==> in_entry_set_upto(e, i as int, k, x)),
        decreases n - i,
    {
        proof {
            lemma_map_of_index(e, i as int);
        }
        let inner = g.value_at(i);
        let next = compare(SetOp::Union, &acc, inner);
        proof {
            assert forall|k: Seq<char>| #[trigger] next@.contains_key(k) <==> in_entries_upto(e, i + 1, k) by {
                if in_entries_upto(e, i + 1, k) {
                    let gi = choose|gi: int| 0 <= gi < i + 1 && (#[trigger] e[gi]).1@.contains_key(k);
                    if gi < i {
                        assert(in_entries_upto(e, i as int, k));
                    }
                }
                if in_entries_upto(e, i as int, k) {
                    let gi = choose|gi: int| 0 <= gi < i && (#[trigger] e[gi]).1@.contains_key(k);
                    assert(0 <= gi < i + 1);
                }
                if inner@.contains_key(k) {
                    assert(0 <= i < i + 1 && e[i as int].1@.contains_key(k));
                }
            }
            assert forall|k: Seq<char>, x: int| #[trigger] next@.contains_key(k) implies (#[trigger] next@[k]@.contains(x) <==> in_entry_set_upto(e, i + 1, k, x)) by {
                if in_entry_set_upto(e, i + 1, k, x) {
                    let gi = choose|gi: int| 0 <= gi < i + 1 && (#[trigger] e[gi]).1@.contains_key(k) && e[gi].1@[k]@.contains(x);
                    if gi < i {
                        assert(in_entries_upto(e, i as int, k));
                        assert(in_entry_set_upto(e, i as int, k, x));
                    }
                }
                if acc@.contains_key(k) && acc@[k]@.contains(x) {
                    let gi = choose|gi: int| 0 <= gi < i && (#[trigger] e[gi]).1@.contains_key(k) && e[gi].1@[k]@.contains(x);
                    assert(0 <= gi < i + 1);
                }
                if inner@.contains_key(k) && inner@[k]@.contains(x) {
                    assert(0 <= i < i + 1 && e[i as int].1@.contains_key(k) && e[i as int].1@[k]@.contains(x));
                }
            }
        }
        acc = next;
        i = i + 1;
    }
    proof {
        assert forall|k: Seq<char>| #[trigger] acc@.contains_key(k) <==> in_some_group(g@, k) by {
            if in_entries_upto(e, n as int, k) {
                let gi = choose|gi: int| 0 <= gi < n && (#[trigger] e[gi]).1@.contains_key(k);
                lemma_map_of_index(e, gi);
                assert(g@.contains_key(e[gi].0@));
            }
            if in_some_group(g@, k) {
                let nm = choose|nm: Seq<char>| #[trigger] g@.contains_key(nm) && g@[nm]@.contains_key(k);
                lemma_map_of_keys(e, nm);
                let gi = choose|gi: int| 0 <= gi < e.len() && (#[trigger] e[gi]).0@ == nm;
                lemma_map_of_index(e, gi);
                assert(e[gi].1@.contains_key(k));
            }
        }
        assert forall|k: Seq<char>| #[trigger] acc@.contains_key(k) implies acc@[k]@ == combined_set(g@, k) by {
            assert forall|x: int| #[trigger] acc@[k]@.contains(x) <==> combined_set(g@, k).contains(x) by {
                if acc@[k]@.contains(x) {
                    let gi = choose|gi: int| 0 <= gi < n && (#[trigger] e[gi]).1@.contains_key(k) && e[gi].1@[k]@.contains(x);
                    lemma_map_of_index(e, gi);
                    assert(in_group_set(g@, e[gi].0@, k, x));
                }
                if combined_set(g@, k).contains(x) {
                    let nm = choose|nm: Seq<char>| #[trigger] in_group_set(g@, nm, k, x);
                    lemma_map_of_keys(e, nm);
                    let gi = choose|gi: int| 0 <= gi < e.len() && (#[trigger] e[gi]).0@ == nm;
                    lemma_map_of_index(e, gi);
                    assert(in_entry_set_upto(e, n as int, k, x));
                }
            }
            assert(acc@[k]@ =~= combined_set(g@, k));
        }
    }
    acc
}

/// How many values the set of `k` holds; zero when `m` has no set for `k`.
pub open spec fn size_of_key(m: Map<Seq<char>, IntSpan>, k: Seq<char>) -> int {
    if m.contains_key(k) {
        card_of(m[k].spans())
    } else {
        0
    }
}

/// Sum of the lengths of `rows`.
pub open spec fn total_length(rows: Seq<(String, i32, i64)>) -> int
    decreases rows.len(),
{
    if rows.len() == 0 {
        0
    } else {
        total_length(rows.drop_last()) + rows.last().1
    }
}

/// Sum of the sizes of `rows`.
pub open spec fn total_size(rows: Seq<(String, i32, i64)>) -> int
    decreases rows.len(),
{
    if rows.len() == 0 {
        0
    } else {
        total_size(rows.drop_last()) + rows.last().2
    }
}

/// One row per key of the size table, in its order: the key, its length,
/// and the size of its set in `set_one`.
pub fn stat_rows(length_of: &KeyMap<i32>, set_one: &NamedSets) -> (r: Vec<(String, i32, i64)>)
    requires
        set_one.wf(),
        sets_wf(set_one@),
    ensures
        r@.len() == length_of.entries().len(),
        forall|j: int|
            0 <= j < r@.len() ==> (#[trigger] r@[j]).0@ == length_of.entries()[j].0@ && r@[j].1
                == length_of.entries()[j].1 && r@[j].2 == size_of_key(set_one@, r@[j].0@),
        forall|j: int| 0 <= j < r@.len() ==> 0 <= (#[trigger] r@[j]).2 <= 0x1_0000_0000,
{
    let ghost e = length_of.entries();
    let mut r: Vec<(String, i32, i64)> = Vec::new();
    let mut i: usize = 0;
    let n = length_of.keys().len();
    while i < n
        invariant
            n == e.len(),
            e == length_of.entries(),
            set_one.wf(),
            sets_wf(set_one@),
            0 <= i <= n,
            r@.len() == i,
            forall|j: int|
                0 <= j < i ==> (#[trigger] r@[j]).0@ == e[j].0@ && r@[j].1 == e[j].1 && r@[j].2
                    == size_of_key(set_one@, r@[j].0@),
            forall|j: int| 0 <= j < i ==> 0 <= (#[trigger] r@[j]).2 <= 0x1_0000_0000,
        decreases n - i,
    {
        let key = length_of.key_at(i);
        let size: i64 = match set_one.get(key.as_str()) {
            Some(s) => s.cardinality(),
            None => 0,
        };
        r.push((key.clone(), *length_of.value_at(i), size));
        i = i + 1;
    }
    r
}

/// The sums of the lengths and of the sizes of `rows`.
pub fn stat_total(rows: &Vec<(String, i32, i64)>) -> (r: (i128, i128))
    requires
        forall|j: int| 0 <= j < rows@.len() ==> 0 <= (#[trigger] rows@[j]).2 <= 0x1_0000_0000,
    ensures
        r.0 == total_length(rows@),
        r.1 == total_size(rows@),
{
    let mut len_sum: i128 = 0;
    let mut size_sum: i128 = 0;
    let mut i: usize = 0;
    assert(rows@.take(0) =~= Seq::<(String, i32, i64)>::empty());
    while i < rows.len()
        invariant
            0 <= i <= rows@.len(),
            forall|j: int| 0 <= j < rows@.len() ==> 0 <= (#[trigger] rows@[j]).2 <= 0x1_0000_0000,
            len_sum == total_length(rows@.take(i as int)),
            size_sum == total_size(rows@.take(i as int)),
            -0x8000_0000 * i <= len_sum <= 0x8000_0000 * i,
            0 <= size_sum <= 0x1_0000_0000 * i,
        decreases rows@.len() - i,
    {
        assert(rows@.take(i + 1).drop_last() =~= rows@.take(i as int));
        len_sum = len_sum + rows[i].1 as i128;
        size_sum = size_sum + rows[i].2 as i128;
        i = i + 1;
    }
    assert(rows@.take(i as int) =~= rows@);
    (len_sum, size_sum)
}

/// Gathers one map of named sets per source into groups named after the
/// sources; a later source of the same name wins.
pub fn merge(sources: Vec<(String, NamedSets)>) -> (r: GroupedSets)
    ensures
        r.wf(),
        r@ == map_of(sources@),
{
    let ghost orig = sources@;
    let mut rest = sources;
    let mut r: GroupedSets = KeyMap::new();
    let mut i: usize = 0;
    let n = rest.len();
    assert(orig.take(0) =~= Seq::<(String, NamedSets)>::empty());
    while i < n
        invariant
            n == orig.len(),
            0 <= i <= n,
            rest@ == orig.skip(i as int),
            r.wf(),
            r@ == map_of(orig.take(i as int)),
        decreases n - i,
    {
        let item = rest.remove(0);
        proof {
            assert(item == orig[i as int]);
            assert(orig.take(i + 1).drop_last() =~= orig.take(i as int));
        }
        r.insert(item.0, item.1);
        assert(rest@ =~= orig.skip(i + 1));
        i = i + 1;
    }
    assert(orig.take(n as int) =~= orig);
    r
}

/// Compares every group of `g` with the one map `other`, key by key, as
/// `compare` does.
pub fn compare_groups(op: SetOp, g: &GroupedSets, other: &NamedSets) -> (r: GroupedSets)
    requires
        g.wf(),
        groups_wf(g@),
        other.wf(),
        sets_wf(other@),
    ensures
        r.wf(),
        groups_wf(r@),
        r@.dom() == g@.dom(),
        forall|n: Seq<char>, k: Seq<char>| #[trigger] r@.contains_key(n) ==> (#[trigger] r@[n]@.contains_key(k) <==> g@[n]@.contains_key(k) || other@.contains_key(k)),
        forall|n: Seq<char>, k: Seq<char>|
            #[trigger] r@.contains_key(n) && #[trigger] r@[n]@.contains_key(k) ==> r@[n]@[k]@ == set_op_result(
                op,
                set_or_empty(g@[n]@, k),
                set_or_empty(other@, k),
            ),
{
    let ghost e = g.entries();
    proof {
        g.lemma_view();
    }
    let mut r: GroupedSets = KeyMap::new();
    let len = g.len();
    let mut i: usize = 0;
    while i < len
        invariant
            len == e.len(),
            e == g.entries(),
            g@ == map_of(e),
            keys_unique(e),
            groups_wf(g@),
            other.wf(),
            sets_wf(other@),
            0 <= i <= len,
            r.wf(),
            groups_wf(r@),
            forall|n: Seq<char>| #[trigger] r@.contains_key(n) <==> key_before(e, i as int, n),
            forall|n: Seq<char>, k: Seq<char>| #[trigger] r@.contains_key(n) ==> (#[trigger] r@[n]@.contains_key(k) <==> g@[n]@.contains_key(k) || other@.contains_key(k)),
            forall|n: Seq<char>, k: Seq<char>|
                #[trigger] r@.contains_key(n) && #[trigger] r@[n]@.contains_key(k) ==> r@[n]@[k]@ == set_op_result(
                    op,
                    set_or_empty(g@[n]@, k),
                    set_or_empty(other@, k),
                ),
        decreases len - i,
    {
        proof {
            lemma_map_of_index(e, i as int);
        }
        let one = compare(op, g.value_at(i), other);
        r.insert(g.key_at(i).clone(), one);
        proof {
            assert forall|n: Seq<char>| #[trigger] r@.contains_key(n) <==> key_before(e, i + 1, n) by {
                lemma_key_before_step(e, i as int, n);
            }
        }
        i = i + 1;
    }
    proof {
        assert forall|n: Seq<char>| #[trigger] r@.contains_key(n) <==> g@.contains_key(n) by {
            lemma_key_before_all(e, n);
        }
        assert(r@.dom() =~= g@.dom());
    }
    r
}

/// Statistics of `op` applied key by key to `a` and `b`: one row per key of
/// the size table, with the size of the combined set of that key (a key
/// missing on one side stands for the empty set there).
pub fn statop_rows(op: SetOp, length_of: &KeyMap<i32>, a: &NamedSets, b: &NamedSets) -> (r: Vec<(String, i32, i64)>)
    requires
        a.wf(),
        b.wf(),
        sets_wf(a@),
        sets_wf(b@),
    ensures
        r@.len() == length_of.entries().len(),
        forall|j: int|
            0 <= j < r@.len() ==> (#[trigger] r@[j]).0@ == length_of.entries()[j].0@ && r@[j].1
                == length_of.entries()[j].1,
        forall|j: int, c: IntSpan|
            0 <= j < r@.len() && (a@.contains_key((#[trigger] r@[j]).0@) || b@.contains_key(r@[j].0@)) && c.wf()
                && #[trigger] c@ == set_op_result(op, set_or_empty(a@, r@[j].0@), set_or_empty(b@, r@[j].0@))
                ==> r@[j].2 == card_of(c.spans()),
        forall|j: int|
            0 <= j < r@.len() && !a@.contains_key((#[trigger] r@[j]).0@) && !b@.contains_key(r@[j].0@) ==> r@[j].2 == 0,
        forall|j: int| 0 <= j < r@.len() ==> 0 <= (#[trigger] r@[j]).2 <= 0x1_0000_0000,
{
    let m = compare(op, a, b);
    let r = stat_rows(length_of, &m);
    proof {
        assert forall|j: int, c: IntSpan|
            0 <= j < r@.len() && (a@.contains_key((#[trigger] r@[j]).0@) || b@.contains_key(r@[j].0@)) && c.wf()
                && #[trigger] c@ == set_op_result(op, set_or_empty(a@, r@[j].0@), set_or_empty(b@, r@[j].0@))
                implies r@[j].2 == card_of(c.spans()) by {
            let k = r@[j].0@;
            assert(m@.contains_key(k));
            lemma_canonical(c, m@[k]);
        }
    }
    r
}

} // verus!
