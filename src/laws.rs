//! Algebraic laws of `IntSpan`, stated over the views that its operations promise.
use vstd::prelude::*;
use crate::intspan::{IntSpan, filled_set, grown_set, in_grown, in_span, in_small_gap, covers};
use crate::setmap::filled_from;
use crate::intspan::{lemma_canonical, span_set};
use crate::coverage::{range_keeps, kept_records};
use crate::ops::RangeOp;
use crate::runlist::{lemma_read_written, runlist_text, tokens_ok, tokens_of, tokens_set};

verus! {

/// The union of a set with itself is that set: a canonical `u` holding
/// `s ∪ s`, as `union` returns, has the spans of `s`.
pub proof fn law_union_self(s: IntSpan, u: IntSpan)
    requires
        s.wf(),
        u.wf(),
        u@ == s@.union(s@),
    ensures
        u.spans() == s.spans(),
{
    assert(s@.union(s@) =~= s@);
    lemma_canonical(u, s);
}

/// Filling holes of at most zero values changes nothing: what `fill(0)`
/// returns has the spans of `s`.
pub proof fn law_fill_zero(s: IntSpan, r: IntSpan)
    requires
        s.wf(),
        r.wf(),
        r@ == filled_set(s.spans(), 0),
    ensures
        r.spans() == s.spans(),
{
    s.lemma_view();
    s.lemma_wf();
    let sp = s.spans();
    assert forall|x: int| #[trigger] filled_set(sp, 0).contains(x) implies s@.contains(x) by {
        if !covers(sp, x) {
            let i = choose|i: int| 0 <= i < sp.len() - 1 && #[trigger] in_small_gap(sp, i, 0, x);
            assert(sp[i].1 + 1 < sp[i + 1].0);
        }
    }
    assert(filled_set(sp, 0) =~= s@);
    lemma_canonical(r, s);
}

/// Widening or narrowing every span by zero changes nothing: what `pad(0)`
/// and `trim(0)` return has the spans of `s`.
pub proof fn law_grow_zero(s: IntSpan, r: IntSpan)
    requires
        s.wf(),
        r.wf(),
        r@ == grown_set(s.spans(), 0),
    ensures
        r.spans() == s.spans(),
{
    s.lemma_view();
    let sp = s.spans();
    assert forall|x: int| #[trigger] grown_set(sp, 0).contains(x) <==> s@.contains(x) by {
        if grown_set(sp, 0).contains(x) {
            let i = choose|i: int| 0 <= i < sp.len() && #[trigger] in_grown(sp[i], 0, x);
            assert(in_span(sp[i], x));
        }
        if covers(sp, x) {
            let i = choose|i: int| 0 <= i < sp.len() && #[trigger] in_span(sp[i], x);
            assert(in_grown(sp[i], 0, x));
        }
    }
    assert(grown_set(sp, 0) =~= s@);
    lemma_canonical(r, s);
}

/// `union` and `intersect` are commutative: results of the two orders have
/// the same spans.
pub proof fn law_commutative(s: IntSpan, t: IntSpan, st: IntSpan, ts: IntSpan, is: IntSpan, it: IntSpan)
    requires
        s.wf(),
        t.wf(),
        st.wf(),
        ts.wf(),
        is.wf(),
        it.wf(),
        st@ == s@.union(t@),
        ts@ == t@.union(s@),
        is@ == s@.intersect(t@),
        it@ == t@.intersect(s@),
    ensures
        st.spans() == ts.spans(),
        is.spans() == it.spans(),
{
    assert(s@.union(t@) =~= t@.union(s@));
    assert(s@.intersect(t@) =~= t@.intersect(s@));
    lemma_canonical(st, ts);
    lemma_canonical(is, it);
}

/// `union` is associative: `(s ∪ t) ∪ u` and `s ∪ (t ∪ u)`, built as the
/// operations build them, have the same spans.
pub proof fn law_union_associative(s: IntSpan, t: IntSpan, u: IntSpan, st: IntSpan, tu: IntSpan, left: IntSpan, right: IntSpan)
    requires
        s.wf(),
        t.wf(),
        u.wf(),
        st.wf(),
        tu.wf(),
        left.wf(),
        right.wf(),
        st@ == s@.union(t@),
        tu@ == t@.union(u@),
        left@ == st@.union(u@),
        right@ == s@.union(tu@),
    ensures
        left.spans() == right.spans(),
{
    assert(s@.union(t@).union(u@) =~= s@.union(t@.union(u@)));
    lemma_canonical(left, right);
}

/// `intersect` is associative: `(s ∩ t) ∩ u` and `s ∩ (t ∩ u)`, built as
/// the operations build them, have the same spans.
pub proof fn law_intersect_associative(s: IntSpan, t: IntSpan, u: IntSpan, st: IntSpan, tu: IntSpan, left: IntSpan, right: IntSpan)
    requires
        s.wf(),
        t.wf(),
        u.wf(),
        st.wf(),
        tu.wf(),
        left.wf(),
        right.wf(),
        st@ == s@.intersect(t@),
        tu@ == t@.intersect(u@),
        left@ == st@.intersect(u@),
        right@ == s@.intersect(tu@),
    ensures
        left.spans() == right.spans(),
{
    assert(s@.intersect(t@).intersect(u@) =~= s@.intersect(t@.intersect(u@)));
    lemma_canonical(left, right);
}

/// A set minus itself, and a set xor itself, are empty: what `diff(s, s)`
/// and `xor(s, s)` return has no spans.
pub proof fn law_self_cancel(s: IntSpan, d: IntSpan, x: IntSpan)
    requires
        s.wf(),
        d.wf(),
        x.wf(),
        d@ == s@.difference(s@),
        x@ == s@.union(s@).difference(s@.intersect(s@)),
    ensures
        d.spans().len() == 0,
        x.spans().len() == 0,
{
    assert(s@.difference(s@) =~= Set::<int>::empty());
    assert(s@.union(s@).difference(s@.intersect(s@)) =~= Set::<int>::empty());
    d.lemma_view();
    x.lemma_view();
    d.lemma_wf();
    x.lemma_wf();
    if d.spans().len() > 0 {
        assert(in_span(d.spans()[0], d.spans()[0].0 as int));
        assert(d@.contains(d.spans()[0].0 as int));
    }
    if x.spans().len() > 0 {
        assert(in_span(x.spans()[0], x.spans()[0].0 as int));
        assert(x@.contains(x.spans()[0].0 as int));
    }
}

/// Adding to `s` what `t` holds beyond `s` gives the union of the two:
/// `union(s, diff(t, s))` and `union(s, t)` have the same spans.
pub proof fn law_union_diff(s: IntSpan, t: IntSpan, d: IntSpan, left: IntSpan, right: IntSpan)
    requires
        s.wf(),
        t.wf(),
        d.wf(),
        left.wf(),
        right.wf(),
        d@ == t@.difference(s@),
        left@ == s@.union(d@),
        right@ == s@.union(t@),
    ensures
        left.spans() == right.spans(),
{
    assert(s@.union(t@.difference(s@)) =~= s@.union(t@));
    lemma_canonical(left, right);
}

/// Filling up against a universe a second time changes nothing, and after
/// the first time every key of the universe is present, with its former
/// set or an empty one.
pub proof fn law_fill_up_twice(
    a: Map<Seq<char>, IntSpan>,
    universe: Set<Seq<char>>,
    b: Map<Seq<char>, IntSpan>,
    c: Map<Seq<char>, IntSpan>,
)
    requires
        filled_from(a, universe, b),
        filled_from(b, universe, c),
    ensures
        c == b,
        forall|k: Seq<char>| #[trigger] universe.contains(k) ==> b.contains_key(k) && (a.contains_key(k) ==> b[k] == a[k])
            && (!a.contains_key(k) ==> b[k]@ == Set::<int>::empty()),
{
    assert(c =~= b);
}

/// Run-list text round-trips: the text written for a set is accepted when
/// read, and the set `t` read from it has the same
/// spans, so writing `t` gives the same text again.
pub proof fn law_round_trip(s: IntSpan, t: IntSpan)
    requires
        s.wf(),
        t.wf(),
        t@ == tokens_set(tokens_of(runlist_text(s.spans()))),
    ensures
        tokens_ok(tokens_of(runlist_text(s.spans()))),
        t.spans() == s.spans(),
        runlist_text(t.spans()) == runlist_text(s.spans()),
{
    s.lemma_view();
    s.lemma_wf();
    lemma_read_written(s.spans());
    lemma_canonical(t, s);
}

/// A range query keeps the records that pass it, in their input order, and
/// drops the others: `range_filter` returns `recs` filtered by `range_keeps`.
pub proof fn law_range_query_filters(op: RangeOp, m: Map<Seq<char>, IntSpan>, recs: Seq<(String, i32, i32)>)
    ensures
        kept_records(op, m, recs) == recs.filter(|q: (String, i32, i32)| range_keeps(op, m, q)),
    decreases recs.len(),
{
    reveal(Seq::filter);
    if recs.len() > 0 {
        law_range_query_filters(op, m, recs.drop_last());
    }
}

/// A `superset` query keeps a record exactly when its key has a set that
/// holds every value from `lo` to `hi`; against the one span `[a, b]` a
/// non-empty query is kept exactly when it lies within it, whatever part
/// of it overlaps.
pub proof fn law_superset_query(m: Map<Seq<char>, IntSpan>, q: (String, i32, i32), a: int, b: int)
    requires
        m.contains_key(q.0@),
        m[q.0@]@ == span_set(a, b),
        q.1 <= q.2,
    ensures
        range_keeps(RangeOp::Superset, m, q) <==> a <= q.1 && q.2 <= b,
{
    let qs = span_set(q.1 as int, q.2 as int);
    if qs.subset_of(span_set(a, b)) {
        assert(qs.contains(q.1 as int));
        assert(qs.contains(q.2 as int));
    }
}

} // verus!
