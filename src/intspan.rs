//! Sets of `i32` values held as sorted, disjoint, non-adjacent inclusive spans.
use vstd::prelude::*;

verus! {

/// Whether `x` lies in the inclusive span `p`.
pub open spec fn in_span(p: (i32, i32), x: int) -> bool {
    p.0 <= x && x <= p.1
}

/// Whether some span of `r` holds `x`.
pub open spec fn covers(r: Seq<(i32, i32)>, x: int) -> bool {
    exists|i: int| 0 <= i < r.len() && #[trigger] in_span(r[i], x)
}

/// The integers that the spans of `r` hold.
pub open spec fn set_of(r: Seq<(i32, i32)>) -> Set<int> {
    Set::new(|x: int| covers(r, x))
}

/// The integers of one inclusive span.
pub open spec fn span_set(lo: int, hi: int) -> Set<int> {
    Set::new(|x: int| lo <= x && x <= hi)
}

/// All values an `i32` can take.
pub open spec fn domain() -> Set<int> {
    span_set(i32::MIN as int, i32::MAX as int)
}

/// Canonical form: each span non-empty, spans ascending, and any two spans
/// separated by at least one missing value.
pub open spec fn wf_spans(r: Seq<(i32, i32)>) -> bool {
    &&& forall|i: int| 0 <= i < r.len() ==> (#[trigger] r[i]).0 <= r[i].1
    &&& forall|i: int, j: int| 0 <= i < j < r.len() ==> (#[trigger] r[i]).1 + 1 < (#[trigger] r[j]).0
}

proof fn lemma_covers_push(r: Seq<(i32, i32)>, p: (i32, i32), x: int)
    ensures
        covers(r.push(p), x) <==> covers(r, x) || in_span(p, x),
{
    let s = r.push(p);
    if covers(r, x) {
        let i = choose|i: int| 0 <= i < r.len() && #[trigger] in_span(r[i], x);
        assert(s[i] == r[i]);
    }
    if in_span(p, x) {
        assert(s[r.len() as int] == p);
    }
    if covers(s, x) {
        let i = choose|i: int| 0 <= i < s.len() && #[trigger] in_span(s[i], x);
        if i < r.len() {
            assert(s[i] == r[i]);
        }
    }
}

proof fn lemma_covers_take(r: Seq<(i32, i32)>, n: int, x: int)
    requires
        0 <= n < r.len(),
    ensures
        covers(r.take(n + 1), x) <==> covers(r.take(n), x) || in_span(r[n], x),
{
    assert(r.take(n + 1) =~= r.take(n).push(r[n]));
    lemma_covers_push(r.take(n), r[n], x);
}

proof fn lemma_covers_bounds(r: Seq<(i32, i32)>, x: int)
    requires
        covers(r, x),
    ensures
        i32::MIN <= x <= i32::MAX,
{
    let i = choose|i: int| 0 <= i < r.len() && #[trigger] in_span(r[i], x);
}


/// Sum of the span lengths of `r`.
pub open spec fn card_of(r: Seq<(i32, i32)>) -> int
    decreases r.len(),
{
    if r.len() == 0 {
        0
    } else {
        card_of(r.drop_last()) + (r.last().1 - r.last().0 + 1)
    }
}

/// Whether `x` lies in span `p` widened by `d` at each end (narrowed when `d < 0`).
pub open spec fn in_grown(p: (i32, i32), d: int, x: int) -> bool {
    p.0 - d <= x && x <= p.1 + d
}

/// The union of the spans of `r`, each widened by `d` at both ends.
pub open spec fn grown_set(r: Seq<(i32, i32)>, d: int) -> Set<int> {
    Set::new(|x: int| exists|i: int| 0 <= i < r.len() && #[trigger] in_grown(r[i], d, x))
}

/// Every span of `r` that stays non-empty when widened by `d` still fits in `i32`.
pub open spec fn fits_grown(r: Seq<(i32, i32)>, d: int) -> bool {
    forall|i: int|
        0 <= i < r.len() && (#[trigger] r[i]).0 - d <= r[i].1 + d ==> i32::MIN <= r[i].0 - d && r[i].1
            + d <= i32::MAX
}

/// Whether `x` lies in the hole after span `i` of `r`, and that hole holds at most `d` values.
pub open spec fn in_small_gap(r: Seq<(i32, i32)>, i: int, d: int, x: int) -> bool {
    &&& r[i].1 < x < r[i + 1].0
    &&& r[i + 1].0 - r[i].1 - 1 <= d
}

/// The spans of `r` with every hole of at most `d` values filled in.
pub open spec fn filled_set(r: Seq<(i32, i32)>, d: int) -> Set<int> {
    set_of(r).union(
        Set::new(|x: int| exists|i: int| 0 <= i < r.len() - 1 && #[trigger] in_small_gap(r, i, d, x)),
    )
}

/// The values of the spans of `r` that hold at least `n` values.
pub open spec fn long_spans_set(r: Seq<(i32, i32)>, n: int) -> Set<int> {
    Set::new(
        |x: int|
            exists|i: int|
                0 <= i < r.len() && #[trigger] in_span(r[i], x) && r[i].1 - r[i].0 + 1 >= n,
    )
}

proof fn lemma_card_bound(r: Seq<(i32, i32)>)
    requires
        wf_spans(r),
    ensures
        card_of(r) >= 0,
        r.len() > 0 ==> card_of(r) <= r.last().1 - r[0].0 + 1,
    decreases r.len(),
{
    if r.len() > 0 {
        let p = r.drop_last();
        assert(wf_spans(p));
        lemma_card_bound(p);
        if p.len() > 0 {
            assert(p.last() == r[r.len() - 2]);
            assert(r[r.len() - 2].1 + 1 < r[r.len() - 1].0);
            assert(p[0] == r[0]);
        }
        assert(r.last().0 <= r.last().1);
    }
}

proof fn lemma_covers_drop_last(r: Seq<(i32, i32)>, x: int)
    requires
        wf_spans(r),
        r.len() > 0,
    ensures
        covers(r.drop_last(), x) <==> covers(r, x) && x < r.last().0,
{
    let p = r.drop_last();
    if covers(p, x) {
        let i = choose|i: int| 0 <= i < p.len() && #[trigger] in_span(p[i], x);
        assert(p[i] == r[i]);
        assert(in_span(r[i], x));
        assert(r[i].1 + 1 < r[r.len() - 1].0);
    }
    if covers(r, x) && x < r.last().0 {
        let i = choose|i: int| 0 <= i < r.len() && #[trigger] in_span(r[i], x);
        assert(i < r.len() - 1);
        assert(p[i] == r[i]);
        assert(in_span(p[i], x));
    }
}

proof fn lemma_canonical_spans(r1: Seq<(i32, i32)>, r2: Seq<(i32, i32)>)
    requires
        wf_spans(r1),
        wf_spans(r2),
        forall|x: int| covers(r1, x) <==> covers(r2, x),
    ensures
        r1 == r2,
    decreases r1.len() + r2.len(),
{
    if r1.len() == 0 || r2.len() == 0 {
        if r1.len() > 0 {
            assert(in_span(r1[0], r1[0].0 as int));
            assert(covers(r1, r1[0].0 as int));
        }
        if r2.len() > 0 {
            assert(in_span(r2[0], r2[0].0 as int));
            assert(covers(r2, r2[0].0 as int));
        }
        assert(r1 =~= r2);
    } else {
        let n1 = r1.len() - 1;
        let n2 = r2.len() - 1;
        let a = r1[n1];
        let b = r2[n2];
        // the greatest values agree
        assert(in_span(r1[n1], a.1 as int));
        assert(covers(r1, a.1 as int));
        let i = choose|i: int| 0 <= i < r2.len() && #[trigger] in_span(r2[i], a.1 as int);
        if i < n2 {
            assert(r2[i].1 + 1 < r2[n2].0);
        }
        assert(in_span(r2[n2], b.1 as int));
        assert(covers(r2, b.1 as int));
        let j = choose|j: int| 0 <= j < r1.len() && #[trigger] in_span(r1[j], b.1 as int);
        if j < n1 {
            assert(r1[j].1 + 1 < r1[n1].0);
        }
        assert(a.1 == b.1);
        // the starts of the last spans agree
        if a.0 < b.0 {
            let y = b.0 - 1;
            assert(in_span(r1[n1], y));
            assert(covers(r1, y));
            let k = choose|k: int| 0 <= k < r2.len() && #[trigger] in_span(r2[k], y);
            if k < n2 {
                assert(r2[k].1 + 1 < r2[n2].0);
            }
        }
        if b.0 < a.0 {
            let y = a.0 - 1;
            assert(in_span(r2[n2], y));
            assert(covers(r2, y));
            let k = choose|k: int| 0 <= k < r1.len() && #[trigger] in_span(r1[k], y);
            if k < n1 {
                assert(r1[k].1 + 1 < r1[n1].0);
            }
        }
        assert(a == b);
        assert(wf_spans(r1.drop_last()));
        assert(wf_spans(r2.drop_last()));
        assert forall|x: int| covers(r1.drop_last(), x) <==> covers(r2.drop_last(), x) by {
            lemma_covers_drop_last(r1, x);
            lemma_covers_drop_last(r2, x);
        }
        lemma_canonical_spans(r1.drop_last(), r2.drop_last());
        assert(r1 =~= r1.drop_last().push(a));
        assert(r2 =~= r2.drop_last().push(b));
    }
}

/// Canonical spans are determined by the set they hold: two well-formed sets
/// with the same values have the same spans.
pub proof fn lemma_canonical(a: IntSpan, b: IntSpan)
    requires
        a.wf(),
        b.wf(),
        a@ == b@,
    ensures
        a.spans() == b.spans(),
{
    assert forall|x: int| covers(a.ranges@, x) <==> covers(b.ranges@, x) by {
        assert(set_of(a.ranges@).contains(x) == covers(a.ranges@, x));
        assert(set_of(b.ranges@).contains(x) == covers(b.ranges@, x));
        assert(a@ == set_of(a.ranges@));
        assert(b@ == set_of(b.ranges@));
    }
    lemma_canonical_spans(a.ranges@, b.ranges@);
}

/// Adds the span `[lo, hi]` to the canonical spans `out`, whose last span must
/// not start after `lo`.
fn push_merge(out: &mut Vec<(i32, i32)>, lo: i32, hi: i32)
    requires
        wf_spans(old(out)@),
        lo <= hi,
        old(out)@.len() > 0 ==> old(out)@.last().0 <= lo,
    ensures
        wf_spans(final(out)@),
        final(out)@.len() > 0,
        final(out)@.last().0 <= lo,
        forall|x: int| #[trigger] covers(final(out)@, x) <==> covers(old(out)@, x) || lo <= x <= hi,
{
    let n = out.len();
    if n > 0 && lo as i64 <= out[n - 1].1 as i64 + 1 {
        let a = out[n - 1].0;
        let b = out[n - 1].1;
        let nb = if hi > b { hi } else { b };
        let ghost prev = out@;
        out.set(n - 1, (a, nb));
        proof {
            let s = out@;
            assert(s =~= prev.drop_last().push((a, nb)));
            assert(prev =~= prev.drop_last().push((a, b)));
            assert forall|x: int| #[trigger] covers(s, x) <==> covers(prev, x) || lo <= x <= hi by {
                lemma_covers_push(prev.drop_last(), (a, nb), x);
                lemma_covers_push(prev.drop_last(), (a, b), x);
            }
        }
    } else {
        let ghost prev = out@;
        out.push((lo, hi));
        proof {
            assert forall|x: int| #[trigger] covers(out@, x) <==> covers(prev, x) || lo <= x <= hi by {
                lemma_covers_push(prev, (lo, hi), x);
            }
            assert forall|i: int, j: int| 0 <= i < j < out@.len() implies (#[trigger] out@[i]).1 + 1 < (#[trigger] out@[j]).0 by {
                if j == n {
                    assert(out@[i] == prev[i]);
                    if i < n - 1 {
                        assert(prev[i].1 + 1 < prev[n - 1].0);
                    }
                }
            }
        }
    }
}


/// A finite set of `i32` values, kept as canonical spans.
#[derive(Clone, Debug)]
pub struct IntSpan {
    ranges: Vec<(i32, i32)>,
}

impl View for IntSpan {
    type V = Set<int>;

    closed spec fn view(&self) -> Set<int> {
        set_of(self.ranges@)
    }
}

impl IntSpan {
    /// The spans of the set, ascending.
    pub closed spec fn spans(&self) -> Seq<(i32, i32)> {
        self.ranges@
    }

    /// The spans are canonical and the view is what they hold.
    pub closed spec fn wf(&self) -> bool {
        wf_spans(self.ranges@)
    }

    pub proof fn lemma_view(&self)
        ensures
            self@ == set_of(self.spans()),
    {
    }

    pub proof fn lemma_wf(&self)
        ensures
            self.wf() <==> wf_spans(self.spans()),
    {
    }

    /// The empty set.
    pub fn new() -> (r: IntSpan)
        ensures
            r.wf(),
            r.spans().len() == 0,
            r@ == Set::<int>::empty(),
    {
        let r = IntSpan { ranges: Vec::new() };
        assert(r@ =~= Set::<int>::empty());
        r
    }

    /// The set of values held by this set or by `other`.
    pub fn union(&self, other: &IntSpan) -> (r: IntSpan)
        requires
            self.wf(),
            other.wf(),
        ensures
            r.wf(),
            r@ == self@.union(other@),
    {
        let a = &self.ranges;
        let b = &other.ranges;
        let mut out: Vec<(i32, i32)> = Vec::new();
        let mut i: usize = 0;
        let mut j: usize = 0;
        while i < a.len() || j < b.len()
            invariant
                wf_spans(a@),
                wf_spans(b@),
                wf_spans(out@),
                0 <= i <= a@.len(),
                0 <= j <= b@.len(),
                forall|x: int| #[trigger] covers(out@, x) <==> covers(a@.take(i as int), x) || covers(b@.take(j as int), x),
                out@.len() > 0 && i < a@.len() ==> out@.last().0 <= a@[i as int].0,
                out@.len() > 0 && j < b@.len() ==> out@.last().0 <= b@[j as int].0,
            decreases a@.len() + b@.len() - i - j,
        {
            if j >= b.len() || (i < a.len() && a[i].0 <= b[j].0) {
                push_merge(&mut out, a[i].0, a[i].1);
                proof {
                    assert forall|x: int| #[trigger] covers(out@, x) <==> covers(a@.take(i + 1), x) || covers(b@.take(j as int), x) by {
                        lemma_covers_take(a@, i as int, x);
                    }
                    if i + 1 < a@.len() {
                        assert(a@[i as int].1 + 1 < a@[i + 1].0);
                    }
                }
                i = i + 1;
            } else {
                push_merge(&mut out, b[j].0, b[j].1);
                proof {
                    assert forall|x: int| #[trigger] covers(out@, x) <==> covers(a@.take(i as int), x) || covers(b@.take(j + 1), x) by {
                        lemma_covers_take(b@, j as int, x);
                    }
                    if j + 1 < b@.len() {
                        assert(b@[j as int].1 + 1 < b@[j + 1].0);
                    }
                }
                j = j + 1;
            }
        }
        assert(a@.take(i as int) =~= a@);
        assert(b@.take(j as int) =~= b@);
        let r = IntSpan { ranges: out };
        assert(r@ =~= self@.union(other@));
        r
    }

    /// The values of `i32` that this set does not hold.
    pub fn complement(&self) -> (r: IntSpan)
        requires
            self.wf(),
        ensures
            r.wf(),
            r@ == domain().difference(self@),
    {
        let a = &self.ranges;
        let mut out: Vec<(i32, i32)> = Vec::new();
        let mut prev: i64 = i32::MIN as i64;
        let mut i: usize = 0;
        while i < a.len()
            invariant
                wf_spans(a@),
                wf_spans(out@),
                0 <= i <= a@.len(),
                i32::MIN <= prev <= i32::MAX as int + 1,
                i < a@.len() ==> prev <= a@[i as int].0,
                forall|k: int| 0 <= k < i ==> (#[trigger] a@[k]).1 < prev,
                out@.len() > 0 ==> out@.last().1 + 1 < prev,
                forall|x: int| #[trigger] covers(out@, x) <==> (i32::MIN <= x < prev && !covers(a@.take(i as int), x)),
            decreases a@.len() - i,
        {
            let lo = a[i].0;
            let hi = a[i].1;
            let ghost pre = out@;
            if (lo as i64) > prev {
                out.push((prev as i32, lo - 1));
                proof {
                    assert forall|x: int| #[trigger] covers(out@, x) <==> covers(pre, x) || prev <= x <= lo - 1 by {
                        lemma_covers_push(pre, (prev as i32, (lo - 1) as i32), x);
                    }
                    assert forall|p: int, q: int| 0 <= p < q < out@.len() implies (#[trigger] out@[p]).1 + 1 < (#[trigger] out@[q]).0 by {
                        if q == pre.len() {
                            assert(out@[p] == pre[p]);
                            if p < pre.len() - 1 {
                                assert(pre[p].1 + 1 < pre[pre.len() - 1].0);
                            }
                        }
                    }
                }
            }
            proof {
                assert forall|x: int| #[trigger] covers(out@, x) <==> (i32::MIN <= x < hi + 1 && !covers(a@.take(i + 1), x)) by {
                    lemma_covers_take(a@, i as int, x);
                    if prev <= x && covers(a@.take(i as int), x) {
                        let k = choose|k: int| 0 <= k < a@.take(i as int).len() && #[trigger] in_span(a@.take(i as int)[k], x);
                        assert(a@[k].1 < prev);
                    }
                }
                if i + 1 < a@.len() {
                    assert(a@[i as int].1 + 1 < a@[i + 1].0);
                }
                assert forall|k: int| 0 <= k < i + 1 implies (#[trigger] a@[k]).1 < hi + 1 by {
                    if k < i {
                        assert(a@[k].1 + 1 < a@[i as int].0);
                    }
                }
            }
            prev = hi as i64 + 1;
            i = i + 1;
        }
        if prev <= i32::MAX as i64 {
            let ghost pre = out@;
            out.push((prev as i32, i32::MAX));
            proof {
                assert forall|x: int| #[trigger] covers(out@, x) <==> covers(pre, x) || prev <= x <= i32::MAX by {
                    lemma_covers_push(pre, (prev as i32, i32::MAX), x);
                }
                assert forall|p: int, q: int| 0 <= p < q < out@.len() implies (#[trigger] out@[p]).1 + 1 < (#[trigger] out@[q]).0 by {
                    if q == pre.len() {
                        assert(out@[p] == pre[p]);
                        if p < pre.len() - 1 {
                            assert(pre[p].1 + 1 < pre[pre.len() - 1].0);
                        }
                    }
                }
            }
        }
        assert(a@.take(i as int) =~= a@);
        let r = IntSpan { ranges: out };
        assert forall|x: int| #[trigger] r@.contains(x) <==> domain().difference(self@).contains(x) by {
            if covers(a@, x) {
                lemma_covers_bounds(a@, x);
            }
        }
        assert(r@ =~= domain().difference(self@));
        r
    }

    /// The values held by both sets.
    pub fn intersect(&self, other: &IntSpan) -> (r: IntSpan)
        requires
            self.wf(),
            other.wf(),
        ensures
            r.wf(),
            r@ == self@.intersect(other@),
    {
        let r = self.complement().union(&other.complement()).complement();
        assert forall|x: int| #[trigger] r@.contains(x) <==> self@.intersect(other@).contains(x) by {
            if covers(self.ranges@, x) {
                lemma_covers_bounds(self.ranges@, x);
            }
        }
        assert(r@ =~= self@.intersect(other@));
        r
    }

    /// The values held by this set and not by `other`.
    pub fn diff(&self, other: &IntSpan) -> (r: IntSpan)
        requires
            self.wf(),
            other.wf(),
        ensures
            r.wf(),
            r@ == self@.difference(other@),
    {
        let r = self.complement().union(other).complement();
        assert forall|x: int| #[trigger] r@.contains(x) <==> self@.difference(other@).contains(x) by {
            if covers(self.ranges@, x) {
                lemma_covers_bounds(self.ranges@, x);
            }
        }
        assert(r@ =~= self@.difference(other@));
        r
    }

    /// The values held by exactly one of the two sets.
    pub fn xor(&self, other: &IntSpan) -> (r: IntSpan)
        requires
            self.wf(),
            other.wf(),
        ensures
            r.wf(),
            r@ == self@.union(other@).difference(self@.intersect(other@)),
    {
        let r = self.diff(other).union(&other.diff(self));
        assert(r@ =~= self@.union(other@).difference(self@.intersect(other@)));
        r
    }

    /// Adds every value from `lo` to `hi`; nothing changes when `lo > hi`.
    pub fn add_pair(&mut self, lo: i32, hi: i32)
        requires
            old(self).wf(),
        ensures
            final(self).wf(),
            final(self)@ == old(self)@.union(span_set(lo as int, hi as int)),
    {
        let mut v: Vec<(i32, i32)> = Vec::new();
        if lo <= hi {
            v.push((lo, hi));
        }
        let one = IntSpan { ranges: v };
        assert(one@ =~= span_set(lo as int, hi as int)) by {
            if lo <= hi {
                assert forall|x: int| lo <= x <= hi implies #[trigger] covers(one.ranges@, x) by {
                    assert(in_span(one.ranges@[0], x));
                }
            }
        }
        *self = self.union(&one);
    }

    /// Adds the value `n`.
    pub fn add_n(&mut self, n: i32)
        requires
            old(self).wf(),
        ensures
            final(self).wf(),
            final(self)@ == old(self)@.insert(n as int),
    {
        self.add_pair(n, n);
        assert(final(self)@ =~= old(self)@.insert(n as int)) by {
            assert(span_set(n as int, n as int) =~= set![n as int]);
        }
    }

    /// Adds every value of `values`, in any order and with repeats.
    pub fn add_vec(&mut self, values: Vec<i32>)
        requires
            old(self).wf(),
        ensures
            final(self).wf(),
            final(self)@ == old(self)@.union(values@.map_values(|v: i32| v as int).to_set()),
    {
        let ghost start = self@;
        let mut i: usize = 0;
        while i < values.len()
            invariant
                0 <= i <= values@.len(),
                self.wf(),
                self@ == start.union(values@.take(i as int).map_values(|v: i32| v as int).to_set()),
            decreases values@.len() - i,
        {
            self.add_n(values[i]);
            assert(values@.take(i + 1).map_values(|v: i32| v as int) =~= values@.take(i as int).map_values(|v: i32| v as int).push(values@[i as int] as int));
            assert(self@ =~= start.union(values@.take(i + 1).map_values(|v: i32| v as int).to_set())) by {
                let t = values@.take(i as int).map_values(|v: i32| v as int);
                t.lemma_push_to_set_commute(values@[i as int] as int);
            }
            i = i + 1;
        }
        assert(values@.take(i as int) =~= values@);
    }

    /// Whether the set holds no value.
    pub fn is_empty(&self) -> (r: bool)
        requires
            self.wf(),
        ensures
            r == (self@ == Set::<int>::empty()),
            r == (self.spans().len() == 0),
    {
        if self.ranges.len() == 0 {
            assert(self@ =~= Set::<int>::empty());
            true
        } else {
            assert(self@.contains(self.ranges@[0].0 as int)) by {
                assert(in_span(self.ranges@[0], self.ranges@[0].0 as int));
            }
            false
        }
    }

    /// The number of spans.
    pub fn span_size(&self) -> (r: usize)
        ensures
            r == self.spans().len(),
    {
        self.ranges.len()
    }

    /// The number of spans (their edges come in pairs).
    pub fn edge_size(&self) -> (r: usize)
        ensures
            r == self.spans().len(),
    {
        self.ranges.len()
    }

    /// The spans as `(lo, hi)` pairs, ascending.
    pub fn ranges(&self) -> (r: Vec<(i32, i32)>)
        ensures
            r@ == self.spans(),
    {
        let mut r: Vec<(i32, i32)> = Vec::new();
        let mut i: usize = 0;
        while i < self.ranges.len()
            invariant
                0 <= i <= self.ranges@.len(),
                r@ == self.ranges@.take(i as int),
            decreases self.ranges@.len() - i,
        {
            r.push(self.ranges[i]);
            assert(r@ =~= self.ranges@.take(i + 1));
            i = i + 1;
        }
        assert(r@ =~= self.ranges@);
        r
    }

    /// Whether the set holds `n`, by binary search over the spans.
    pub fn contains(&self, n: i32) -> (r: bool)
        requires
            self.wf(),
        ensures
            r == self@.contains(n as int),
    {
        let a = &self.ranges;
        let mut lo: usize = 0;
        let mut hi: usize = a.len();
        while lo < hi
            invariant
                a@ == self.ranges@,
                wf_spans(a@),
                0 <= lo <= hi <= a@.len(),
                forall|k: int| 0 <= k < lo ==> (#[trigger] a@[k]).1 < n,
                forall|k: int| hi <= k < a@.len() ==> (#[trigger] a@[k]).0 > n,
            decreases hi - lo,
        {
            let mid = lo + (hi - lo) / 2;
            if a[mid].1 < n {
                assert forall|k: int| 0 <= k < mid + 1 implies (#[trigger] a@[k]).1 < n by {
                    if k < mid {
                        assert(a@[k].1 + 1 < a@[mid as int].0);
                    }
                }
                lo = mid + 1;
            } else if a[mid].0 > n {
                assert forall|k: int| mid <= k < a@.len() implies (#[trigger] a@[k]).0 > n by {
                    if k > mid {
                        assert(a@[mid as int].1 + 1 < a@[k].0);
                    }
                }
                hi = mid;
            } else {
                assert(in_span(a@[mid as int], n as int));
                assert(covers(a@, n as int));
                return true;
            }
        }
        assert(!covers(a@, n as int));
        false
    }

    /// The number of values in the set.
    pub fn cardinality(&self) -> (r: i64)
        requires
            self.wf(),
        ensures
            r == card_of(self.spans()),
            0 <= r <= 0x1_0000_0000,
    {
        let a = &self.ranges;
        let mut sum: i64 = 0;
        let mut i: usize = 0;
        while i < a.len()
            invariant
                wf_spans(a@),
                0 <= i <= a@.len(),
                sum == card_of(a@.take(i as int)),
            decreases a@.len() - i,
        {
            proof {
                let t = a@.take(i + 1);
                assert(t.drop_last() =~= a@.take(i as int));
                assert(wf_spans(t));
                lemma_card_bound(t);
            }
            sum = sum + (a[i].1 as i64 - a[i].0 as i64 + 1);
            i = i + 1;
        }
        assert(a@.take(i as int) =~= a@);
        proof {
            lemma_card_bound(a@);
        }
        sum
    }

    /// The least value of the set, if any.
    pub fn min(&self) -> (r: Option<i32>)
        requires
            self.wf(),
        ensures
            r is None <==> self@ == Set::<int>::empty(),
            r matches Some(m) ==> self@.contains(m as int) && forall|x: int| #[trigger] self@.contains(x) ==> m <= x,
    {
        if self.is_empty() {
            None
        } else {
            let m = self.ranges[0].0;
            assert(in_span(self.ranges@[0], m as int));
            assert forall|x: int| #[trigger] self@.contains(x) implies m <= x by {
                let i = choose|i: int| 0 <= i < self.ranges@.len() && #[trigger] in_span(self.ranges@[i], x);
                if i > 0 {
                    assert(self.ranges@[0].1 + 1 < self.ranges@[i].0);
                }
            }
            Some(m)
        }
    }

    /// The greatest value of the set, if any.
    pub fn max(&self) -> (r: Option<i32>)
        requires
            self.wf(),
        ensures
            r is None <==> self@ == Set::<int>::empty(),
            r matches Some(m) ==> self@.contains(m as int) && forall|x: int| #[trigger] self@.contains(x) ==> x <= m,
    {
        if self.is_empty() {
            None
        } else {
            let last = self.ranges.len() - 1;
            let m = self.ranges[last].1;
            assert(in_span(self.ranges@[last as int], m as int));
            assert forall|x: int| #[trigger] self@.contains(x) implies x <= m by {
                let i = choose|i: int| 0 <= i < self.ranges@.len() && #[trigger] in_span(self.ranges@[i], x);
                if i < last {
                    assert(self.ranges@[i].1 + 1 < self.ranges@[last as int].0);
                }
            }
            Some(m)
        }
    }

    /// The one span from the least to the greatest value; empty for the empty set.
    pub fn cover(&self) -> (r: IntSpan)
        requires
            self.wf(),
        ensures
            r.wf(),
            self@ == Set::<int>::empty() ==> r@ == Set::<int>::empty(),
            self@ != Set::<int>::empty() ==> r@ == span_set(
                self.spans()[0].0 as int,
                self.spans().last().1 as int,
            ),
    {
        let mut r = IntSpan::new();
        if !self.is_empty() {
            let last = self.ranges.len() - 1;
            r.add_pair(self.ranges[0].0, self.ranges[last].1);
            assert(r@ =~= span_set(self.spans()[0].0 as int, self.spans().last().1 as int));
        }
        r
    }

    /// Whether widening every span by `d` keeps each surviving span inside `i32`.
    pub fn grow_fits(&self, d: i64) -> (r: bool)
        ensures
            r == fits_grown(self.spans(), d as int),
    {
        let a = &self.ranges;
        let mut i: usize = 0;
        while i < a.len()
            invariant
                a@ == self.ranges@,
                0 <= i <= a@.len(),
                forall|k: int| 0 <= k < i ==> #[trigger] a@[k].0 - d <= a@[k].1 + d ==> i32::MIN <= a@[k].0 - d && a@[k].1 + d <= i32::MAX,
            decreases a@.len() - i,
        {
            let lo = a[i].0 as i128 - d as i128;
            let hi = a[i].1 as i128 + d as i128;
            if lo <= hi && (lo < i32::MIN as i128 || hi > i32::MAX as i128) {
                assert(!(i32::MIN <= a@[i as int].0 - d && a@[i as int].1 + d <= i32::MAX));
                assert(!fits_grown(a@, d as int));
                return false;
            }
            i = i + 1;
        }
        true
    }

    fn resize(&self, d: i64) -> (r: IntSpan)
        requires
            self.wf(),
            -0x8000_0000 <= d <= 0x8000_0000,
            fits_grown(self.spans(), d as int),
        ensures
            r.wf(),
            r@ == grown_set(self.spans(), d as int),
    {
        let a = &self.ranges;
        let mut out: Vec<(i32, i32)> = Vec::new();
        let mut i: usize = 0;
        while i < a.len()
            invariant
                wf_spans(a@),
                -0x8000_0000 <= d <= 0x8000_0000,
                fits_grown(a@, d as int),
                wf_spans(out@),
                0 <= i <= a@.len(),
                out@.len() > 0 && i < a@.len() ==> out@.last().0 <= a@[i as int].0 - d,
                forall|x: int| #[trigger] covers(out@, x) <==> exists|k: int| 0 <= k < i && #[trigger] in_grown(a@[k], d as int, x),
            decreases a@.len() - i,
        {
            let lo = a[i].0 as i64 - d;
            let hi = a[i].1 as i64 + d;
            let ghost pre = out@;
            if lo <= hi {
                push_merge(&mut out, lo as i32, hi as i32);
            }
            proof {
                if i + 1 < a@.len() {
                    assert(a@[i as int].1 + 1 < a@[i + 1].0);
                }
                assert forall|x: int| #[trigger] covers(out@, x) <==> exists|k: int| 0 <= k < i + 1 && #[trigger] in_grown(a@[k], d as int, x) by {
                    if exists|k: int| 0 <= k < i + 1 && #[trigger] in_grown(a@[k], d as int, x) {
                        let k = choose|k: int| 0 <= k < i + 1 && #[trigger] in_grown(a@[k], d as int, x);
                        if k < i {
                            assert(exists|k: int| 0 <= k < i && #[trigger] in_grown(a@[k], d as int, x));
                        }
                    }
                    if covers(pre, x) {
                        let k = choose|k: int| 0 <= k < i && #[trigger] in_grown(a@[k], d as int, x);
                        assert(0 <= k < i + 1 && in_grown(a@[k], d as int, x));
                    }
                    if lo <= x <= hi {
                        assert(in_grown(a@[i as int], d as int, x));
                    }
                }
            }
            i = i + 1;
        }
        let r = IntSpan { ranges: out };
        assert(r@ =~= grown_set(self.spans(), d as int));
        r
    }

    /// Widens every span by `n` at both ends and merges what then touches;
    /// a negative `n` narrows instead, as `trim(-n)` does.
    pub fn pad(&self, n: i32) -> (r: IntSpan)
        requires
            self.wf(),
            fits_grown(self.spans(), n as int),
        ensures
            r.wf(),
            r@ == grown_set(self.spans(), n as int),
    {
        self.resize(n as i64)
    }

    /// Narrows every span by `n` at both ends; spans of fewer than `2n + 1`
    /// values vanish.
    pub fn trim(&self, n: i32) -> (r: IntSpan)
        requires
            self.wf(),
            fits_grown(self.spans(), -n),
        ensures
            r.wf(),
            r@ == grown_set(self.spans(), -n),
    {
        self.resize(-(n as i64))
    }

    /// Fills every hole between two spans that holds at most `n` values.
    pub fn fill(&self, n: i32) -> (r: IntSpan)
        requires
            self.wf(),
        ensures
            r.wf(),
            r@ == filled_set(self.spans(), n as int),
    {
        let a = &self.ranges;
        let mut gaps: Vec<(i32, i32)> = Vec::new();
        let mut i: usize = 0;
        while a.len() > 0 && i < a.len() - 1
            invariant
                wf_spans(a@),
                wf_spans(gaps@),
                0 <= i,
                a@.len() == 0 ==> i == 0,
                a@.len() > 0 ==> i < a@.len(),
                gaps@.len() > 0 ==> gaps@.last().0 <= a@[i as int].1 + 1,
                forall|x: int| #[trigger] covers(gaps@, x) <==> exists|k: int| 0 <= k < i && #[trigger] in_small_gap(a@, k, n as int, x),
            decreases a@.len() - i,
        {
            let glo = a[i].1 as i64 + 1;
            let ghi = a[i + 1].0 as i64 - 1;
            assert(a@[i as int].1 + 1 < a@[i + 1].0);
            assert(a@[i + 1].0 <= a@[i + 1].1);
            let ghost pre = gaps@;
            if ghi - glo + 1 <= n as i64 {
                push_merge(&mut gaps, glo as i32, ghi as i32);
            }
            proof {
                assert forall|x: int| #[trigger] covers(gaps@, x) <==> exists|k: int| 0 <= k < i + 1 && #[trigger] in_small_gap(a@, k, n as int, x) by {
                    if exists|k: int| 0 <= k < i + 1 && #[trigger] in_small_gap(a@, k, n as int, x) {
                        let k = choose|k: int| 0 <= k < i + 1 && #[trigger] in_small_gap(a@, k, n as int, x);
                        if k < i {
                            assert(exists|k: int| 0 <= k < i && #[trigger] in_small_gap(a@, k, n as int, x));
                        }
                    }
                    if covers(pre, x) {
                        let k = choose|k: int| 0 <= k < i && #[trigger] in_small_gap(a@, k, n as int, x);
                        assert(0 <= k < i + 1 && in_small_gap(a@, k, n as int, x));
                    }
                    if glo <= x <= ghi && ghi - glo + 1 <= n {
                        assert(in_small_gap(a@, i as int, n as int, x));
                    }
                }
            }
            i = i + 1;
        }
        let g = IntSpan { ranges: gaps };
        let r = self.union(&g);
        assert forall|x: int| #[trigger] r@.contains(x) <==> filled_set(self.spans(), n as int).contains(x) by {
            assert(g@.contains(x) <==> covers(g.ranges@, x));
        }
        assert(r@ =~= filled_set(self.spans(), n as int));
        r
    }

    /// Drops every span that holds fewer than `n` values.
    pub fn excise(&self, n: i32) -> (r: IntSpan)
        requires
            self.wf(),
        ensures
            r.wf(),
            r@ == long_spans_set(self.spans(), n as int),
    {
        let a = &self.ranges;
        let mut out: Vec<(i32, i32)> = Vec::new();
        let mut i: usize = 0;
        while i < a.len()
            invariant
                wf_spans(a@),
                wf_spans(out@),
                0 <= i <= a@.len(),
                out@.len() > 0 && i < a@.len() ==> out@.last().0 <= a@[i as int].0,
                forall|x: int| #[trigger] covers(out@, x) <==> exists|k: int| 0 <= k < i && #[trigger] in_span(a@[k], x) && a@[k].1 - a@[k].0 + 1 >= n,
            decreases a@.len() - i,
        {
            let ghost pre = out@;
            if a[i].1 as i64 - a[i].0 as i64 + 1 >= n as i64 {
                push_merge(&mut out, a[i].0, a[i].1);
            }
            proof {
                if i + 1 < a@.len() {
                    assert(a@[i as int].1 + 1 < a@[i + 1].0);
                }
                assert forall|x: int| #[trigger] covers(out@, x) <==> exists|k: int| 0 <= k < i + 1 && #[trigger] in_span(a@[k], x) && a@[k].1 - a@[k].0 + 1 >= n by {
                    if exists|k: int| 0 <= k < i + 1 && #[trigger] in_span(a@[k], x) && a@[k].1 - a@[k].0 + 1 >= n {
                        let k = choose|k: int| 0 <= k < i + 1 && #[trigger] in_span(a@[k], x) && a@[k].1 - a@[k].0 + 1 >= n;
                        if k < i {
                            assert(exists|k: int| 0 <= k < i && #[trigger] in_span(a@[k], x) && a@[k].1 - a@[k].0 + 1 >= n);
                        }
                    }
                    if covers(pre, x) {
                        let k = choose|k: int| 0 <= k < i && #[trigger] in_span(a@[k], x) && a@[k].1 - a@[k].0 + 1 >= n;
                        assert(0 <= k < i + 1 && in_span(a@[k], x));
                    }
                    if in_span(a@[i as int], x) && a@[i as int].1 - a@[i as int].0 + 1 >= n {
                        assert(0 <= i < i + 1);
                    }
                }
            }
            i = i + 1;
        }
        let r = IntSpan { ranges: out };
        assert(r@ =~= long_spans_set(self.spans(), n as int));
        r
    }
}

} // verus!
