//! Depth of coverage over raw, possibly overlapping ranges, and the filter of
//! query ranges against named sets.
use vstd::prelude::*;
use crate::intspan::{IntSpan, span_set};
use crate::keymap::{KeyMap, map_of, keys_unique, lemma_map_of_index, lemma_map_of_keys};
use crate::ops::RangeOp;
use crate::setmap::{NamedSets, sets_wf};
use crate::error::SpanError;
use crate::runlist::{first_index, token_ok, token_span, chars_of, string_of, parse_token, lemma_first_index};

verus! {

/// How many of the ranges `rs` hold `x`.
pub open spec fn depth(rs: Seq<(i32, i32)>, x: int) -> int
    decreases rs.len(),
{
    if rs.len() == 0 {
        0
    } else {
        depth(rs.drop_last(), x) + if rs.last().0 <= x && x <= rs.last().1 {
            1int
        } else {
            0int
        }
    }
}

/// The values that at least `c` of the ranges `rs` hold.
pub open spec fn covered_set(rs: Seq<(i32, i32)>, c: int) -> Set<int> {
    Set::new(|x: int| depth(rs, x) >= c)
}

/// The ranges of the records of key `k`, in order.
pub open spec fn ranges_of_key(recs: Seq<(String, i32, i32)>, k: Seq<char>) -> Seq<(i32, i32)>
    decreases recs.len(),
{
    if recs.len() == 0 {
        Seq::empty()
    } else {
        let p = ranges_of_key(recs.drop_last(), k);
        if recs.last().0@ == k {
            p.push((recs.last().1, recs.last().2))
        } else {
            p
        }
    }
}

/// Whether some record of `recs` has key `k`.
pub open spec fn has_record(recs: Seq<(String, i32, i32)>, k: Seq<char>) -> bool {
    exists|i: int| 0 <= i < recs.len() && (#[trigger] recs[i]).0@ == k
}

proof fn lemma_depth_nonneg(rs: Seq<(i32, i32)>, x: int)
    ensures
        depth(rs, x) >= 0,
    decreases rs.len(),
{
    if rs.len() > 0 {
        lemma_depth_nonneg(rs.drop_last(), x);
    }
}

/// The values that at least `c` of the ranges hold; a range with `lo > hi`
/// holds nothing.
pub fn cover_depth(ranges: &Vec<(i32, i32)>, c: usize) -> (r: IntSpan)
    requires
        c >= 1,
    ensures
        r.wf(),
        r@ == covered_set(ranges@, c as int),
{
    let mut layers: Vec<IntSpan> = Vec::new();
    let mut t: usize = 0;
    assert(ranges@.take(0) =~= Seq::<(i32, i32)>::empty());
    while t < c
        invariant
            0 <= t <= c,
            layers@.len() == t,
            forall|k: int| 0 <= k < t ==> (#[trigger] layers@[k]).wf() && layers@[k]@ == covered_set(ranges@.take(0), k + 1),
        decreases c - t,
    {
        let e = IntSpan::new();
        assert(e@ =~= covered_set(ranges@.take(0), t + 1));
        layers.push(e);
        t = t + 1;
    }
    let mut i: usize = 0;
    while i < ranges.len()
        invariant
            c >= 1,
            0 <= i <= ranges@.len(),
            layers@.len() == c,
            forall|k: int| 0 <= k < c ==> (#[trigger] layers@[k]).wf() && layers@[k]@ == covered_set(ranges@.take(i as int), k + 1),
        decreases ranges@.len() - i,
    {
        let lo = ranges[i].0;
        let hi = ranges[i].1;
        let mut q = IntSpan::new();
        q.add_pair(lo, hi);
        let ghost before = layers@;
        let ghost rs0 = ranges@.take(i as int);
        let ghost rs1 = ranges@.take(i + 1);
        proof {
            assert(rs1.drop_last() =~= rs0);
        }
        let mut k: usize = c - 1;
        while k > 0
            invariant
                c >= 1,
                0 <= k < c,
                layers@.len() == c,
                q.wf(),
                q@ == span_set(lo as int, hi as int),
                rs1.drop_last() == rs0,
                rs1.last() == (lo, hi),
                rs1.len() > 0,
                forall|t: int| 0 <= t <= k ==> (#[trigger] layers@[t]) == before[t],
                forall|t: int| 0 <= t < c ==> (#[trigger] before[t]).wf() && before[t]@ == covered_set(rs0, t + 1),
                forall|t: int| k < t < c ==> (#[trigger] layers@[t]).wf() && layers@[t]@ == covered_set(rs1, t + 1),
            decreases k,
        {
            let lower = layers[k - 1].intersect(&q);
            let next = layers[k].union(&lower);
            proof {
                assert(next@ =~= covered_set(rs1, k + 1)) by {
                    assert forall|x: int| #[trigger] next@.contains(x) <==> covered_set(rs1, k + 1).contains(x) by {
                        assert(depth(rs1, x) == depth(rs0, x) + if lo <= x && x <= hi { 1int } else { 0int });
                    }
                }
            }
            layers.set(k, next);
            k = k - 1;
        }
        let first = layers[0].union(&q);
        proof {
            assert(first@ =~= covered_set(rs1, 1)) by {
                assert forall|x: int| #[trigger] first@.contains(x) <==> covered_set(rs1, 1).contains(x) by {
                    lemma_depth_nonneg(rs0, x);
                    assert(depth(rs1, x) == depth(rs0, x) + if lo <= x && x <= hi { 1int } else { 0int });
                }
            }
        }
        layers.set(0, first);
        i = i + 1;
    }
    assert(ranges@.take(i as int) =~= ranges@);
    let r = layers.remove(c - 1);
    r
}

/// For each key of the records, the values that at least `c` of its ranges hold.
pub fn cover_records(recs: &Vec<(String, i32, i32)>, c: usize) -> (r: NamedSets)
    requires
        c >= 1,
    ensures
        r.wf(),
        sets_wf(r@),
        forall|k: Seq<char>| #[trigger] r@.contains_key(k) <==> has_record(recs@, k),
        forall|k: Seq<char>| #[trigger] r@.contains_key(k) ==> r@[k]@ == covered_set(ranges_of_key(recs@, k), c as int),
{
    let mut r: NamedSets = KeyMap::new();
    let mut i: usize = 0;
    while i < recs.len()
        invariant
            c >= 1,
            0 <= i <= recs@.len(),
            r.wf(),
            sets_wf(r@),
            forall|k: Seq<char>| #[trigger] r@.contains_key(k) <==> has_record(recs@.take(i as int), k),
            forall|k: Seq<char>| #[trigger] r@.contains_key(k) ==> r@[k]@ == covered_set(ranges_of_key(recs@, k), c as int),
        decreases recs@.len() - i,
    {
        let key = &recs[i].0;
        let ghost kv = key@;
        if !r.contains_key(key.as_str()) {
            let mut rs: Vec<(i32, i32)> = Vec::new();
            let mut j: usize = 0;
            assert(recs@.take(0) =~= Seq::<(String, i32, i32)>::empty());
            while j < recs.len()
                invariant
                    0 <= j <= recs@.len(),
                    kv == key@,
                    rs@ == ranges_of_key(recs@.take(j as int), kv),
                decreases recs@.len() - j,
            {
                assert(recs@.take(j + 1).drop_last() =~= recs@.take(j as int));
                if recs[j].0 == *key {
                    rs.push((recs[j].1, recs[j].2));
                }
                j = j + 1;
            }
            assert(recs@.take(j as int) =~= recs@);
            let s = cover_depth(&rs, c);
            r.insert(key.clone(), s);
        }
        proof {
            assert forall|k: Seq<char>| #[trigger] r@.contains_key(k) <==> has_record(recs@.take(i + 1), k) by {
                let t0 = recs@.take(i as int);
                let t1 = recs@.take(i + 1);
                if has_record(t1, k) {
                    let j = choose|j: int| 0 <= j < t1.len() && (#[trigger] t1[j]).0@ == k;
                    if j < i {
                        assert(t0[j] == t1[j]);
                    }
                }
                if has_record(t0, k) {
                    let j = choose|j: int| 0 <= j < t0.len() && (#[trigger] t0[j]).0@ == k;
                    assert(t0[j] == t1[j]);
                }
                if k == kv {
                    assert(t1[i as int].0@ == k);
                }
            }
        }
        i = i + 1;
    }
    assert(recs@.take(i as int) =~= recs@);
    r
}

/// Whether the query record `q` passes `op` against the sets `m`.
pub open spec fn range_keeps(op: RangeOp, m: Map<Seq<char>, IntSpan>, q: (String, i32, i32)) -> bool {
    let overlaps = m.contains_key(q.0@) && span_set(q.1 as int, q.2 as int).intersect(m[q.0@]@) != Set::<int>::empty();
    match op {
        RangeOp::Overlap => overlaps,
        RangeOp::NonOverlap => !overlaps,
        RangeOp::Superset => m.contains_key(q.0@) && span_set(q.1 as int, q.2 as int).subset_of(m[q.0@]@),
    }
}

/// The query records that pass `op`, in order.
pub open spec fn kept_records(op: RangeOp, m: Map<Seq<char>, IntSpan>, recs: Seq<(String, i32, i32)>) -> Seq<(String, i32, i32)>
    decreases recs.len(),
{
    if recs.len() == 0 {
        Seq::empty()
    } else {
        let p = kept_records(op, m, recs.drop_last());
        if range_keeps(op, m, recs.last()) {
            p.push(recs.last())
        } else {
            p
        }
    }
}

/// Keeps the query records that overlap, miss, or lie wholly inside the set
/// of their key, as `op` says.
pub fn range_filter(op: RangeOp, m: &NamedSets, recs: &Vec<(String, i32, i32)>) -> (r: Vec<(String, i32, i32)>)
    requires
        m.wf(),
        sets_wf(m@),
    ensures
        r@ == kept_records(op, m@, recs@),
{
    let mut out: Vec<(String, i32, i32)> = Vec::new();
    let mut i: usize = 0;
    assert(recs@.take(0) =~= Seq::<(String, i32, i32)>::empty());
    while i < recs.len()
        invariant
            m.wf(),
            sets_wf(m@),
            0 <= i <= recs@.len(),
            out@ == kept_records(op, m@, recs@.take(i as int)),
        decreases recs@.len() - i,
    {
        let rec = &recs[i];
        let mut q = IntSpan::new();
        q.add_pair(rec.1, rec.2);
        assert(q@ =~= span_set(rec.1 as int, rec.2 as int));
        let keep = match m.get(rec.0.as_str()) {
            None => {
                match op {
                    RangeOp::NonOverlap => true,
                    _ => false,
                }
            },
            Some(s) => {
                let overlaps = !q.intersect(s).is_empty();
                let inside = q.diff(s).is_empty();
                proof {
                    if !inside {
                        let d = q@.difference(s@);
                        assert(d != Set::<int>::empty());
                        assert(exists|x: int| d.contains(x)) by {
                            if !(exists|x: int| d.contains(x)) {
                                assert(d =~= Set::<int>::empty());
                            }
                        }
                        let x = choose|x: int| d.contains(x);
                        assert(!q@.subset_of(s@)) by {
                            assert(q@.contains(x) && !s@.contains(x));
                        }
                    } else {
                        assert(q@.subset_of(s@)) by {
                            assert forall|x: int| q@.contains(x) implies s@.contains(x) by {
                                assert(!q@.difference(s@).contains(x));
                            }
                        }
                    }
                }
                match op {
                    RangeOp::Overlap => overlaps,
                    RangeOp::NonOverlap => !overlaps,
                    RangeOp::Superset => inside,
                }
            },
        };
        assert(keep == range_keeps(op, m@, *rec));
        proof {
            assert(recs@.take(i + 1).drop_last() =~= recs@.take(i as int));
            assert(recs@.take(i + 1).last() == *rec);
        }
        if keep {
            let k = rec.0.clone();
            out.push((k, rec.1, rec.2));
        }
        i = i + 1;
    }
    assert(recs@.take(i as int) =~= recs@);
    out
}

/// Whether `h` ends in a strand mark `(+)` or `(-)`.
pub open spec fn has_strand(h: Seq<char>) -> bool {
    h.len() >= 3 && h[h.len() - 3] == '(' && (h[h.len() - 2] == '+' || h[h.len() - 2] == '-')
        && h[h.len() - 1] == ')'
}

/// The key named by the head of a range record: a leading `name.` and a
/// trailing strand mark are dropped.
pub open spec fn range_key(head: Seq<char>) -> Seq<char> {
    let h = if has_strand(head) { head.subrange(0, head.len() - 3) } else { head };
    let d = first_index(h, '.');
    if d >= 0 { h.subrange(d + 1, h.len() as int) } else { h }
}

/// What a range record `head:N` or `head:LO-HI` denotes, if it is well formed.
pub open spec fn range_record(s: Seq<char>) -> Option<(Seq<char>, (int, int))> {
    let c = first_index(s, ':');
    if c < 0 {
        None
    } else {
        let body = s.subrange(c + 1, s.len() as int);
        if token_ok(body) {
            Some((range_key(s.subrange(0, c)), token_span(body)->Some_0))
        } else {
            None
        }
    }
}

fn copy_chars(v: &Vec<char>, from: usize, to: usize) -> (r: Vec<char>)
    requires
        from <= to <= v@.len(),
    ensures
        r@ == v@.subrange(from as int, to as int),
{
    let mut r: Vec<char> = Vec::new();
    let mut k: usize = from;
    while k < to
        invariant
            from <= k <= to <= v@.len(),
            r@ == v@.subrange(from as int, k as int),
        decreases to - k,
    {
        r.push(v[k]);
        assert(r@ =~= v@.subrange(from as int, k + 1));
        k = k + 1;
    }
    r
}

fn find_char(v: &Vec<char>, c: char) -> (r: usize)
    ensures
        r <= v@.len(),
        r == v@.len() <==> first_index(v@, c) < 0,
        r < v@.len() ==> r == first_index(v@, c),
{
    proof {
        lemma_first_index(v@, c);
    }
    let mut k: usize = 0;
    while k < v.len() && v[k] != c
        invariant
            0 <= k <= v@.len(),
            forall|j: int| 0 <= j < k ==> v@[j] != c,
        decreases v@.len() - k,
    {
        k = k + 1;
    }
    k
}

/// Reads a range record such as `S288c.I(+):1-100` or `II:327069-327703`
/// into its key and bounds.
pub fn parse_range(text: &str) -> (r: Result<(String, i32, i32), SpanError>)
    ensures
        r is Ok <==> range_record(text@) is Some,
        r matches Ok(t) ==> range_record(text@) == Some((t.0@, (t.1 as int, t.2 as int))),
        r is Err ==> r == Err::<(String, i32, i32), SpanError>(SpanError::ParseError),
{
    let cs = chars_of(text);
    let c = find_char(&cs, ':');
    if c == cs.len() {
        return Err(SpanError::ParseError);
    }
    let body = copy_chars(&cs, c + 1, cs.len());
    let span = match parse_token(&body) {
        Some(p) => p,
        None => {
            return Err(SpanError::ParseError);
        },
    };
    let head = copy_chars(&cs, 0, c);
    let hl = head.len();
    let strand = hl >= 3 && head[hl - 3] == '(' && (head[hl - 2] == '+' || head[hl - 2] == '-') && head[hl - 1] == ')';
    let h = if strand { copy_chars(&head, 0, hl - 3) } else { copy_chars(&head, 0, hl) };
    proof {
        assert(head@.subrange(0, hl as int) =~= head@);
    }
    let d = find_char(&h, '.');
    let key = if d < h.len() { copy_chars(&h, d + 1, h.len()) } else { copy_chars(&h, 0, h.len()) };
    proof {
        assert(h@.subrange(0, h@.len() as int) =~= h@);
    }
    Ok((string_of(&key), span.0, span.1))
}

} // verus!
