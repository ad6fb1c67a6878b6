//! The operator families of the commands, and the commands that apply them
//! to named sets.
use vstd::prelude::*;
use crate::error::SpanError;
use crate::intspan::{IntSpan, span_set, grown_set, filled_set, long_spans_set, fits_grown};
use crate::keymap::{KeyMap, map_of, keys_unique, lemma_map_of_index, lemma_map_of_keys};
use crate::runlist::chars_of;
use crate::setmap::{NamedSets, sets_wf};

verus! {

/// Whether the text `s` is exactly `lit`.
fn text_is(s: &str, lit: &str) -> (r: bool)
    ensures
        r == (s@ == lit@),
{
    let a = chars_of(s);
    let b = chars_of(lit);
    if a.len() != b.len() {
        return false;
    }
    let mut i: usize = 0;
    while i < a.len()
        invariant
            a@ == s@,
            b@ == lit@,
            a@.len() == b@.len(),
            0 <= i <= a@.len(),
            forall|j: int| 0 <= j < i ==> a@[j] == b@[j],
        decreases a@.len() - i,
    {
        if a[i] != b[i] {
            assert(a@[i as int] != b@[i as int]);
            return false;
        }
        i = i + 1;
    }
    assert(a@ =~= b@);
    true
}

/// A binary set operator.
#[derive(Debug, Clone, Copy, PartialEq, Eq, Structural)]
pub enum SetOp {
    Union,
    Intersect,
    Diff,
    Xor,
}

/// What `op` makes of the sets `a` and `b`.
pub open spec fn set_op_result(op: SetOp, a: Set<int>, b: Set<int>) -> Set<int> {
    match op {
        SetOp::Union => a.union(b),
        SetOp::Intersect => a.intersect(b),
        SetOp::Diff => a.difference(b),
        SetOp::Xor => a.union(b).difference(a.intersect(b)),
    }
}

impl SetOp {
    /// Reads `union`, `intersect`, `diff` or `xor`.
    pub fn from_name(s: &str) -> (r: Result<SetOp, SpanError>)
        ensures
            (r == Ok::<SetOp, SpanError>(SetOp::Union)) <==> s@ == "union"@,
            (r == Ok::<SetOp, SpanError>(SetOp::Intersect)) <==> s@ == "intersect"@,
            (r == Ok::<SetOp, SpanError>(SetOp::Diff)) <==> s@ == "diff"@,
            (r == Ok::<SetOp, SpanError>(SetOp::Xor)) <==> s@ == "xor"@,
            r is Err ==> r == Err::<SetOp, SpanError>(SpanError::InvalidOperator),
    {
        proof {
            reveal_strlit("union");
            reveal_strlit("intersect");
            reveal_strlit("diff");
            reveal_strlit("xor");
            assert("union"@[0] == 'u');
            assert("intersect"@[0] == 'i');
            assert("diff"@[0] == 'd');
            assert("xor"@[0] == 'x');
        }
        if text_is(s, "union") {
            Ok(SetOp::Union)
        } else if text_is(s, "intersect") {
            Ok(SetOp::Intersect)
        } else if text_is(s, "diff") {
            Ok(SetOp::Diff)
        } else if text_is(s, "xor") {
            Ok(SetOp::Xor)
        } else {
            Err(SpanError::InvalidOperator)
        }
    }

    /// Applies the operator to two sets.
    pub fn apply(&self, a: &IntSpan, b: &IntSpan) -> (r: IntSpan)
        requires
            a.wf(),
            b.wf(),
        ensures
            r.wf(),
            r@ == set_op_result(*self, a@, b@),
    {
        match self {
            SetOp::Union => a.union(b),
            SetOp::Intersect => a.intersect(b),
            SetOp::Diff => a.diff(b),
            SetOp::Xor => a.xor(b),
        }
    }
}

/// An operator that reshapes the spans of one set by a distance.
#[derive(Debug, Clone, Copy, PartialEq, Eq, Structural)]
pub enum SpanOp {
    Cover,
    Fill,
    Trim,
    Pad,
    Excise,
}

/// What `op` with distance `n` makes of the set `s`.
pub open spec fn span_op_result(op: SpanOp, n: int, s: IntSpan) -> Set<int> {
    match op {
        SpanOp::Cover => if s.spans().len() == 0 {
            Set::<int>::empty()
        } else {
            span_set(s.spans()[0].0 as int, s.spans().last().1 as int)
        },
        SpanOp::Fill => filled_set(s.spans(), n),
        SpanOp::Trim => grown_set(s.spans(), -n),
        SpanOp::Pad => grown_set(s.spans(), n),
        SpanOp::Excise => long_spans_set(s.spans(), n),
    }
}

/// Whether `op` with distance `n` keeps every value of the result inside `i32`.
pub open spec fn span_op_fits(op: SpanOp, n: int, s: IntSpan) -> bool {
    match op {
        SpanOp::Trim => fits_grown(s.spans(), -n),
        SpanOp::Pad => fits_grown(s.spans(), n),
        _ => true,
    }
}

impl SpanOp {
    /// Reads `cover`, `fill`, `trim`, `pad` or `excise`.
    pub fn from_name(s: &str) -> (r: Result<SpanOp, SpanError>)
        ensures
            (r == Ok::<SpanOp, SpanError>(SpanOp::Cover)) <==> s@ == "cover"@,
            (r == Ok::<SpanOp, SpanError>(SpanOp::Fill)) <==> s@ == "fill"@,
            (r == Ok::<SpanOp, SpanError>(SpanOp::Trim)) <==> s@ == "trim"@,
            (r == Ok::<SpanOp, SpanError>(SpanOp::Pad)) <==> s@ == "pad"@,
            (r == Ok::<SpanOp, SpanError>(SpanOp::Excise)) <==> s@ == "excise"@,
            r is Err ==> r == Err::<SpanOp, SpanError>(SpanError::InvalidOperator),
    {
        proof {
            reveal_strlit("cover");
            reveal_strlit("fill");
            reveal_strlit("trim");
            reveal_strlit("pad");
            reveal_strlit("excise");
            assert("cover"@[0] == 'c');
            assert("fill"@[0] == 'f');
            assert("trim"@[0] == 't');
            assert("pad"@[0] == 'p');
            assert("excise"@[0] == 'e');
        }
        if text_is(s, "cover") {
            Ok(SpanOp::Cover)
        } else if text_is(s, "fill") {
            Ok(SpanOp::Fill)
        } else if text_is(s, "trim") {
            Ok(SpanOp::Trim)
        } else if text_is(s, "pad") {
            Ok(SpanOp::Pad)
        } else if text_is(s, "excise") {
            Ok(SpanOp::Excise)
        } else {
            Err(SpanError::InvalidOperator)
        }
    }

    /// Applies the operator with distance `n` to one set; `OutOfRange` when
    /// widening would leave `i32`.
    pub fn apply(&self, n: i32, s: &IntSpan) -> (r: Result<IntSpan, SpanError>)
        requires
            s.wf(),
        ensures
            r is Ok <==> span_op_fits(*self, n as int, *s),
            r matches Ok(t) ==> t.wf() && t@ == span_op_result(*self, n as int, *s),
            r is Err ==> r == Err::<IntSpan, SpanError>(SpanError::OutOfRange),
    {
        match self {
            SpanOp::Cover => {
                let t = s.cover();
                proof {
                    s.lemma_view();
                    s.lemma_wf();
                    if s.spans().len() == 0 {
                        assert(s@ =~= Set::<int>::empty());
                    } else {
                        assert(s@.contains(s.spans()[0].0 as int)) by {
                            assert(crate::intspan::in_span(s.spans()[0], s.spans()[0].0 as int));
                        }
                    }
                }
                Ok(t)
            },
            SpanOp::Fill => Ok(s.fill(n)),
            SpanOp::Excise => Ok(s.excise(n)),
            SpanOp::Trim => {
                if s.grow_fits(-(n as i64)) {
                    Ok(s.trim(n))
                } else {
                    Err(SpanError::OutOfRange)
                }
            },
            SpanOp::Pad => {
                if s.grow_fits(n as i64) {
                    Ok(s.pad(n))
                } else {
                    Err(SpanError::OutOfRange)
                }
            },
        }
    }
}

/// A relation between a query span and a set.
#[derive(Debug, Clone, Copy, PartialEq, Eq, Structural)]
pub enum RangeOp {
    Overlap,
    NonOverlap,
    Superset,
}

impl RangeOp {
    /// Reads `overlap`, `non-overlap` or `superset`.
    pub fn from_name(s: &str) -> (r: Result<RangeOp, SpanError>)
        ensures
            (r == Ok::<RangeOp, SpanError>(RangeOp::Overlap)) <==> s@ == "overlap"@,
            (r == Ok::<RangeOp, SpanError>(RangeOp::NonOverlap)) <==> s@ == "non-overlap"@,
            (r == Ok::<RangeOp, SpanError>(RangeOp::Superset)) <==> s@ == "superset"@,
            r is Err ==> r == Err::<RangeOp, SpanError>(SpanError::InvalidOperator),
    {
        proof {
            reveal_strlit("overlap");
            reveal_strlit("non-overlap");
            reveal_strlit("superset");
            assert("overlap"@[0] == 'o');
            assert("non-overlap"@[0] == 'n');
            assert("superset"@[0] == 's');
        }
        if text_is(s, "overlap") {
            Ok(RangeOp::Overlap)
        } else if text_is(s, "non-overlap") {
            Ok(RangeOp::NonOverlap)
        } else if text_is(s, "superset") {
            Ok(RangeOp::Superset)
        } else {
            Err(SpanError::InvalidOperator)
        }
    }
}

} // verus!
