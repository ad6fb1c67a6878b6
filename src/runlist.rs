//! The run-list text form of an `IntSpan`: comma-separated spans, each `N` or
//! `LO-HI`, and `-` for the empty set.
use vstd::prelude::*;
use crate::intspan::{IntSpan, span_set};
use crate::error::SpanError;
use vstd::std_specs::iter::IteratorSpec;

verus! {

/// The character of decimal digit `d`.
pub open spec fn digit_char(d: int) -> char {
    if d == 0 { '0' } else if d == 1 { '1' } else if d == 2 { '2' } else if d == 3 { '3' }
    else if d == 4 { '4' } else if d == 5 { '5' } else if d == 6 { '6' } else if d == 7 { '7' }
    else if d == 8 { '8' } else { '9' }
}

/// Whether `c` is a decimal digit.
pub open spec fn is_digit(c: char) -> bool {
    '0' <= c && c <= '9'
}

/// The value of the decimal digit `c`.
pub open spec fn digit_value(c: char) -> int {
    c as int - '0' as int
}

/// The decimal digits of `n`, without leading zeros.
pub open spec fn digits_of(n: nat) -> Seq<char>
    decreases n,
{
    if n < 10 {
        seq![digit_char(n as int)]
    } else {
        digits_of(n / 10).push(digit_char((n % 10) as int))
    }
}

/// `n` in decimal, with a leading `-` when negative.
pub open spec fn int_text(n: int) -> Seq<char> {
    if n < 0 {
        seq!['-'] + digits_of((-n) as nat)
    } else {
        digits_of(n as nat)
    }
}

/// One span as text: `N` for a single value, `LO-HI` otherwise.
pub open spec fn span_text(p: (i32, i32)) -> Seq<char> {
    if p.0 == p.1 {
        int_text(p.0 as int)
    } else {
        int_text(p.0 as int) + seq!['-'] + int_text(p.1 as int)
    }
}

/// The spans of `r` as text, joined by commas.
pub open spec fn join_spans(r: Seq<(i32, i32)>) -> Seq<char>
    decreases r.len(),
{
    if r.len() <= 1 {
        if r.len() == 0 { seq![] } else { span_text(r[0]) }
    } else {
        join_spans(r.drop_last()) + seq![','] + span_text(r.last())
    }
}

/// The run-list text of the spans `r`; `-` when there are none.
pub open spec fn runlist_text(r: Seq<(i32, i32)>) -> Seq<char> {
    if r.len() == 0 {
        seq!['-']
    } else {
        join_spans(r)
    }
}

/// Whether `c` is white space that run-list text ignores.
pub open spec fn is_space(c: char) -> bool {
    c == ' ' || c == '\t' || c == '\n' || c == '\r'
}

/// `s` without its white space.
pub open spec fn strip_space(s: Seq<char>) -> Seq<char>
    decreases s.len(),
{
    if s.len() == 0 {
        s
    } else if is_space(s.last()) {
        strip_space(s.drop_last())
    } else {
        strip_space(s.drop_last()).push(s.last())
    }
}

/// The pieces of `s` between the separators `sep`; always at least one piece.
pub open spec fn split_on(s: Seq<char>, sep: char) -> Seq<Seq<char>>
    decreases s.len(),
{
    if s.len() == 0 {
        seq![Seq::<char>::empty()]
    } else {
        let p = split_on(s.drop_last(), sep);
        if s.last() == sep {
            p.push(Seq::<char>::empty())
        } else {
            p.update(p.len() - 1, p.last().push(s.last()))
        }
    }
}

/// A non-empty run of decimal digits.
pub open spec fn is_number(s: Seq<char>) -> bool {
    s.len() > 0 && forall|i: int| 0 <= i < s.len() ==> is_digit(#[trigger] s[i])
}

/// The value of the decimal digits `s`.
pub open spec fn number_value(s: Seq<char>) -> int
    decreases s.len(),
{
    if s.len() == 0 {
        0
    } else {
        number_value(s.drop_last()) * 10 + digit_value(s.last())
    }
}

/// The position of the first `c` in `s`, or `-1`.
pub open spec fn first_index(s: Seq<char>, c: char) -> int
    decreases s.len(),
{
    if s.len() == 0 {
        -1
    } else {
        let k = first_index(s.drop_last(), c);
        if k >= 0 {
            k
        } else if s.last() == c {
            s.len() - 1
        } else {
            -1
        }
    }
}

/// Whether `s` is a decimal integer: digits, after an optional leading `-`.
pub open spec fn is_int(s: Seq<char>) -> bool {
    if s.len() > 0 && s[0] == '-' {
        is_number(s.subrange(1, s.len() as int))
    } else {
        is_number(s)
    }
}

/// The value of the decimal integer `s`.
pub open spec fn int_value(s: Seq<char>) -> int {
    if s.len() > 0 && s[0] == '-' {
        -number_value(s.subrange(1, s.len() as int))
    } else {
        number_value(s)
    }
}

/// The position of the `-` between the two bounds of a token: the first `-`
/// after the first character (which may be the sign of the lower bound),
/// or `-1`.
pub open spec fn range_dash(t: Seq<char>) -> int {
    if t.len() == 0 {
        -1
    } else {
        let k = first_index(t.subrange(1, t.len() as int), '-');
        if k < 0 { -1 } else { k + 1 }
    }
}

/// The span that one token `N` or `LO-HI` denotes, if it is well formed;
/// each bound may carry a leading `-`.
pub open spec fn token_span(t: Seq<char>) -> Option<(int, int)> {
    let k = range_dash(t);
    if k < 0 {
        if is_int(t) {
            Some((int_value(t), int_value(t)))
        } else {
            None
        }
    } else {
        let a = t.subrange(0, k);
        let b = t.subrange(k + 1, t.len() as int);
        if is_int(a) && is_int(b) {
            Some((int_value(a), int_value(b)))
        } else {
            None
        }
    }
}

/// A token is accepted when it is well formed, ascending and fits in `i32`.
pub open spec fn token_ok(t: Seq<char>) -> bool {
    token_span(t) matches Some(p) && p.0 <= p.1 && i32::MIN <= p.0 && p.1 <= i32::MAX
}

/// The run-list text `s` with its white space removed, as tokens; none for
/// the empty text and for `-`.
pub open spec fn tokens_of(s: Seq<char>) -> Seq<Seq<char>> {
    let t = strip_space(s);
    if t.len() == 0 || t == seq!['-'] {
        Seq::empty()
    } else {
        split_on(t, ',')
    }
}

/// Whether every token of `ts` is accepted.
pub open spec fn tokens_ok(ts: Seq<Seq<char>>) -> bool {
    forall|i: int| 0 <= i < ts.len() ==> token_ok(#[trigger] ts[i])
}

/// Whether the token `t` denotes a span that holds `x`.
pub open spec fn in_token(t: Seq<char>, x: int) -> bool {
    match token_span(t) {
        Some(p) => p.0 <= x && x <= p.1,
        None => false,
    }
}

/// The values that the tokens of `ts` denote.
pub open spec fn tokens_set(ts: Seq<Seq<char>>) -> Set<int> {
    Set::new(|x: int| exists|i: int| 0 <= i < ts.len() && #[trigger] in_token(ts[i], x))
}

/// No character of `s` is white space.
pub open spec fn no_space(s: Seq<char>) -> bool {
    forall|i: int| 0 <= i < s.len() ==> !is_space(#[trigger] s[i])
}

/// No character of `s` is `c`.
pub open spec fn lacks(s: Seq<char>, c: char) -> bool {
    forall|i: int| 0 <= i < s.len() ==> (#[trigger] s[i]) != c
}

proof fn lemma_digit_char(d: int)
    requires
        0 <= d < 10,
    ensures
        is_digit(digit_char(d)),
        digit_value(digit_char(d)) == d,
{
}

proof fn lemma_digits(n: nat)
    ensures
        is_number(digits_of(n)),
        number_value(digits_of(n)) == n,
    decreases n,
{
    let s = digits_of(n);
    if n < 10 {
        lemma_digit_char(n as int);
        assert(s.drop_last() =~= Seq::<char>::empty());
        assert(number_value(s) == number_value(s.drop_last()) * 10 + digit_value(s.last()));
    } else {
        lemma_digits(n / 10);
        lemma_digit_char((n % 10) as int);
        assert(s.drop_last() =~= digits_of(n / 10));
        assert(s.last() == digit_char((n % 10) as int));
        assert(number_value(s) == number_value(s.drop_last()) * 10 + digit_value(s.last()));
        assert(n == (n / 10) * 10 + n % 10);
        assert forall|i: int| 0 <= i < s.len() implies is_digit(#[trigger] s[i]) by {
            if i < s.len() - 1 {
                assert(s[i] == digits_of(n / 10)[i]);
            }
        }
    }
}

proof fn lemma_number_plain(s: Seq<char>)
    requires
        is_number(s),
    ensures
        no_space(s),
        lacks(s, ','),
        lacks(s, '-'),
{
    assert forall|i: int| 0 <= i < s.len() implies !is_space(#[trigger] s[i]) by {
        assert(is_digit(s[i]));
    }
    assert forall|i: int| 0 <= i < s.len() implies (#[trigger] s[i]) != ',' by {
        assert(is_digit(s[i]));
    }
    assert forall|i: int| 0 <= i < s.len() implies (#[trigger] s[i]) != '-' by {
        assert(is_digit(s[i]));
    }
}

proof fn lemma_first_index_at(s: Seq<char>, c: char, k: int)
    requires
        0 <= k < s.len(),
        s[k] == c,
        forall|j: int| 0 <= j < k ==> s[j] != c,
    ensures
        first_index(s, c) == k,
{
    lemma_first_index(s, c);
}

proof fn lemma_strip_plain(s: Seq<char>)
    requires
        no_space(s),
    ensures
        strip_space(s) == s,
    decreases s.len(),
{
    if s.len() > 0 {
        let p = s.drop_last();
        assert forall|i: int| 0 <= i < p.len() implies !is_space(#[trigger] p[i]) by {
            assert(p[i] == s[i]);
        }
        lemma_strip_plain(p);
        assert(!is_space(s[s.len() - 1]));
        assert(p.push(s.last()) =~= s);
    }
}

proof fn lemma_split_single(v: Seq<char>, sep: char)
    requires
        lacks(v, sep),
    ensures
        split_on(v, sep) == seq![v],
    decreases v.len(),
{
    if v.len() == 0 {
        assert(v =~= Seq::<char>::empty());
    } else {
        let p = v.drop_last();
        assert forall|i: int| 0 <= i < p.len() implies (#[trigger] p[i]) != sep by {
            assert(p[i] == v[i]);
        }
        lemma_split_single(p, sep);
        assert(v[v.len() - 1] != sep);
        assert(p.push(v.last()) =~= v);
        assert(split_on(v, sep) =~= seq![v]);
    }
}

proof fn lemma_split_append(u: Seq<char>, v: Seq<char>, sep: char)
    requires
        lacks(v, sep),
    ensures
        split_on(u + seq![sep] + v, sep) == split_on(u, sep).push(v),
    decreases v.len(),
{
    let s = u + seq![sep] + v;
    if v.len() == 0 {
        assert(s.drop_last() =~= u);
        assert(v =~= Seq::<char>::empty());
    } else {
        let p = v.drop_last();
        assert forall|i: int| 0 <= i < p.len() implies (#[trigger] p[i]) != sep by {
            assert(p[i] == v[i]);
        }
        lemma_split_append(u, p, sep);
        assert(s.drop_last() =~= u + seq![sep] + p);
        assert(v[v.len() - 1] != sep);
        assert(p.push(v.last()) =~= v);
        assert(split_on(s, sep) =~= split_on(u, sep).push(v));
    }
}

/// Every character of `s` is a digit or `-`.
pub open spec fn digits_or_dash(s: Seq<char>) -> bool {
    forall|i: int| 0 <= i < s.len() ==> is_digit(#[trigger] s[i]) || s[i] == '-'
}

proof fn lemma_digits_or_dash_plain(s: Seq<char>)
    requires
        digits_or_dash(s),
    ensures
        no_space(s),
        lacks(s, ','),
{
    assert forall|i: int| 0 <= i < s.len() implies !is_space(#[trigger] s[i]) by {
        assert(is_digit(s[i]) || s[i] == '-');
    }
    assert forall|i: int| 0 <= i < s.len() implies (#[trigger] s[i]) != ',' by {
        assert(is_digit(s[i]) || s[i] == '-');
    }
}

proof fn lemma_int_text(n: int)
    requires
        i32::MIN <= n <= i32::MAX,
    ensures
        is_int(int_text(n)),
        int_value(int_text(n)) == n,
        int_text(n).len() > 0,
        lacks(int_text(n).subrange(1, int_text(n).len() as int), '-'),
        digits_or_dash(int_text(n)),
        int_text(n).len() >= 2 || is_digit(int_text(n)[0]),
{
    let t = int_text(n);
    if n < 0 {
        let d = digits_of((-n) as nat);
        lemma_digits((-n) as nat);
        lemma_number_plain(d);
        assert(t == seq!['-'] + d);
        assert(t.subrange(1, t.len() as int) =~= d);
        assert forall|i: int| 0 <= i < t.len() implies is_digit(#[trigger] t[i]) || t[i] == '-' by {
            if i > 0 {
                assert(t[i] == d[i - 1]);
            }
        }
    } else {
        let d = digits_of(n as nat);
        lemma_digits(n as nat);
        lemma_number_plain(d);
        assert(t == d);
        assert(is_digit(t[0]));
        assert forall|i: int| 0 <= i < t.len() - 1 implies (#[trigger] t.subrange(1, t.len() as int)[i]) != '-' by {
            assert(t.subrange(1, t.len() as int)[i] == d[i + 1]);
        }
    }
}

proof fn lemma_span_text(p: (i32, i32))
    requires
        p.0 <= p.1,
    ensures
        token_span(span_text(p)) == Some((p.0 as int, p.1 as int)),
        token_ok(span_text(p)),
        no_space(span_text(p)),
        lacks(span_text(p), ','),
        span_text(p) != seq!['-'],
{
    let ta = int_text(p.0 as int);
    let tb = int_text(p.1 as int);
    lemma_int_text(p.0 as int);
    lemma_int_text(p.1 as int);
    let t = span_text(p);
    if p.0 == p.1 {
        assert(t == ta);
        let sub = t.subrange(1, t.len() as int);
        lemma_first_index(sub, '-');
        if first_index(sub, '-') >= 0 {
            assert(sub[first_index(sub, '-')] != '-');
        }
        assert(range_dash(t) == -1);
        lemma_digits_or_dash_plain(t);
        if t.len() == 1 {
            assert(t[0] != seq!['-'][0]);
        }
    } else {
        assert(t == ta + seq!['-'] + tb);
        let k = ta.len() as int;
        let sub = t.subrange(1, t.len() as int);
        assert(sub[k - 1] == '-');
        assert forall|j: int| 0 <= j < k - 1 implies sub[j] != '-' by {
            assert(sub[j] == ta.subrange(1, k)[j]);
        }
        lemma_first_index_at(sub, '-', k - 1);
        assert(range_dash(t) == k);
        assert(t.subrange(0, k) =~= ta);
        assert(t.subrange(k + 1, t.len() as int) =~= tb);
        assert forall|i: int| 0 <= i < t.len() implies is_digit(#[trigger] t[i]) || t[i] == '-' by {
            if i < k {
                assert(t[i] == ta[i]);
            } else if i > k {
                assert(t[i] == tb[i - k - 1]);
            }
        }
        lemma_digits_or_dash_plain(t);
    }
}

/// The text of canonical spans splits at its commas into the texts of the
/// spans, holds no white space, and is not the empty-set mark.
proof fn lemma_join_spans(r: Seq<(i32, i32)>)
    requires
        r.len() > 0,
        forall|i: int| 0 <= i < r.len() ==> (#[trigger] r[i]).0 <= r[i].1,
    ensures
        split_on(join_spans(r), ',') == r.map_values(|p: (i32, i32)| span_text(p)),
        no_space(join_spans(r)),
        join_spans(r) != seq!['-'],
    decreases r.len(),
{
    let m = r.map_values(|p: (i32, i32)| span_text(p));
    lemma_span_text(r[r.len() - 1]);
    if r.len() == 1 {
        lemma_span_text(r[0]);
        lemma_split_single(span_text(r[0]), ',');
        assert(m =~= seq![span_text(r[0])]);
    } else {
        let p = r.drop_last();
        assert forall|i: int| 0 <= i < p.len() implies (#[trigger] p[i]).0 <= p[i].1 by {
            assert(p[i] == r[i]);
        }
        lemma_join_spans(p);
        let u = join_spans(p);
        let v = span_text(r.last());
        lemma_split_append(u, v, ',');
        assert(m =~= p.map_values(|q: (i32, i32)| span_text(q)).push(v));
        let s = join_spans(r);
        assert(s == u + seq![','] + v);
        assert forall|i: int| 0 <= i < s.len() implies !is_space(#[trigger] s[i]) by {
            if i < u.len() {
                assert(s[i] == u[i]);
            } else if i > u.len() {
                assert(s[i] == v[i - u.len() - 1]);
            }
        }
        assert(s.len() != seq!['-'].len()) by {
            assert(u != seq!['-']);
            if u.len() == 0 {
                assert(u =~= Seq::<char>::empty());
            }
        }
    }
}

/// Reading the text of canonical spans succeeds and gives back the values
/// of those spans.
pub proof fn lemma_read_written(r: Seq<(i32, i32)>)
    requires
        crate::intspan::wf_spans(r),
    ensures
        tokens_ok(tokens_of(runlist_text(r))),
        tokens_set(tokens_of(runlist_text(r))) == crate::intspan::set_of(r),
{
    let text = runlist_text(r);
    if r.len() == 0 {
        assert(no_space(seq!['-']));
        lemma_strip_plain(seq!['-']);
        assert(tokens_of(text) =~= Seq::<Seq<char>>::empty());
        assert(tokens_set(Seq::<Seq<char>>::empty()) =~= crate::intspan::set_of(r));
    } else {
        lemma_join_spans(r);
        lemma_strip_plain(text);
        let ts = tokens_of(text);
        assert(ts == r.map_values(|p: (i32, i32)| span_text(p)));
        assert forall|i: int| 0 <= i < ts.len() implies token_ok(#[trigger] ts[i]) by {
            lemma_span_text(r[i]);
        }
        assert forall|x: int| #[trigger] tokens_set(ts).contains(x) <==> crate::intspan::set_of(r).contains(x) by {
            if tokens_set(ts).contains(x) {
                let i = choose|i: int| 0 <= i < ts.len() && #[trigger] in_token(ts[i], x);
                lemma_span_text(r[i]);
                assert(crate::intspan::in_span(r[i], x));
            }
            if crate::intspan::set_of(r).contains(x) {
                let i = choose|i: int| 0 <= i < r.len() && #[trigger] crate::intspan::in_span(r[i], x);
                lemma_span_text(r[i]);
                assert(in_token(ts[i], x));
            }
        }
        assert(tokens_set(ts) =~= crate::intspan::set_of(r));
    }
}

/// The characters of `s`, in order.
pub(crate) fn chars_of(s: &str) -> (r: Vec<char>)
    ensures
        r@ == s@,
{
    broadcast use vstd::string::group_string_axioms;
    let mut it = s.chars();
    let mut out: Vec<char> = Vec::new();
    loop
        invariant
            it.obeys_prophetic_iter_laws(),
            out@ + IteratorSpec::remaining(&it) == s@,
            IteratorSpec::decrease(&it) is Some,
        ensures
            out@ == s@,
        decreases IteratorSpec::decrease(&it)->0,
    {
        match it.next() {
            Some(c) => {
                out.push(c);
            },
            None => {
                assert(out@ =~= s@);
                break;
            },
        }
    }
    out
}

/// Relies on `FromIterator<&char>` for `String`: the string of the characters `v`, in order.
#[verifier::external_body]
pub(crate) fn string_of(v: &Vec<char>) -> (r: String)
    ensures
        r@ == v@,
{
    v.iter().collect()
}

pub(crate) proof fn lemma_first_index(s: Seq<char>, c: char)
    ensures
        -1 <= first_index(s, c) < s.len(),
        first_index(s, c) == -1 ==> forall|j: int| 0 <= j < s.len() ==> s[j] != c,
        first_index(s, c) >= 0 ==> s[first_index(s, c)] == c && forall|j: int|
            0 <= j < first_index(s, c) ==> s[j] != c,
    decreases s.len(),
{
    if s.len() > 0 {
        let p = s.drop_last();
        lemma_first_index(p, c);
        assert forall|j: int| 0 <= j < p.len() implies p[j] == s[j] by {}
    }
}

pub(crate) proof fn lemma_split_len(s: Seq<char>, sep: char)
    ensures
        split_on(s, sep).len() >= 1,
    decreases s.len(),
{
    if s.len() > 0 {
        lemma_split_len(s.drop_last(), sep);
    }
}

fn strip_chars(cs: &Vec<char>) -> (r: Vec<char>)
    ensures
        r@ == strip_space(cs@),
{
    let mut out: Vec<char> = Vec::new();
    let mut i: usize = 0;
    while i < cs.len()
        invariant
            0 <= i <= cs@.len(),
            out@ == strip_space(cs@.take(i as int)),
        decreases cs@.len() - i,
    {
        let c = cs[i];
        assert(cs@.take(i + 1).drop_last() =~= cs@.take(i as int));
        if !(c == ' ' || c == '\t' || c == '\n' || c == '\r') {
            out.push(c);
        }
        i = i + 1;
    }
    assert(cs@.take(i as int) =~= cs@);
    out
}

/// Reads the decimal number `t[from..to]`; `None` unless it is a non-empty
/// run of digits whose value is at most `2^31`.
fn parse_magnitude(t: &Vec<char>, from: usize, to: usize) -> (r: Option<i64>)
    requires
        from <= to <= t@.len(),
    ensures
        r is Some <==> is_number(t@.subrange(from as int, to as int)) && number_value(
            t@.subrange(from as int, to as int),
        ) <= 0x8000_0000,
        r matches Some(v) ==> v == number_value(t@.subrange(from as int, to as int)) && 0 <= v
            <= 0x8000_0000,
{
    let cap: i64 = 0x8000_0001;
    let mut v: i64 = 0;
    let mut k: usize = from;
    while k < to
        invariant
            from <= k <= to <= t@.len(),
            cap == 0x8000_0001,
            forall|j: int| from <= j < k ==> is_digit(#[trigger] t@[j]),
            number_value(t@.subrange(from as int, k as int)) >= 0,
            v == if number_value(t@.subrange(from as int, k as int)) < cap {
                number_value(t@.subrange(from as int, k as int))
            } else {
                cap as int
            },
        decreases to - k,
    {
        let c = t[k];
        if !('0' <= c && c <= '9') {
            assert(!is_number(t@.subrange(from as int, to as int))) by {
                assert(t@.subrange(from as int, to as int)[k - from] == c);
            }
            return None;
        }
        let d = (c as u32 - '0' as u32) as i64;
        assert(t@.subrange(from as int, k + 1).drop_last() =~= t@.subrange(from as int, k as int));
        let w = v * 10 + d;
        v = if w < cap { w } else { cap };
        k = k + 1;
    }
    if from == to || v > 0x8000_0000 {
        None
    } else {
        assert forall|j: int| 0 <= j < t@.subrange(from as int, to as int).len() implies is_digit(
            #[trigger] t@.subrange(from as int, to as int)[j],
        ) by {
            assert(t@.subrange(from as int, to as int)[j] == t@[from + j]);
        }
        Some(v)
    }
}

/// Reads the decimal number `t[from..to]`; `None` unless it is a non-empty
/// run of digits whose value fits in `i32`.
pub(crate) fn parse_number(t: &Vec<char>, from: usize, to: usize) -> (r: Option<i32>)
    requires
        from <= to <= t@.len(),
    ensures
        r is Some <==> is_number(t@.subrange(from as int, to as int)) && number_value(
            t@.subrange(from as int, to as int),
        ) <= i32::MAX,
        r matches Some(v) ==> v == number_value(t@.subrange(from as int, to as int)),
{
    match parse_magnitude(t, from, to) {
        Some(v) => if v <= i32::MAX as i64 { Some(v as i32) } else { None },
        None => None,
    }
}

/// Reads the decimal integer `t[from..to]`, with an optional leading `-`;
/// `None` unless it is well formed and fits in `i32`.
fn parse_int(t: &Vec<char>, from: usize, to: usize) -> (r: Option<i32>)
    requires
        from <= to <= t@.len(),
    ensures
        r is Some <==> is_int(t@.subrange(from as int, to as int)) && i32::MIN <= int_value(
            t@.subrange(from as int, to as int),
        ) <= i32::MAX,
        r matches Some(v) ==> v == int_value(t@.subrange(from as int, to as int)),
{
    let ghost s = t@.subrange(from as int, to as int);
    if from < to && t[from] == '-' {
        assert(s[0] == '-');
        assert(s.subrange(1, s.len() as int) =~= t@.subrange(from + 1, to as int));
        match parse_magnitude(t, from + 1, to) {
            Some(m) => Some((-m) as i32),
            None => None,
        }
    } else {
        if from < to {
            assert(s[0] == t@[from as int]);
        }
        match parse_magnitude(t, from, to) {
            Some(m) => if m <= i32::MAX as i64 { Some(m as i32) } else { None },
            None => None,
        }
    }
}

/// Reads one token, `N` or `LO-HI`.
pub(crate) fn parse_token(t: &Vec<char>) -> (r: Option<(i32, i32)>)
    ensures
        r is Some <==> token_ok(t@),
        r matches Some(p) ==> token_span(t@) == Some((p.0 as int, p.1 as int)),
{
    if t.len() == 0 {
        assert(t@.subrange(0, 0) =~= t@);
        return None;
    }
    let ghost sub = t@.subrange(1, t@.len() as int);
    proof {
        lemma_first_index(sub, '-');
    }
    let mut k: usize = 1;
    while k < t.len() && t[k] != '-'
        invariant
            1 <= k <= t@.len(),
            sub == t@.subrange(1, t@.len() as int),
            forall|j: int| 1 <= j < k ==> t@[j] != '-',
        decreases t@.len() - k,
    {
        k = k + 1;
    }
    if k == t.len() {
        proof {
            if first_index(sub, '-') >= 0 {
                assert(sub[first_index(sub, '-')] == t@[first_index(sub, '-') + 1]);
            }
        }
        assert(range_dash(t@) == -1);
        assert(t@.subrange(0, k as int) =~= t@);
        match parse_int(t, 0, k) {
            Some(v) => Some((v, v)),
            None => None,
        }
    } else {
        assert forall|j: int| 0 <= j < k - 1 implies sub[j] != '-' by {
            assert(sub[j] == t@[j + 1]);
        }
        assert(sub[k - 1] == t@[k as int]);
        proof {
            lemma_first_index_at(sub, '-', k - 1);
        }
        assert(range_dash(t@) == k);
        let a = parse_int(t, 0, k);
        let b = parse_int(t, k + 1, t.len());
        match (a, b) {
            (Some(lo), Some(hi)) => {
                if lo <= hi {
                    Some((lo, hi))
                } else {
                    None
                }
            },
            _ => None,
        }
    }
}

proof fn lemma_tokens_push(ts: Seq<Seq<char>>, e: Seq<char>)
    ensures
        tokens_ok(ts.push(e)) <==> tokens_ok(ts) && token_ok(e),
        forall|x: int| #[trigger] tokens_set(ts.push(e)).contains(x) <==> tokens_set(ts).contains(x) || in_token(e, x),
{
    let u = ts.push(e);
    assert(u[ts.len() as int] == e);
    if tokens_ok(ts) && token_ok(e) {
        assert forall|i: int| 0 <= i < u.len() implies token_ok(#[trigger] u[i]) by {
            if i < ts.len() {
                assert(u[i] == ts[i]);
            }
        }
    }
    if tokens_ok(u) {
        assert forall|i: int| 0 <= i < ts.len() implies token_ok(#[trigger] ts[i]) by {
            assert(u[i] == ts[i]);
        }
    }
    assert forall|x: int| #[trigger] tokens_set(u).contains(x) <==> tokens_set(ts).contains(x) || in_token(e, x) by {
        if tokens_set(u).contains(x) {
            let i = choose|i: int| 0 <= i < u.len() && #[trigger] in_token(u[i], x);
            if i < ts.len() {
                assert(u[i] == ts[i]);
            }
        }
        if tokens_set(ts).contains(x) {
            let i = choose|i: int| 0 <= i < ts.len() && #[trigger] in_token(ts[i], x);
            assert(u[i] == ts[i]);
        }
    }
}

impl IntSpan {
    /// Reads run-list text such as `1-5,9,12`: white space is ignored, and
    /// the empty text or `-` is the empty set.
    pub fn from_runlist(text: &str) -> (r: Result<IntSpan, SpanError>)
        ensures
            r is Ok <==> tokens_ok(tokens_of(text@)),
            r matches Ok(s) ==> s.wf() && s@ == tokens_set(tokens_of(text@)),
            r matches Err(e) ==> e == SpanError::ParseError,
    {
        let cs = chars_of(text);
        let st = strip_chars(&cs);
        let mut set = IntSpan::new();
        if st.len() == 0 || (st.len() == 1 && st[0] == '-') {
            proof {
                if st@.len() == 1 {
                    assert(st@ =~= seq!['-']);
                }
            }
            assert(tokens_set(Seq::<Seq<char>>::empty()) =~= Set::<int>::empty());
            return Ok(set);
        }
        proof {
            assert(st@ != seq!['-']) by {
                if st@.len() == 1 {
                    assert(st@[0] != seq!['-'][0]);
                }
            }
        }
        let mut ok = true;
        let mut cur: Vec<char> = Vec::new();
        let mut i: usize = 0;
        assert(st@.take(0) =~= Seq::<char>::empty());
        assert(split_on(st@.take(0), ',').drop_last() =~= Seq::<Seq<char>>::empty());
        assert(tokens_set(Seq::<Seq<char>>::empty()) =~= Set::<int>::empty());
        while i < st.len()
            invariant
                0 <= i <= st@.len(),
                set.wf(),
                split_on(st@.take(i as int), ',').len() >= 1,
                split_on(st@.take(i as int), ',').last() == cur@,
                ok == tokens_ok(split_on(st@.take(i as int), ',').drop_last()),
                ok ==> set@ == tokens_set(split_on(st@.take(i as int), ',').drop_last()),
            decreases st@.len() - i,
        {
            let c = st[i];
            let ghost ts = split_on(st@.take(i as int), ',');
            proof {
                lemma_split_len(st@.take(i as int), ',');
            }
            assert(st@.take(i + 1).drop_last() =~= st@.take(i as int));
            if c == ',' {
                let tok = parse_token(&cur);
                proof {
                    assert(split_on(st@.take(i + 1), ',').drop_last() =~= ts);
                    assert(ts =~= ts.drop_last().push(cur@));
                    lemma_tokens_push(ts.drop_last(), cur@);
                }
                match tok {
                    Some(p) => {
                        if ok {
                            set.add_pair(p.0, p.1);
                            assert(set@ =~= tokens_set(ts));
                        }
                    },
                    None => {
                        ok = false;
                    },
                }
                cur = Vec::new();
            } else {
                cur.push(c);
                assert(split_on(st@.take(i + 1), ',').drop_last() =~= ts.drop_last());
            }
            i = i + 1;
        }
        assert(st@.take(i as int) =~= st@);
        let ghost ts = split_on(st@, ',');
        let tok = parse_token(&cur);
        proof {
            lemma_split_len(st@, ',');
            assert(ts =~= ts.drop_last().push(cur@));
            lemma_tokens_push(ts.drop_last(), cur@);
        }
        match tok {
            Some(p) => {
                if ok {
                    set.add_pair(p.0, p.1);
                    assert(set@ =~= tokens_set(ts));
                    Ok(set)
                } else {
                    Err(SpanError::ParseError)
                }
            },
            None => Err(SpanError::ParseError),
        }
    }
}

fn digit_to_char(d: u32) -> (c: char)
    requires
        d < 10,
    ensures
        c == digit_char(d as int),
{
    if d == 0 { '0' } else if d == 1 { '1' } else if d == 2 { '2' } else if d == 3 { '3' }
    else if d == 4 { '4' } else if d == 5 { '5' } else if d == 6 { '6' } else if d == 7 { '7' }
    else if d == 8 { '8' } else { '9' }
}

fn push_digits(out: &mut Vec<char>, n: u32)
    ensures
        final(out)@ == old(out)@ + digits_of(n as nat),
    decreases n,
{
    if n >= 10 {
        push_digits(out, n / 10);
    }
    out.push(digit_to_char(n % 10));
    assert(final(out)@ =~= old(out)@ + digits_of(n as nat));
}

fn push_int(out: &mut Vec<char>, n: i32)
    ensures
        final(out)@ == old(out)@ + int_text(n as int),
{
    if n < 0 {
        out.push('-');
        let m: u32 = (-(n as i64)) as u32;
        push_digits(out, m);
        assert(final(out)@ =~= old(out)@ + int_text(n as int));
    } else {
        push_digits(out, n as u32);
    }
}

fn push_span(out: &mut Vec<char>, lo: i32, hi: i32)
    ensures
        final(out)@ == old(out)@ + span_text((lo, hi)),
{
    push_int(out, lo);
    if lo != hi {
        out.push('-');
        push_int(out, hi);
    }
    assert(final(out)@ =~= old(out)@ + span_text((lo, hi)));
}

impl IntSpan {
    /// The run-list text of the set.
    pub fn to_string(&self) -> (r: String)
        ensures
            r@ == runlist_text(self.spans()),
    {
        let spans = self.ranges();
        let mut out: Vec<char> = Vec::new();
        if spans.len() == 0 {
            out.push('-');
            assert(out@ =~= runlist_text(self.spans()));
            return string_of(&out);
        }
        push_span(&mut out, spans[0].0, spans[0].1);
        assert(spans@.take(1).drop_last() =~= Seq::<(i32, i32)>::empty());
        assert(out@ =~= join_spans(spans@.take(1)));
        let mut i: usize = 1;
        while i < spans.len()
            invariant
                1 <= i <= spans@.len(),
                out@ == join_spans(spans@.take(i as int)),
            decreases spans@.len() - i,
        {
            out.push(',');
            push_span(&mut out, spans[i].0, spans[i].1);
            assert(spans@.take(i + 1).drop_last() =~= spans@.take(i as int));
            assert(out@ =~= join_spans(spans@.take(i + 1)));
            i = i + 1;
        }
        assert(spans@.take(i as int) =~= spans@);
        string_of(&out)
    }
}

} // verus!
