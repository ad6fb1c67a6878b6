//! Line-oriented text: splitting into lines, the size table of
//! `key<TAB>length` records, and joining lines back.
use vstd::prelude::*;
use crate::error::SpanError;
use crate::keymap::KeyMap;
use crate::runlist::{split_on, is_number, number_value, chars_of, string_of, parse_number, lemma_split_len};

verus! {

/// `l` without one trailing carriage return.
pub open spec fn strip_cr(l: Seq<char>) -> Seq<char> {
    if l.len() > 0 && l.last() == '\r' {
        l.drop_last()
    } else {
        l
    }
}

/// The pieces of `s` between newlines, without a trailing empty piece.
pub open spec fn raw_lines(s: Seq<char>) -> Seq<Seq<char>> {
    let p = split_on(s, '\n');
    if p.last().len() == 0 {
        p.drop_last()
    } else {
        p
    }
}

/// The lines of `s`: split at newlines, a final newline ends the last line,
/// and a carriage return before a newline is dropped.
pub open spec fn lines_of(s: Seq<char>) -> Seq<Seq<char>> {
    raw_lines(s).map_values(|l: Seq<char>| strip_cr(l))
}

/// The lines `ls`, each followed by a newline.
pub open spec fn joined_lines(ls: Seq<Seq<char>>) -> Seq<char>
    decreases ls.len(),
{
    if ls.len() == 0 {
        Seq::empty()
    } else {
        joined_lines(ls.drop_last()) + ls.last() + seq!['\n']
    }
}

/// The tab-separated fields of a size-table line.
pub open spec fn fields_of(l: Seq<char>) -> Seq<Seq<char>> {
    split_on(l, '\t')
}

/// Every line but a blank one is a record; blank lines are skipped.
pub open spec fn is_record(l: Seq<char>) -> bool {
    l.len() > 0
}

/// A record is accepted when it is `key<TAB>length`: exactly two fields, the
/// length a decimal number that fits `i32`.
pub open spec fn record_ok(l: Seq<char>) -> bool {
    is_record(l) ==> fields_of(l).len() == 2 && is_number(fields_of(l)[1]) && number_value(
        fields_of(l)[1],
    ) <= i32::MAX
}

/// Whether every record among `ls` is accepted.
pub open spec fn records_ok(ls: Seq<Seq<char>>) -> bool {
    forall|i: int| 0 <= i < ls.len() ==> record_ok(#[trigger] ls[i])
}

/// The table that the records among `ls` make; a later record of a key wins.
pub open spec fn sizes_of(ls: Seq<Seq<char>>) -> Map<Seq<char>, i32>
    decreases ls.len(),
{
    if ls.len() == 0 {
        Map::empty()
    } else {
        let m = sizes_of(ls.drop_last());
        let l = ls.last();
        if is_record(l) {
            m.insert(fields_of(l)[0], number_value(fields_of(l)[1]) as i32)
        } else {
            m
        }
    }
}

/// Splits `cs` at every `sep`.
fn split_chars(cs: &Vec<char>, sep: char) -> (r: Vec<Vec<char>>)
    ensures
        r@.len() == split_on(cs@, sep).len(),
        forall|j: int| 0 <= j < r@.len() ==> (#[trigger] r@[j])@ == split_on(cs@, sep)[j],
{
    let mut out: Vec<Vec<char>> = Vec::new();
    let mut cur: Vec<char> = Vec::new();
    let mut i: usize = 0;
    proof {
        assert(cs@.take(0) =~= Seq::<char>::empty());
    }
    while i < cs.len()
        invariant
            0 <= i <= cs@.len(),
            out@.len() + 1 == split_on(cs@.take(i as int), sep).len(),
            forall|j: int| 0 <= j < out@.len() ==> (#[trigger] out@[j])@ == split_on(cs@.take(i as int), sep)[j],
            cur@ == split_on(cs@.take(i as int), sep).last(),
        decreases cs@.len() - i,
    {
        let c = cs[i];
        proof {
            lemma_split_len(cs@.take(i as int), sep);
            assert(cs@.take(i + 1).drop_last() =~= cs@.take(i as int));
        }
        if c == sep {
            out.push(cur);
            cur = Vec::new();
        } else {
            cur.push(c);
        }
        i = i + 1;
    }
    assert(cs@.take(i as int) =~= cs@);
    out.push(cur);
    out
}

/// The lines of `text`, as `str::lines` yields them.
pub fn read_lines(text: &str) -> (r: Vec<String>)
    ensures
        r@.len() == lines_of(text@).len(),
        forall|j: int| 0 <= j < r@.len() ==> (#[trigger] r@[j])@ == lines_of(text@)[j],
{
    let cs = chars_of(text);
    let parts = split_chars(&cs, '\n');
    proof {
        lemma_split_len(cs@, '\n');
    }
    let mut n = parts.len();
    if parts[n - 1].len() == 0 {
        n = n - 1;
    }
    let mut out: Vec<String> = Vec::new();
    let mut i: usize = 0;
    while i < n
        invariant
            n <= parts@.len(),
            n == raw_lines(cs@).len(),
            parts@.len() == split_on(cs@, '\n').len(),
            forall|j: int| 0 <= j < parts@.len() ==> (#[trigger] parts@[j])@ == split_on(cs@, '\n')[j],
            0 <= i <= n,
            out@.len() == i,
            forall|j: int| 0 <= j < i ==> (#[trigger] out@[j])@ == lines_of(cs@)[j],
        decreases n - i,
    {
        let part = &parts[i];
        let mut line: Vec<char> = Vec::new();
        let mut k: usize = 0;
        let len = part.len();
        let keep = if len > 0 && part[len - 1] == '\r' { len - 1 } else { len };
        while k < keep
            invariant
                keep <= part@.len(),
                0 <= k <= keep,
                line@ == part@.take(k as int),
            decreases keep - k,
        {
            line.push(part[k]);
            assert(line@ =~= part@.take(k + 1));
            k = k + 1;
        }
        proof {
            assert(raw_lines(cs@)[i as int] == split_on(cs@, '\n')[i as int]);
            assert(line@ =~= strip_cr(part@));
        }
        out.push(string_of(&line));
        i = i + 1;
    }
    out
}

/// Reads a size table of `key<TAB>length` lines; blank lines are skipped, a
/// later line of a key wins, and any other line is a `ParseError`.
pub fn read_sizes(text: &str) -> (r: Result<KeyMap<i32>, SpanError>)
    ensures
        r is Ok <==> records_ok(lines_of(text@)),
        r matches Ok(m) ==> m.wf() && m@ == sizes_of(lines_of(text@)),
        r is Err ==> r == Err::<KeyMap<i32>, SpanError>(SpanError::ParseError),
{
    let lines = read_lines(text);
    let ghost ls = lines_of(text@);
    let mut m: KeyMap<i32> = KeyMap::new();
    let mut i: usize = 0;
    while i < lines.len()
        invariant
            ls == lines_of(text@),
            lines@.len() == ls.len(),
            forall|j: int| 0 <= j < lines@.len() ==> (#[trigger] lines@[j])@ == ls[j],
            0 <= i <= ls.len(),
            m.wf(),
            records_ok(ls.take(i as int)),
            m@ == sizes_of(ls.take(i as int)),
        decreases ls.len() - i,
    {
        let cs = chars_of(lines[i].as_str());
        let fields = split_chars(&cs, '\t');
        let ghost l = ls[i as int];
        proof {
            assert(ls.take(i + 1).drop_last() =~= ls.take(i as int));
            assert(ls.take(i + 1).last() == l);
        }
        if cs.len() > 0 {
            if fields.len() != 2 {
                proof {
                    assert(!record_ok(ls[i as int]));
                }
                return Err(SpanError::ParseError);
            }
            let f1 = &fields[1];
            match parse_number(f1, 0, f1.len()) {
                Some(v) => {
                    proof {
                        assert(f1@.subrange(0, f1@.len() as int) =~= f1@);
                    }
                    m.insert(string_of(&fields[0]), v);
                },
                None => {
                    proof {
                        assert(f1@.subrange(0, f1@.len() as int) =~= f1@);
                        assert(!record_ok(ls[i as int]));
                    }
                    return Err(SpanError::ParseError);
                },
            }
        }
        proof {
            assert forall|j: int| 0 <= j < i + 1 implies record_ok(#[trigger] ls.take(i + 1)[j]) by {
                if j < i {
                    assert(ls.take(i + 1)[j] == ls.take(i as int)[j]);
                }
            }
        }
        i = i + 1;
    }
    assert(ls.take(i as int) =~= ls);
    Ok(m)
}

/// The text of `lines`, each followed by a newline.
pub fn write_lines(lines: &Vec<&str>) -> (r: String)
    ensures
        r@ == joined_lines(lines@.map_values(|l: &str| l@)),
{
    let mut out: Vec<char> = Vec::new();
    let mut i: usize = 0;
    while i < lines.len()
        invariant
            0 <= i <= lines@.len(),
            out@ == joined_lines(lines@.take(i as int).map_values(|l: &str| l@)),
        decreases lines@.len() - i,
    {
        let mut cs = chars_of(lines[i]);
        out.append(&mut cs);
        out.push('\n');
        proof {
            let t = lines@.take(i + 1).map_values(|l: &str| l@);
            assert(t.drop_last() =~= lines@.take(i as int).map_values(|l: &str| l@));
        }
        i = i + 1;
    }
    assert(lines@.take(i as int) =~= lines@);
    string_of(&out)
}

} // verus!
