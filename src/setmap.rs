//! Named sets: one `IntSpan` per key (a chromosome), and groups of such maps
//! (one per species or sample).
use vstd::prelude::*;
use crate::error::SpanError;
use crate::intspan::IntSpan;
use crate::keymap::{KeyMap, map_of, keys_unique, lemma_map_of_index, lemma_map_of_keys};
use crate::runlist::{runlist_text, tokens_ok, tokens_of, tokens_set};

verus! {

/// One set per key.
pub type NamedSets = KeyMap<IntSpan>;

/// One map of named sets per group.
pub type GroupedSets = KeyMap<KeyMap<IntSpan>>;

/// Every set of `m` is canonical.
pub open spec fn sets_wf(m: Map<Seq<char>, IntSpan>) -> bool {
    forall|k: Seq<char>| #[trigger] m.contains_key(k) ==> m[k].wf()
}

/// Every inner map of `g` is well formed and holds canonical sets.
pub open spec fn groups_wf(g: Map<Seq<char>, KeyMap<IntSpan>>) -> bool {
    forall|k: Seq<char>| #[trigger] g.contains_key(k) ==> g[k].wf() && sets_wf(g[k]@)
}

/// Every run-list of `m` is accepted.
pub open spec fn runlists_ok(m: Map<Seq<char>, String>) -> bool {
    forall|k: Seq<char>| #[trigger] m.contains_key(k) ==> tokens_ok(tokens_of(m[k]@))
}

/// `r` holds, under the keys of `m`, the sets that its run-lists denote.
pub open spec fn parsed_from(m: Map<Seq<char>, String>, r: Map<Seq<char>, IntSpan>) -> bool {
    &&& r.dom() == m.dom()
    &&& forall|k: Seq<char>| #[trigger] r.contains_key(k) ==> r[k].wf() && r[k]@ == tokens_set(tokens_of(m[k]@))
}

/// `after` is `before` with an empty set added for each key of `universe` it lacked.
pub open spec fn filled_from(
    before: Map<Seq<char>, IntSpan>,
    universe: Set<Seq<char>>,
    after: Map<Seq<char>, IntSpan>,
) -> bool {
    &&& forall|k: Seq<char>| #[trigger] after.contains_key(k) <==> before.contains_key(k) || universe.contains(k)
    &&& forall|k: Seq<char>| #[trigger] before.contains_key(k) ==> after[k] == before[k]
    &&& forall|k: Seq<char>|
        !before.contains_key(k) && #[trigger] universe.contains(k) ==> after[k].wf() && after[k]@ == Set::<int>::empty()
}

/// Reads the run-list of every key.
pub fn runlist2set(runlist_of: &KeyMap<String>) -> (r: Result<NamedSets, SpanError>)
    requires
        runlist_of.wf(),
    ensures
        r is Ok <==> runlists_ok(runlist_of@),
        r matches Ok(m) ==> m.wf() && parsed_from(runlist_of@, m@),
        r matches Err(e) ==> e == SpanError::ParseError,
{
    let ghost e = runlist_of.entries();
    proof {
        runlist_of.lemma_view();
    }
    let mut m: NamedSets = KeyMap::new();
    let mut i: usize = 0;
    let n = runlist_of.len();
    while i < n
        invariant
            n == e.len(),
            e == runlist_of.entries(),
            runlist_of@ == map_of(e),
            runlist_of.wf(),
            keys_unique(e),
            0 <= i <= n,
            m.wf(),
            forall|k: Seq<char>| #[trigger] m@.contains_key(k) <==> exists|j: int| 0 <= j < i && (#[trigger] e[j]).0@ == k,
            forall|k: Seq<char>| #[trigger] m@.contains_key(k) ==> m@[k].wf() && m@[k]@ == tokens_set(tokens_of(runlist_of@[k]@)),
            forall|j: int| 0 <= j < i ==> tokens_ok(tokens_of((#[trigger] e[j]).1@)),
        decreases n - i,
    {
        let key = runlist_of.key_at(i);
        let text = runlist_of.value_at(i);
        proof {
            lemma_map_of_index(e, i as int);
        }
        match IntSpan::from_runlist(text.as_str()) {
            Ok(set) => {
                m.insert(key.clone(), set);
                assert forall|k: Seq<char>| #[trigger] m@.contains_key(k) <==> exists|j: int| 0 <= j < i + 1 && (#[trigger] e[j]).0@ == k by {
                    if exists|j: int| 0 <= j < i + 1 && (#[trigger] e[j]).0@ == k {
                        let j = choose|j: int| 0 <= j < i + 1 && (#[trigger] e[j]).0@ == k;
                        if j < i {
                            assert(exists|j: int| 0 <= j < i && (#[trigger] e[j]).0@ == k);
                        }
                    }
                }
            },
            Err(_) => {
                return Err(SpanError::ParseError);
            },
        }
        i = i + 1;
    }
    proof {
        assert forall|k: Seq<char>| #[trigger] runlist_of@.contains_key(k) implies tokens_ok(tokens_of(runlist_of@[k]@)) by {
            lemma_map_of_keys(e, k);
            let j = choose|j: int| 0 <= j < e.len() && (#[trigger] e[j]).0@ == k;
            lemma_map_of_index(e, j);
        }
        assert forall|k: Seq<char>| #[trigger] m@.contains_key(k) <==> runlist_of@.contains_key(k) by {
            lemma_map_of_keys(e, k);
        }
        assert(m@.dom() =~= runlist_of@.dom());
    }
    Ok(m)
}

/// Writes every set as run-list text.
pub fn set2runlist(set_of: &NamedSets) -> (r: KeyMap<String>)
    requires
        set_of.wf(),
    ensures
        r.wf(),
        r@.dom() == set_of@.dom(),
        forall|k: Seq<char>| #[trigger] r@.contains_key(k) ==> r@[k]@ == runlist_text(set_of@[k].spans()),
{
    let ghost e = set_of.entries();
    proof {
        set_of.lemma_view();
    }
    let mut m: KeyMap<String> = KeyMap::new();
    let mut i: usize = 0;
    let n = set_of.len();
    while i < n
        invariant
            n == e.len(),
            e == set_of.entries(),
            set_of@ == map_of(e),
            set_of.wf(),
            keys_unique(e),
            0 <= i <= n,
            m.wf(),
            forall|k: Seq<char>| #[trigger] m@.contains_key(k) <==> exists|j: int| 0 <= j < i && (#[trigger] e[j]).0@ == k,
            forall|k: Seq<char>| #[trigger] m@.contains_key(k) ==> m@[k]@ == runlist_text(set_of@[k].spans()),
        decreases n - i,
    {
        let key = set_of.key_at(i);
        let set = set_of.value_at(i);
        proof {
            lemma_map_of_index(e, i as int);
        }
        m.insert(key.clone(), set.to_string());
        assert forall|k: Seq<char>| #[trigger] m@.contains_key(k) <==> exists|j: int| 0 <= j < i + 1 && (#[trigger] e[j]).0@ == k by {
            if exists|j: int| 0 <= j < i + 1 && (#[trigger] e[j]).0@ == k {
                let j = choose|j: int| 0 <= j < i + 1 && (#[trigger] e[j]).0@ == k;
                if j < i {
                    assert(exists|j: int| 0 <= j < i && (#[trigger] e[j]).0@ == k);
                }
            }
        }
        i = i + 1;
    }
    proof {
        assert forall|k: Seq<char>| #[trigger] m@.contains_key(k) <==> set_of@.contains_key(k) by {
            lemma_map_of_keys(e, k);
        }
        assert(m@.dom() =~= set_of@.dom());
    }
    m
}

/// Gives every key of `length_of` that `set_one` lacks an empty set.
pub fn fill_up_s(set_one: &mut NamedSets, length_of: &KeyMap<i32>)
    requires
        old(set_one).wf(),
        sets_wf(old(set_one)@),
        length_of.wf(),
    ensures
        final(set_one).wf(),
        sets_wf(final(set_one)@),
        filled_from(old(set_one)@, length_of@.dom(), final(set_one)@),
{
    let ghost e = length_of.entries();
    let ghost start = set_one@;
    proof {
        length_of.lemma_view();
    }
    let mut i: usize = 0;
    let n = length_of.len();
    while i < n
        invariant
            n == e.len(),
            e == length_of.entries(),
            length_of@ == map_of(e),
            0 <= i <= n,
            set_one.wf(),
            sets_wf(set_one@),
            filled_from(start, Set::new(|k: Seq<char>| exists|j: int| 0 <= j < i && (#[trigger] e[j]).0@ == k), set_one@),
        decreases n - i,
    {
        let key = length_of.key_at(i);
        if !set_one.contains_key(key.as_str()) {
            set_one.insert(key.clone(), IntSpan::new());
        }
        proof {
            let u0 = Set::new(|k: Seq<char>| exists|j: int| 0 <= j < i && (#[trigger] e[j]).0@ == k);
            let u1 = Set::new(|k: Seq<char>| exists|j: int| 0 <= j < i + 1 && (#[trigger] e[j]).0@ == k);
            assert forall|k: Seq<char>| #[trigger] u1.contains(k) <==> u0.contains(k) || k == e[i as int].0@ by {
                if u1.contains(k) {
                    let j = choose|j: int| 0 <= j < i + 1 && (#[trigger] e[j]).0@ == k;
                    if j < i {
                        assert(u0.contains(k));
                    }
                }
                if k == e[i as int].0@ {
                    assert(0 <= i < i + 1 && e[i as int].0@ == k);
                }
            }
            assert(filled_from(start, u1, set_one@));
        }
        i = i + 1;
    }
    proof {
        let u = Set::new(|k: Seq<char>| exists|j: int| 0 <= j < n && (#[trigger] e[j]).0@ == k);
        assert forall|k: Seq<char>| #[trigger] u.contains(k) <==> length_of@.dom().contains(k) by {
            lemma_map_of_keys(e, k);
        }
        assert(u =~= length_of@.dom());
    }
}

/// Gives every group the empty sets that `fill_up_s` adds.
pub fn fill_up(set_of: &mut GroupedSets, length_of: &KeyMap<i32>)
    requires
        old(set_of).wf(),
        groups_wf(old(set_of)@),
        length_of.wf(),
    ensures
        final(set_of).wf(),
        groups_wf(final(set_of)@),
        final(set_of)@.dom() == old(set_of)@.dom(),
        forall|g: Seq<char>| #[trigger] final(set_of)@.contains_key(g) ==> filled_from(old(set_of)@[g]@, length_of@.dom(), final(set_of)@[g]@),
{
    let ghost e0 = set_of.entries();
    proof {
        set_of.lemma_view();
    }
    let n = set_of.len();
    let mut i: usize = 0;
    while i < n
        invariant
            n == e0.len(),
            keys_unique(e0),
            groups_wf(map_of(e0)),
            length_of.wf(),
            0 <= i <= n,
            set_of.wf(),
            set_of.entries().len() == n,
            forall|j: int| 0 <= j < n ==> (#[trigger] set_of.entries()[j]).0@ == e0[j].0@,
            forall|j: int| i <= j < n ==> (#[trigger] set_of.entries()[j]) == e0[j],
            forall|j: int|
                0 <= j < i ==> (#[trigger] set_of.entries()[j]).1.wf() && sets_wf(set_of.entries()[j].1@)
                    && filled_from(e0[j].1@, length_of@.dom(), set_of.entries()[j].1@),
        decreases n - i,
    {
        let ghost before = set_of.entries();
        proof {
            lemma_map_of_index(e0, i as int);
        }
        let mut inner = set_of.swap_value(i, KeyMap::new());
        fill_up_s(&mut inner, length_of);
        let ghost mid = set_of.entries();
        let _ = set_of.swap_value(i, inner);
        proof {
            assert forall|j: int| 0 <= j < n implies (#[trigger] set_of.entries()[j]).0@ == e0[j].0@ by {
                assert(mid[j].0@ == before[j].0@);
            }
            assert forall|j: int| i + 1 <= j < n implies (#[trigger] set_of.entries()[j]) == e0[j] by {
                assert(mid[j] == before[j]);
            }
            assert forall|j: int| 0 <= j < i + 1 implies (#[trigger] set_of.entries()[j]).1.wf() && sets_wf(set_of.entries()[j].1@)
                && filled_from(e0[j].1@, length_of@.dom(), set_of.entries()[j].1@) by {
                if j < i {
                    assert(mid[j] == before[j]);
                }
            }
        }
        i = i + 1;
    }
    proof {
        let e1 = set_of.entries();
        set_of.lemma_view();
        assert forall|g: Seq<char>| #[trigger] set_of@.contains_key(g) <==> map_of(e0).contains_key(g) by {
            lemma_map_of_keys(e0, g);
            lemma_map_of_keys(e1, g);
            if map_of(e0).contains_key(g) {
                let j = choose|j: int| 0 <= j < e0.len() && (#[trigger] e0[j]).0@ == g;
                assert(e1[j].0@ == g);
            }
            if set_of@.contains_key(g) {
                let j = choose|j: int| 0 <= j < e1.len() && (#[trigger] e1[j]).0@ == g;
                assert(e0[j].0@ == g);
            }
        }
        assert(set_of@.dom() =~= map_of(e0).dom());
        assert forall|g: Seq<char>| #[trigger] set_of@.contains_key(g) implies set_of@[g].wf() && sets_wf(set_of@[g]@)
            && filled_from(map_of(e0)[g]@, length_of@.dom(), set_of@[g]@) by {
            lemma_map_of_keys(e1, g);
            let j = choose|j: int| 0 <= j < e1.len() && (#[trigger] e1[j]).0@ == g;
            lemma_map_of_index(e1, j);
            lemma_map_of_index(e0, j);
        }
    }
}

/// Whether some string of `r` is `k`.
pub open spec fn listed(r: Seq<String>, k: Seq<char>) -> bool {
    exists|i: int| 0 <= i < r.len() && (#[trigger] r[i])@ == k
}

/// Whether some group of `g` has the key `k`.
pub open spec fn in_some_group(g: Map<Seq<char>, KeyMap<IntSpan>>, k: Seq<char>) -> bool {
    exists|n: Seq<char>| #[trigger] g.contains_key(n) && g[n]@.contains_key(k)
}

/// The keys that occur in any group.
pub fn chrs_in_sets(set_of: &GroupedSets) -> (r: Vec<String>)
    requires
        set_of.wf(),
        groups_wf(set_of@),
    ensures
        forall|i: int, j: int| 0 <= i < j < r@.len() ==> (#[trigger] r@[i])@ != (#[trigger] r@[j])@,
        forall|k: Seq<char>| #[trigger] listed(r@, k) <==> in_some_group(set_of@, k),
{
    let ghost e = set_of.entries();
    proof {
        set_of.lemma_view();
    }
    let mut acc: KeyMap<bool> = KeyMap::new();
    let n = set_of.len();
    let mut i: usize = 0;
    while i < n
        invariant
            n == e.len(),
            e == set_of.entries(),
            keys_unique(e),
            groups_wf(map_of(e)),
            0 <= i <= n,
            acc.wf(),
            forall|k: Seq<char>| #[trigger] acc@.contains_key(k) <==> exists|gi: int| 0 <= gi < i && (#[trigger] e[gi]).1@.contains_key(k),
        decreases n - i,
    {
        let inner = set_of.value_at(i);
        proof {
            lemma_map_of_index(e, i as int);
            inner.lemma_view();
        }
        let ghost f = inner.entries();
        let m = inner.len();
        let mut j: usize = 0;
        while j < m
            invariant
                m == f.len(),
                f == inner.entries(),
                *inner == e[i as int].1,
                inner@ == map_of(f),
                keys_unique(f),
                0 <= j <= m,
                acc.wf(),
                forall|k: Seq<char>| #[trigger] acc@.contains_key(k) <==> (exists|gi: int| 0 <= gi < i && (#[trigger] e[gi]).1@.contains_key(k))
                    || exists|jj: int| 0 <= jj < j && (#[trigger] f[jj]).0@ == k,
            decreases m - j,
        {
            acc.insert(inner.key_at(j).clone(), true);
            assert forall|k: Seq<char>| #[trigger] acc@.contains_key(k) <==> (exists|gi: int| 0 <= gi < i && (#[trigger] e[gi]).1@.contains_key(k))
                || exists|jj: int| 0 <= jj < j + 1 && (#[trigger] f[jj]).0@ == k by {
                if exists|jj: int| 0 <= jj < j + 1 && (#[trigger] f[jj]).0@ == k {
                    let jj = choose|jj: int| 0 <= jj < j + 1 && (#[trigger] f[jj]).0@ == k;
                    if jj < j {
                        assert(exists|jj: int| 0 <= jj < j && (#[trigger] f[jj]).0@ == k);
                    }
                }
            }
            j = j + 1;
        }
        assert forall|k: Seq<char>| #[trigger] acc@.contains_key(k) <==> exists|gi: int| 0 <= gi < i + 1 && (#[trigger] e[gi]).1@.contains_key(k) by {
            lemma_map_of_keys(f, k);
            if exists|gi: int| 0 <= gi < i + 1 && (#[trigger] e[gi]).1@.contains_key(k) {
                let gi = choose|gi: int| 0 <= gi < i + 1 && (#[trigger] e[gi]).1@.contains_key(k);
                if gi < i {
                    assert(exists|gi: int| 0 <= gi < i && (#[trigger] e[gi]).1@.contains_key(k));
                }
            }
        }
        i = i + 1;
    }
    let r = acc.keys();
    proof {
        acc.lemma_view();
        let ae = acc.entries();
        assert forall|a: int, b: int| 0 <= a < b < r@.len() implies (#[trigger] r@[a])@ != (#[trigger] r@[b])@ by {
            assert(ae[a].0@ != ae[b].0@);
        }
        assert forall|k: Seq<char>| #[trigger] listed(r@, k) <==> in_some_group(set_of@, k) by {
            lemma_map_of_keys(ae, k);
            if exists|a: int| 0 <= a < r@.len() && (#[trigger] r@[a])@ == k {
                let a = choose|a: int| 0 <= a < r@.len() && (#[trigger] r@[a])@ == k;
                assert(ae[a].0@ == k);
                let gi = choose|gi: int| 0 <= gi < n && (#[trigger] e[gi]).1@.contains_key(k);
                lemma_map_of_index(e, gi);
                assert(set_of@.contains_key(e[gi].0@));
            }
            if exists|g: Seq<char>| #[trigger] set_of@.contains_key(g) && set_of@[g]@.contains_key(k) {
                let g = choose|g: Seq<char>| #[trigger] set_of@.contains_key(g) && set_of@[g]@.contains_key(k);
                lemma_map_of_keys(e, g);
                let gi = choose|gi: int| 0 <= gi < e.len() && (#[trigger] e[gi]).0@ == g;
                lemma_map_of_index(e, gi);
                assert(e[gi].1@.contains_key(k));
                let a = choose|a: int| 0 <= a < ae.len() && (#[trigger] ae[a]).0@ == k;
                assert(r@[a]@ == k);
            }
        }
    }
    r
}

/// A run-list document: keys to run-lists, or groups of such maps.
pub enum Doc {
    Flat(KeyMap<String>),
    Grouped(KeyMap<KeyMap<String>>),
}

/// The name of the one group that a flat document makes.
pub open spec fn single_group() -> Seq<char> {
    "__single"@
}

/// Every map of the document has distinct keys.
pub open spec fn doc_wf(d: Doc) -> bool {
    match d {
        Doc::Flat(m) => m.wf(),
        Doc::Grouped(g) => g.wf() && forall|n: Seq<char>| #[trigger] g@.contains_key(n) ==> g@[n].wf(),
    }
}

/// Every run-list of the document is accepted.
pub open spec fn doc_ok(d: Doc) -> bool {
    match d {
        Doc::Flat(m) => runlists_ok(m@),
        Doc::Grouped(g) => groups_ok(g@),
    }
}

/// Every run-list of every group is accepted.
pub open spec fn groups_ok(g: Map<Seq<char>, KeyMap<String>>) -> bool {
    forall|n: Seq<char>| #[trigger] g.contains_key(n) ==> runlists_ok(g[n]@)
}

/// `r` holds the sets that the document `d` denotes, a flat document as
/// the one group `__single`.
pub open spec fn doc_sets(d: Doc, r: Map<Seq<char>, KeyMap<IntSpan>>) -> bool {
    match d {
        Doc::Flat(m) => r.dom() == set![single_group()] && parsed_from(m@, r[single_group()]@),
        Doc::Grouped(g) => r.dom() == g@.dom() && forall|n: Seq<char>| #[trigger] r.contains_key(n) ==> parsed_from(g@[n]@, r[n]@),
    }
}

/// Reads every run-list of a document into sets.
pub fn to_set_of(doc: &Doc) -> (r: Result<GroupedSets, SpanError>)
    requires
        doc_wf(*doc),
    ensures
        r is Ok <==> doc_ok(*doc),
        r matches Ok(g) ==> g.wf() && groups_wf(g@) && doc_sets(*doc, g@),
        r is Err ==> r == Err::<GroupedSets, SpanError>(SpanError::ParseError),
{
    match doc {
        Doc::Flat(m) => {
            let one = runlist2set(m)?;
            let mut g: GroupedSets = KeyMap::new();
            let name = String::from_str("__single");
            proof {
                reveal_strlit("__single");
            }
            g.insert(name, one);
            assert(g@.dom() =~= set![single_group()]);
            Ok(g)
        },
        Doc::Grouped(gm) => {
            let ghost e = gm.entries();
            proof {
                gm.lemma_view();
            }
            let mut g: GroupedSets = KeyMap::new();
            let n = gm.len();
            let mut i: usize = 0;
            while i < n
                invariant
                    *doc == Doc::Grouped(*gm),
                    n == e.len(),
                    e == gm.entries(),
                    gm@ == map_of(e),
                    keys_unique(e),
                    forall|k: Seq<char>| #[trigger] gm@.contains_key(k) ==> gm@[k].wf(),
                    0 <= i <= n,
                    g.wf(),
                    groups_wf(g@),
                    forall|k: Seq<char>| #[trigger] g@.contains_key(k) <==> exists|j: int| 0 <= j < i && (#[trigger] e[j]).0@ == k,
                    forall|k: Seq<char>| #[trigger] g@.contains_key(k) ==> parsed_from(gm@[k]@, g@[k]@),
                    forall|j: int| 0 <= j < i ==> runlists_ok((#[trigger] e[j]).1@),
                decreases n - i,
            {
                proof {
                    lemma_map_of_index(e, i as int);
                }
                let key = gm.key_at(i);
                let one = match runlist2set(gm.value_at(i)) {
                    Ok(one) => one,
                    Err(_) => {
                        assert(gm@.contains_key(e[i as int].0@));
                        assert(!runlists_ok(gm@[e[i as int].0@]@));
                        assert(!groups_ok(gm@));
                        return Err(SpanError::ParseError);
                    },
                };
                g.insert(key.clone(), one);
                assert forall|k: Seq<char>| #[trigger] g@.contains_key(k) <==> exists|j: int| 0 <= j < i + 1 && (#[trigger] e[j]).0@ == k by {
                    if exists|j: int| 0 <= j < i + 1 && (#[trigger] e[j]).0@ == k {
                        let j = choose|j: int| 0 <= j < i + 1 && (#[trigger] e[j]).0@ == k;
                        if j < i {
                            assert(exists|j: int| 0 <= j < i && (#[trigger] e[j]).0@ == k);
                        }
                    }
                }
                i = i + 1;
            }
            proof {
                assert forall|k: Seq<char>| #[trigger] gm@.contains_key(k) implies runlists_ok(gm@[k]@) by {
                    lemma_map_of_keys(e, k);
                    let j = choose|j: int| 0 <= j < e.len() && (#[trigger] e[j]).0@ == k;
                    lemma_map_of_index(e, j);
                }
                assert forall|k: Seq<char>| #[trigger] g@.contains_key(k) <==> gm@.contains_key(k) by {
                    lemma_map_of_keys(e, k);
                }
                assert(g@.dom() =~= gm@.dom());
            }
            Ok(g)
        },
    }
}

} // verus!
