use spanr::commands::{combine, compare, compare_groups, merge, span, stat_rows, stat_total, statop_rows};
use spanr::coverage::{cover_depth, cover_records, parse_range, range_filter};
use spanr::ops::{RangeOp, SetOp, SpanOp};
use spanr::setmap::{chrs_in_sets, fill_up, fill_up_s, runlist2set, set2runlist, to_set_of, Doc, NamedSets};
use spanr::{IntSpan, KeyMap, SpanError};

fn runlists(pairs: &[(&str, &str)]) -> KeyMap<String> {
    let mut m = KeyMap::new();
    for (k, v) in pairs {
        m.insert(k.to_string(), v.to_string());
    }
    m
}

fn sets(pairs: &[(&str, &str)]) -> NamedSets {
    runlist2set(&runlists(pairs)).unwrap()
}

fn text_of(m: &NamedSets, key: &str) -> String {
    m.get(key).unwrap().to_string()
}

fn sizes(pairs: &[(&str, i32)]) -> KeyMap<i32> {
    let mut m = KeyMap::new();
    for (k, v) in pairs {
        m.insert(k.to_string(), *v);
    }
    m
}

#[test]
fn test_runlist2set() {
    let runlist_of = runlists(&[("I", "28547-29194")]);
    let set_of = runlist2set(&runlist_of).unwrap();
    assert!(set_of.value_at(0).contains(28550));
}

#[test]
fn test_set2runlist() {
    let mut intspan = IntSpan::new();
    intspan.add_pair(28547, 29194);
    let mut set_of: NamedSets = KeyMap::new();
    set_of.insert("I".to_string(), intspan);
    let runlist_of = set2runlist(&set_of);
    assert_eq!(runlist_of.value_at(0), &"28547-29194".to_string());
}

#[test]
fn runlist2set_rejects_a_bad_value() {
    let bad = runlists(&[("I", "1-5"), ("II", "x")]);
    assert_eq!(runlist2set(&bad).err(), Some(SpanError::ParseError));
}

#[test]
fn compare_intersect_and_union() {
    let a = sets(&[("I", "1-10")]);
    let b = sets(&[("I", "5-15")]);
    let i = compare(SetOp::Intersect, &a, &b);
    assert_eq!(text_of(&i, "I"), "5-10");
    let u = compare(SetOp::Union, &a, &b);
    assert_eq!(text_of(&u, "I"), "1-15");
    assert_eq!(u.len(), 1);
}

#[test]
fn compare_treats_missing_key_as_empty() {
    let a = sets(&[("I", "1-10"), ("II", "3-4")]);
    let b = sets(&[("I", "5-15"), ("III", "7")]);
    let d = compare(SetOp::Diff, &a, &b);
    assert_eq!(d.len(), 3);
    assert_eq!(text_of(&d, "I"), "1-4");
    assert_eq!(text_of(&d, "II"), "3-4");
    assert_eq!(text_of(&d, "III"), "-");
    let x = compare(SetOp::Xor, &a, &b);
    assert_eq!(text_of(&x, "I"), "1-4,11-15");
    assert_eq!(text_of(&x, "III"), "7");
}

#[test]
fn span_fill_by_distance() {
    let m = sets(&[("I", "100-200,1101-1200"), ("II", "100-200,1301-1400")]);
    let r = span(SpanOp::Fill, 1000, &m).unwrap();
    assert_eq!(text_of(&r, "I"), "100-1200");
    assert_eq!(text_of(&r, "II"), "100-200,1301-1400");
}

#[test]
fn span_other_operators() {
    let m = sets(&[("I", "1-5,10-20")]);
    assert_eq!(text_of(&span(SpanOp::Cover, 0, &m).unwrap(), "I"), "1-20");
    assert_eq!(text_of(&span(SpanOp::Trim, 2, &m).unwrap(), "I"), "3,12-18");
    assert_eq!(text_of(&span(SpanOp::Pad, 1, &m).unwrap(), "I"), "0-6,9-21");
    assert_eq!(text_of(&span(SpanOp::Excise, 6, &m).unwrap(), "I"), "10-20");
    let edge = sets(&[("I", "2147483600-2147483647")]);
    assert_eq!(span(SpanOp::Pad, 1, &edge).err(), Some(SpanError::OutOfRange));
}

#[test]
fn invalid_operator_names_fail() {
    assert_eq!(SetOp::from_name("invalid"), Err(SpanError::InvalidOperator));
    assert_eq!(SpanOp::from_name("invalid"), Err(SpanError::InvalidOperator));
    assert_eq!(RangeOp::from_name("invalid"), Err(SpanError::InvalidOperator));
    assert_eq!(SetOp::from_name("intersect"), Ok(SetOp::Intersect));
    assert_eq!(SpanOp::from_name("excise"), Ok(SpanOp::Excise));
    assert_eq!(RangeOp::from_name("non-overlap"), Ok(RangeOp::NonOverlap));
}

#[test]
fn cover_depth_thresholds() {
    let rs = vec![(1, 100), (50, 150)];
    assert_eq!(cover_depth(&rs, 1).to_string(), "1-150");
    assert_eq!(cover_depth(&rs, 2).to_string(), "50-100");
    assert_eq!(cover_depth(&rs, 3).to_string(), "-");
    let three = vec![(1, 10), (5, 20), (8, 9), (30, 20)];
    assert_eq!(cover_depth(&three, 3).to_string(), "8-9");
}

#[test]
fn cover_records_by_key() {
    let recs = vec![
        ("I".to_string(), 1, 100),
        ("II".to_string(), 5, 6),
        ("I".to_string(), 50, 150),
    ];
    let c1 = cover_records(&recs, 1);
    assert_eq!(c1.len(), 2);
    assert_eq!(text_of(&c1, "I"), "1-150");
    assert_eq!(text_of(&c1, "II"), "5-6");
    let c2 = cover_records(&recs, 2);
    assert_eq!(text_of(&c2, "I"), "50-100");
    assert_eq!(text_of(&c2, "II"), "-");
}

#[test]
fn range_superset_keeps_only_contained() {
    let m = sets(&[("I", "21294-22075")]);
    let recs = vec![
        ("I".to_string(), 21294, 22075),
        ("I".to_string(), 21000, 21300),
        ("I".to_string(), 21300, 21400),
        ("II".to_string(), 21300, 21400),
    ];
    let kept = range_filter(RangeOp::Superset, &m, &recs);
    assert_eq!(kept, vec![("I".to_string(), 21294, 22075), ("I".to_string(), 21300, 21400)]);
    let over = range_filter(RangeOp::Overlap, &m, &recs);
    assert_eq!(over.len(), 3);
    let non = range_filter(RangeOp::NonOverlap, &m, &recs);
    assert_eq!(non, vec![("II".to_string(), 21300, 21400)]);
}

#[test]
fn parse_range_records() {
    assert_eq!(parse_range("S288c.I(+):1-100"), Ok(("I".to_string(), 1, 100)));
    assert_eq!(parse_range("II:327069-327703"), Ok(("II".to_string(), 327069, 327703)));
    assert_eq!(parse_range("infile_0/1/0_514:19-499"), Ok(("infile_0/1/0_514".to_string(), 19, 499)));
    assert_eq!(parse_range("I(-):42"), Ok(("I".to_string(), 42, 42)));
    assert_eq!(parse_range("I-100"), Err(SpanError::ParseError));
    assert_eq!(parse_range("I:9-3"), Err(SpanError::ParseError));
}

#[test]
fn fill_up_adds_missing_keys_once() {
    let universe = sizes(&[("I", 100), ("II", 200), ("III", 300)]);
    let mut m = sets(&[("II", "5-9")]);
    fill_up_s(&mut m, &universe);
    assert_eq!(m.len(), 3);
    assert_eq!(text_of(&m, "I"), "-");
    assert_eq!(text_of(&m, "II"), "5-9");
    assert_eq!(text_of(&m, "III"), "-");
    let once = set2runlist(&m);
    fill_up_s(&mut m, &universe);
    let twice = set2runlist(&m);
    assert_eq!(once.keys(), twice.keys());
    assert_eq!(m.len(), 3);
}

#[test]
fn fill_up_every_group() {
    let universe = sizes(&[("I", 100), ("II", 200)]);
    let mut g: KeyMap<NamedSets> = KeyMap::new();
    g.insert("a".to_string(), sets(&[("I", "1")]));
    g.insert("b".to_string(), sets(&[("III", "3")]));
    fill_up(&mut g, &universe);
    assert_eq!(g.get("a").unwrap().len(), 2);
    assert_eq!(g.get("b").unwrap().len(), 3);
    assert_eq!(text_of(g.get("b").unwrap(), "III"), "3");
    let mut chrs = chrs_in_sets(&g);
    chrs.sort();
    assert_eq!(chrs, vec!["I".to_string(), "II".to_string(), "III".to_string()]);
}

#[test]
fn combine_unions_groups() {
    let mut g: KeyMap<NamedSets> = KeyMap::new();
    g.insert("a".to_string(), sets(&[("I", "1-5"), ("II", "8")]));
    g.insert("b".to_string(), sets(&[("I", "4-10")]));
    let c = combine(&g);
    assert_eq!(c.len(), 2);
    assert_eq!(text_of(&c, "I"), "1-10");
    assert_eq!(text_of(&c, "II"), "8");
}

#[test]
fn to_set_of_flat_and_grouped() {
    let flat = Doc::Flat(runlists(&[("I", "1-5")]));
    let g = to_set_of(&flat).unwrap();
    assert_eq!(g.keys(), vec!["__single".to_string()]);
    assert_eq!(text_of(g.get("__single").unwrap(), "I"), "1-5");

    let mut nested: KeyMap<KeyMap<String>> = KeyMap::new();
    nested.insert("S288c".to_string(), runlists(&[("I", "1-5"), ("II", "7")]));
    nested.insert("RM11".to_string(), runlists(&[("I", "2")]));
    let g = to_set_of(&Doc::Grouped(nested)).unwrap();
    assert_eq!(g.len(), 2);
    assert_eq!(text_of(g.get("S288c").unwrap(), "II"), "7");

    let mut bad: KeyMap<KeyMap<String>> = KeyMap::new();
    bad.insert("S288c".to_string(), runlists(&[("I", "oops")]));
    assert_eq!(to_set_of(&Doc::Grouped(bad)).err(), Some(SpanError::ParseError));
}

#[test]
fn stat_rows_and_totals() {
    let universe = sizes(&[("I", 100), ("II", 200)]);
    let m = sets(&[("I", "1-10,21-30"), ("III", "1-5")]);
    let rows = stat_rows(&universe, &m);
    assert_eq!(rows, vec![("I".to_string(), 100, 20), ("II".to_string(), 200, 0)]);
    assert_eq!(stat_total(&rows), (300, 20));
}

#[test]
fn merge_names_groups_after_sources() {
    let g = merge(vec![
        ("I".to_string(), sets(&[("I", "1-5")])),
        ("II".to_string(), sets(&[("II", "7-9")])),
    ]);
    assert_eq!(g.keys(), vec!["I".to_string(), "II".to_string()]);
    assert_eq!(text_of(g.get("II").unwrap(), "II"), "7-9");
    assert_eq!(g.get("I").unwrap().len(), 1);
}

#[test]
fn compare_each_group_with_one_map() {
    let mut g: KeyMap<NamedSets> = KeyMap::new();
    g.insert("a".to_string(), sets(&[("I", "1-10")]));
    g.insert("b".to_string(), sets(&[("II", "1-10")]));
    let other = sets(&[("I", "5-15")]);
    let r = compare_groups(SetOp::Intersect, &g, &other);
    assert_eq!(r.len(), 2);
    assert_eq!(text_of(r.get("a").unwrap(), "I"), "5-10");
    assert_eq!(text_of(r.get("b").unwrap(), "I"), "-");
    assert_eq!(text_of(r.get("b").unwrap(), "II"), "-");
}

#[test]
fn statop_rows_size_the_combined_sets() {
    let universe = sizes(&[("I", 100), ("II", 200), ("III", 50)]);
    let a = sets(&[("I", "1-50"), ("II", "1-10")]);
    let b = sets(&[("I", "41-60"), ("III", "1-5")]);
    let inter = statop_rows(SetOp::Intersect, &universe, &a, &b);
    assert_eq!(
        inter,
        vec![("I".to_string(), 100, 10), ("II".to_string(), 200, 0), ("III".to_string(), 50, 0)]
    );
    let uni = statop_rows(SetOp::Union, &universe, &a, &b);
    assert_eq!(uni[0].2, 60);
    assert_eq!(uni[1].2, 10);
    assert_eq!(uni[2].2, 5);
    assert_eq!(stat_total(&uni), (350, 75));
}

#[test]
fn superset_query_lines_keep_input_order() {
    let m = sets(&[("I", "21294-22075")]);
    let queries = ["I:21294-22075", "I:21000-21300", "I:21400-21500", "I:22000-22100", "I:30000"];
    let recs: Vec<(String, i32, i32)> = queries.iter().map(|q| parse_range(q).unwrap()).collect();
    let kept = range_filter(RangeOp::Superset, &m, &recs);
    let texts: Vec<String> = kept.iter().map(|(k, lo, hi)| format!("{}:{}-{}", k, lo, hi)).collect();
    let refs: Vec<&str> = texts.iter().map(|t| t.as_str()).collect();
    assert_eq!(spanr::table::write_lines(&refs), "I:21294-22075\nI:21400-21500\n");
}
