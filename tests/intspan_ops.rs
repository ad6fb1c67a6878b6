use spanr::{IntSpan, SpanError};

fn set(text: &str) -> IntSpan {
    IntSpan::from_runlist(text).unwrap()
}

#[test]
fn builder_canonicalizes() {
    let mut s = IntSpan::new();
    s.add_pair(1, 5);
    assert_eq!(s.to_string(), "1-5");
    assert!(!s.is_empty());
    assert_eq!(s.edge_size(), 1);
    assert_eq!(s.span_size(), 1);
    assert_eq!(s.cardinality(), 5);
    s.add_n(9);
    s.add_vec(vec![12, 16, 15, 15, 20]);
    assert_eq!(s.to_string(), "1-5,9,12,15-16,20");
    assert_eq!(s.cardinality(), 10);
    assert_eq!(s.span_size(), 5);
    assert!(!s.is_empty());
    assert_eq!(s.ranges(), vec![(1, 5), (9, 9), (12, 12), (15, 16), (20, 20)]);
}

#[test]
fn empty_set_renders_as_dash() {
    let s = IntSpan::new();
    assert!(s.is_empty());
    assert_eq!(s.cardinality(), 0);
    assert_eq!(s.to_string(), "-");
    assert_eq!(s.min(), None);
    assert_eq!(s.max(), None);
    assert!(s.cover().is_empty());
}

#[test]
fn add_pair_merges_adjacent_and_ignores_reversed() {
    let mut s = set("1-3,7-9");
    s.add_pair(4, 6);
    assert_eq!(s.to_string(), "1-9");
    s.add_pair(20, 10);
    assert_eq!(s.to_string(), "1-9");
}

#[test]
fn parse_ignores_white_space_and_renders_canonically() {
    assert_eq!(set(" 1-5, 9 ,12\n").to_string(), "1-5,9,12");
    assert_eq!(set("15-16,1-5,3-9").to_string(), "1-9,15-16");
    assert_eq!(set("4,5,6").to_string(), "4-6");
    assert!(set("-").is_empty());
    assert!(set("").is_empty());
    assert_eq!(set("2147483647").to_string(), "2147483647");
}

#[test]
fn parse_rejects_malformed_tokens() {
    for bad in ["a", "5-3", "1-", "--4", "1,,2", "1-2-3", "2147483648", "-2147483649", "1.5", "-3--5"] {
        assert_eq!(IntSpan::from_runlist(bad).err(), Some(SpanError::ParseError), "{}", bad);
    }
}

#[test]
fn round_trip_of_canonical_text() {
    for text in ["1-5,9,12,15-16,20", "28547-29194", "0", "-", "3,5,7-8", "-9-15", "-20--10,-3", "-2147483648-2147483647"] {
        assert_eq!(set(text).to_string(), text);
    }
}

#[test]
fn negative_values_read_back() {
    let padded = set("1-5").pad(10);
    assert_eq!(padded.to_string(), "-9-15");
    assert_eq!(set(&padded.to_string()).to_string(), "-9-15");
    assert!(set("-4").contains(-4));
    assert_eq!(set("-5--3,-1").cardinality(), 4);
}

#[test]
fn contains_uses_the_spans() {
    let s = set("1-5,9,12,15-16,20");
    for n in [1, 3, 5, 9, 12, 15, 16, 20] {
        assert!(s.contains(n));
    }
    for n in [0, 6, 8, 10, 13, 14, 17, 21, -3] {
        assert!(!s.contains(n));
    }
}

#[test]
fn min_max_and_cover() {
    let s = set("3-5,9,40-41");
    assert_eq!(s.min(), Some(3));
    assert_eq!(s.max(), Some(41));
    assert_eq!(s.cover().to_string(), "3-41");
}

#[test]
fn set_algebra_on_values() {
    let a = set("1-10,20-30");
    let b = set("5-25");
    assert_eq!(a.union(&b).to_string(), "1-30");
    assert_eq!(a.intersect(&b).to_string(), "5-10,20-25");
    assert_eq!(a.diff(&b).to_string(), "1-4,26-30");
    assert_eq!(b.diff(&a).to_string(), "11-19");
    assert_eq!(a.xor(&b).to_string(), "1-4,11-19,26-30");
    assert_eq!(a.complement().intersect(&a).to_string(), "-");
}

#[test]
fn algebra_laws_on_values() {
    let s = set("1-5,9,12,15-16,20");
    let t = set("4-13,30");
    let u = set("2,16-40");
    assert_eq!(s.union(&s).to_string(), s.to_string());
    assert_eq!(s.union(&t).to_string(), t.union(&s).to_string());
    assert_eq!(s.intersect(&t).to_string(), t.intersect(&s).to_string());
    assert_eq!(s.union(&t).union(&u).to_string(), s.union(&t.union(&u)).to_string());
    assert_eq!(s.intersect(&t).intersect(&u).to_string(), s.intersect(&t.intersect(&u)).to_string());
    assert!(s.diff(&s).is_empty());
    assert!(s.xor(&s).is_empty());
    assert_eq!(s.union(&t.diff(&s)).to_string(), s.union(&t).to_string());
}

#[test]
fn zero_distance_changes_nothing() {
    let s = set("1-5,9,12,15-16,20");
    assert_eq!(s.fill(0).to_string(), s.to_string());
    assert_eq!(s.pad(0).to_string(), s.to_string());
    assert_eq!(s.trim(0).to_string(), s.to_string());
}

#[test]
fn fill_closes_small_holes_only() {
    assert_eq!(set("100-200,1101-1200").fill(1000).to_string(), "100-1200");
    assert_eq!(set("100-200,1301-1400").fill(1000).to_string(), "100-200,1301-1400");
    assert_eq!(set("1-2,4-5,9-10").fill(1).to_string(), "1-5,9-10");
    assert_eq!(set("1-2,4-5,9-10").fill(3).to_string(), "1-10");
}

#[test]
fn pad_trim_excise_values() {
    let s = set("1-5,10-20");
    assert_eq!(s.pad(2).to_string(), "-1-22");
    assert_eq!(s.pad(1).to_string(), "0-6,9-21");
    assert_eq!(s.trim(2).to_string(), "3,12-18");
    assert_eq!(s.trim(3).to_string(), "13-17");
    assert_eq!(s.trim(-1).to_string(), s.pad(1).to_string());
    assert_eq!(s.excise(6).to_string(), "10-20");
    assert_eq!(s.excise(5).to_string(), "1-5,10-20");
    assert_eq!(s.excise(12).to_string(), "-");
}

#[test]
fn grow_fits_reports_overflow() {
    let s = set("2147483640-2147483647");
    assert!(!s.grow_fits(1));
    assert!(s.grow_fits(-1));
    assert!(s.grow_fits(0));
}
