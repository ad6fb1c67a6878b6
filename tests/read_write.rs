use spanr::table::{read_lines, read_sizes, write_lines};

const S288C_SIZES: &str = "I\t230218\nII\t813184\nIII\t316620\nIV\t1531933\nIX\t439888\nV\t576874\nVI\t270161\nVII\t1090940\nVIII\t562643\nX\t745751\nXI\t666816\nXII\t1078177\nXIII\t924431\nXIV\t784333\nXV\t1091291\nXVI\t948066\n";

#[test]
fn test_read_lines() {
    let lines = read_lines(S288C_SIZES);
    assert_eq!(lines.len(), 16);
}

#[test]
fn test_read_sizes() {
    let length_of = read_sizes(S288C_SIZES).unwrap();
    assert_eq!(length_of.len(), 16);
    assert_eq!(*length_of.get("II").unwrap(), 813184);
}

#[test]
fn test_write_lines() {
    let text = write_lines(&vec!["This", "is", "a\ntest"]);
    let lines = read_lines(&text);
    assert_eq!(lines.len(), 4);
}

#[test]
fn read_lines_drops_carriage_return_and_final_newline() {
    let lines = read_lines("a\r\nb\n\nc");
    assert_eq!(lines, vec!["a".to_string(), "b".to_string(), "".to_string(), "c".to_string()]);
    assert_eq!(read_lines("").len(), 0);
    assert_eq!(read_lines("x\n").len(), 1);
}

#[test]
fn read_sizes_last_write_wins_and_skips_blank_lines() {
    let m = read_sizes("I\t10\n\nI\t20\nII\t5\n").unwrap();
    assert_eq!(m.len(), 2);
    assert_eq!(*m.get("I").unwrap(), 20);
    assert_eq!(*m.get("II").unwrap(), 5);
}

#[test]
fn read_sizes_rejects_lines_that_are_not_records() {
    assert_eq!(read_sizes("I\t10\nII\t5\textra\n").err(), Some(spanr::error::SpanError::ParseError));
    assert_eq!(read_sizes("I\t10\nnot a record\n").err(), Some(spanr::error::SpanError::ParseError));
}

#[test]
fn read_sizes_rejects_bad_length() {
    assert_eq!(read_sizes("I\tabc\n").err(), Some(spanr::error::SpanError::ParseError));
    assert_eq!(read_sizes("I\t99999999999\n").err(), Some(spanr::error::SpanError::ParseError));
}

#[test]
fn write_lines_joins_with_newlines() {
    assert_eq!(write_lines(&vec!["a", "b"]), "a\nb\n");
    assert_eq!(write_lines(&vec![]), "");
}
