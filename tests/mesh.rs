use pathtracer::mesh::{parse_index, parse_line, word_spans, MeshError, MeshLine, Span};

fn sp(start: usize, end: usize) -> Span {
    Span { start, end }
}

#[test]
fn words_split_at_whitespace() {
    assert_eq!(word_spans(b"  v 1.0\t-2 3 "), vec![sp(2, 3), sp(4, 7), sp(8, 10), sp(11, 12)]);
    assert_eq!(word_spans(b""), vec![]);
    assert_eq!(word_spans(b" \t\r\n"), vec![]);
    assert_eq!(word_spans(b"f"), vec![sp(0, 1)]);
}

#[test]
fn vertex_line_gives_coordinate_spans() {
    let line = b"v 0.5 -1.25 3";
    assert_eq!(parse_line(line, 0), Ok(MeshLine::Vertex(sp(2, 5), sp(6, 11), sp(12, 13))));
    assert_eq!(&line[6..11], b"-1.25");
}

#[test]
fn vertex_line_needs_three_coordinates() {
    assert_eq!(parse_line(b"v 1 2", 0), Err(MeshError::MissingCoordinate));
}

#[test]
fn face_line_gives_zero_based_vertices() {
    assert_eq!(parse_line(b"f 1 2 3", 3), Ok(MeshLine::Face(0, 1, 2)));
    assert_eq!(parse_line(b"f 3/1/2 1//4 +2/7", 3), Ok(MeshLine::Face(2, 0, 1)));
}

#[test]
fn face_line_errors() {
    assert_eq!(parse_line(b"f 1 2", 3), Err(MeshError::MissingIndex));
    assert_eq!(parse_line(b"f 1 x 2", 3), Err(MeshError::BadIndex));
    assert_eq!(parse_line(b"f /1 2 3", 3), Err(MeshError::BadIndex));
    assert_eq!(parse_line(b"f 1 2 4", 3), Err(MeshError::IndexOutOfRange));
    assert_eq!(parse_line(b"f 0 1 2", 3), Err(MeshError::IndexOutOfRange));
    assert_eq!(parse_line(b"f 9 x", 3), Err(MeshError::IndexOutOfRange));
}

#[test]
fn other_lines_declare_nothing() {
    assert_eq!(parse_line(b"", 0), Ok(MeshLine::Other));
    assert_eq!(parse_line(b"# comment", 0), Ok(MeshLine::Other));
    assert_eq!(parse_line(b"vn 0 0 1", 0), Ok(MeshLine::Other));
    assert_eq!(parse_line(b"vt 0 0", 0), Ok(MeshLine::Other));
    assert_eq!(parse_line(b"o cube", 0), Ok(MeshLine::Other));
}

#[test]
fn index_reads_like_str_parse() {
    let line = b"12/5 +7 + 18446744073709551615 18446744073709551616 007";
    let words = word_spans(line);
    assert_eq!(parse_index(line, words[0]), Some(12));
    assert_eq!(parse_index(line, words[1]), Some(7));
    assert_eq!(parse_index(line, words[2]), None);
    assert_eq!(parse_index(line, words[3]), Some(18446744073709551615));
    assert_eq!(parse_index(line, words[4]), None);
    assert_eq!(parse_index(line, words[5]), Some(7));
}

#[test]
fn words_split_at_unicode_whitespace() {
    let line = "v\u{a0}1\u{3000}2\u{2009}3\u{85}";
    let words = word_spans(line.as_bytes());
    assert_eq!(words, vec![sp(0, 1), sp(3, 4), sp(7, 8), sp(11, 12)]);
    let found: Vec<&str> = words.iter().map(|w| &line[w.start..w.end]).collect();
    let expected: Vec<&str> = line.split_whitespace().collect();
    assert_eq!(found, expected);
    assert_eq!(parse_line(line.as_bytes(), 0), Ok(MeshLine::Vertex(sp(3, 4), sp(7, 8), sp(11, 12))));
}

#[test]
fn non_space_multibyte_characters_stay_in_words() {
    let line = "f 1\u{e9} 2 3\u{2028}\u{1680}";
    let words = word_spans(line.as_bytes());
    let found: Vec<&str> = words.iter().map(|w| &line[w.start..w.end]).collect();
    let expected: Vec<&str> = line.split_whitespace().collect();
    assert_eq!(found, expected);
    assert_eq!(parse_line(line.as_bytes(), 3), Err(MeshError::BadIndex));
}
