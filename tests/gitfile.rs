use usefix::gitfile::{split_into_lines, Chunk, GitFile, LineNumber, LineSet, Side};

#[test]
fn lines_keep_their_newlines() {
    let lines = split_into_lines(b"a\nb\n\nc");
    assert_eq!(lines, vec![b"a\n".to_vec(), b"b\n".to_vec(), b"\n".to_vec(), b"c".to_vec()]);
    assert!(split_into_lines(b"").is_empty());
}

#[test]
fn line_numbers_count_from_one() {
    assert_eq!(LineNumber::from_one_indexed(0), None);
    assert_eq!(LineNumber::from_one_indexed(3), Some(LineNumber(3)));
    let mut n = LineNumber::one();
    assert_eq!(n.get_incr(), LineNumber(1));
    assert_eq!(n, LineNumber(2));
    assert_eq!(LineNumber::lines_iter(3), vec![LineNumber(1), LineNumber(2), LineNumber(3)]);
}

#[test]
fn conflict_is_parsed_with_numbers_and_names() {
    let file = GitFile::from_file("a\n<<<<<<< HEAD  \nb\n=======\nc\nd\n>>>>>>> other\ne\n").unwrap();
    assert!(file.contains_conflict());
    let chunks = file.chunks();
    assert_eq!(chunks.len(), 3);
    match &chunks[1] {
        Chunk::Conflict(c) => {
            assert_eq!(c.left.name(), b"HEAD");
            assert_eq!(c.right.name(), b"other");
            assert_eq!(c.left.lines().len(), 1);
            assert_eq!(c.left.lines()[0].line_number, LineNumber(3));
            assert_eq!(c.right.lines()[0].line_number, LineNumber(5));
            assert_eq!(c.right.lines()[1].line_number, LineNumber(6));
        }
        _ => panic!("expected a conflict"),
    }
    match &chunks[2] {
        Chunk::Line(l) => assert_eq!(l.line_number, LineNumber(8)),
        _ => panic!("expected a line"),
    }
}

#[test]
fn derived_files_map_back_to_the_original() {
    let file = GitFile::from_file("a\n<<<<<<< HEAD\nb\n=======\nc\nd\n>>>>>>> other\ne").unwrap();
    let left = file.build_derived_file(Side::Left);
    assert_eq!(left.content(), b"a\nb\ne");
    assert_eq!(left.get_original_line(LineNumber(2)), Some(LineNumber(3)));
    assert_eq!(left.get_original_line(LineNumber(3)), Some(LineNumber(8)));
    assert_eq!(left.get_original_line(LineNumber(4)), None);
    assert_eq!(left.get_original_line(LineNumber(0)), None);
    let right = file.build_derived_file(Side::Right);
    assert_eq!(right.content(), b"a\nc\nd\ne");
    assert_eq!(right.get_original_line(LineNumber(3)), Some(LineNumber(6)));
    assert_eq!(right.get_original_line(LineNumber(4)), Some(LineNumber(8)));
}

#[test]
fn empty_halves_are_allowed() {
    let file = GitFile::from_file("<<<<<<< a\n=======\n>>>>>>> b\n").unwrap();
    assert!(file.contains_conflict());
    assert_eq!(file.build_derived_file(Side::Left).content(), b"");
    assert!(!GitFile::from_file("x\ny\n").unwrap().contains_conflict());
}

#[test]
fn misplaced_markers_are_errors() {
    let e = GitFile::from_file("a\n=======\n").unwrap_err();
    assert_eq!(e.line_number, LineNumber(2));
    let e = GitFile::from_file(">>>>>>> b\n").unwrap_err();
    assert_eq!(e.line_number, LineNumber(1));
    let e = GitFile::from_file("<<<<<<< a\nx\n<<<<<<< b\n").unwrap_err();
    assert_eq!(e.line_number, LineNumber(3));
    let e = GitFile::from_file("<<<<<<< a\nx\n>>>>>>> b\n").unwrap_err();
    assert_eq!(e.line_number, LineNumber(3));
    let e = GitFile::from_file("x\n<<<<<<< a\nx\n=======\ny\n").unwrap_err();
    assert_eq!(e.line_number, LineNumber(2));
}

#[test]
fn seven_chevrons_need_a_space() {
    let file = GitFile::from_file("<<<<<<<x\n=======x\n").unwrap();
    assert!(!file.contains_conflict());
}

#[test]
fn line_sets_hold_what_was_inserted() {
    let mut set = LineSet::new();
    set.insert(LineNumber(4));
    set.insert(LineNumber(2));
    assert!(set.contains(LineNumber(4)));
    assert!(set.contains(LineNumber(2)));
    assert!(!set.contains(LineNumber(3)));
    assert!(!set.contains(LineNumber(100)));
}

#[test]
fn branch_names_lose_trailing_unicode_whitespace() {
    let file = GitFile::from_file("<<<<<<< HEAD\u{a0} \n=======\n>>>>>>> other\u{3000}\n").unwrap();
    match &file.chunks()[0] {
        Chunk::Conflict(c) => {
            assert_eq!(c.left.name(), b"HEAD");
            assert_eq!(c.right.name(), b"other");
        }
        _ => panic!("expected a conflict"),
    }
}
