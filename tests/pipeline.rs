use usefix::fix::{fix_with_prettyplease, prepare, FixError};
use usefix::gitfile::{LineNumber, Side};
use usefix::pretty::{assemble_groups, prettify_with_prettyplease, split_groups};

fn run(input: &str) -> String {
    String::from_utf8(fix_with_prettyplease(input).unwrap()).unwrap()
}

#[test]
fn running_twice_changes_nothing() {
    let input = "<<<<<<< HEAD\nuse std::io;\nuse a::b;\n=======\nuse a::c;\nuse crate::x;\n>>>>>>> other\n\nfn main() {}\n";
    let once = run(input);
    let twice = run(&once);
    assert_eq!(once, twice);
}

#[test]
fn non_import_lines_stay_in_order() {
    let input = "//! docs\nuse a::b;\n\nfn one() {}\nfn two() {}\n";
    let out = run(input);
    assert!(out.starts_with("//! docs\nuse a::b;\n"), "{out:?}");
    let one = out.find("fn one() {}").unwrap();
    let two = out.find("fn two() {}").unwrap();
    assert!(one < two);
}

#[test]
fn differing_code_keeps_its_markers() {
    let input = "<<<<<<< A\nuse a::b;\nfn x() {}\n=======\nuse a::c;\nfn y() {}\n>>>>>>> B\n";
    let out = run(input);
    assert_eq!(out, "use a::{b, c};\n\n<<<<<<< A\nfn x() {}\n=======\nfn y() {}\n>>>>>>> B\n");
}

#[test]
fn identical_rest_collapses() {
    let input = "<<<<<<< A\nuse a::b;\nfn x() {}\n=======\nuse a::c;\nfn x() {}\n>>>>>>> B\n";
    let out = run(input);
    assert_eq!(out, "use a::{b, c};\n\nfn x() {}\n");
}

#[test]
fn visibility_conditions_and_groups() {
    let input = "use crate::z;\npub use a::b;\nuse a::c;\n#[cfg(test)]\nuse std::fmt;\nuse self::q;\nuse super::w;\nuse ::rooted::r;\n";
    let out = run(input);
    let expected = "use ::rooted::r;\npub use a::b;\nuse a::c;\n\nuse crate::z;\n\nuse super::w;\n\nuse self::q;\n\n";
    let std_pos = out.find("#[cfg(test)]").unwrap();
    assert!(std_pos < out.find("use ::rooted::r;").unwrap(), "{out:?}");
    assert!(out.ends_with(expected), "{out:?}");
}

#[test]
fn self_and_renames_are_grouped() {
    let out = run("use a::b;\nuse a::b::c;\nuse a::b as d;\n");
    assert_eq!(out, "use a::b::{self, self as d, c};\n\n");
}

#[test]
fn unhandled_declarations_are_left_alone() {
    let out = run("#[allow(unused)]\nuse a::b;\nuse a::c;\n");
    assert!(out.contains("#[allow(unused)]\nuse a::b;\n"), "{out:?}");
    assert!(out.contains("use a::c;"), "{out:?}");
}

#[test]
fn no_imports_leave_the_file_as_it_is() {
    assert_eq!(run("fn main() {}\n"), "fn main() {}\n");
}

#[test]
fn bad_markers_are_reported() {
    assert_eq!(
        fix_with_prettyplease("a\n=======\n").unwrap_err(),
        FixError::ConflictParse(LineNumber(2))
    );
}

#[test]
fn bad_rust_is_reported_by_side() {
    match prepare("<<<<<<< A\nfn (\n=======\nfn x() {}\n>>>>>>> B\n") {
        Err(FixError::SyntaxParse(e)) => {
            assert_eq!(e.side, Side::Left);
            assert_eq!(e.line, 1);
        }
        other => panic!("expected a syntax error, got {:?}", other.map(|_| ())),
    }
    match prepare("<<<<<<< A\nfn x() {}\n=======\nfn (\n>>>>>>> B\n") {
        Err(FixError::SyntaxParse(e)) => assert_eq!(e.side, Side::Right),
        other => panic!("expected a syntax error, got {:?}", other.map(|_| ())),
    }
}

#[test]
fn prepared_lines_and_text() {
    let p = prepare("use b::x;\nuse a::y;\n\nfn f() {}\n").unwrap();
    assert_eq!(p.formatted_use_items, b"use a::y;\nuse b::x;\n".to_vec());
    assert!(p.discarded_lines.contains(LineNumber(1)));
    assert!(p.discarded_lines.contains(LineNumber(2)));
    assert!(p.discarded_lines.contains(LineNumber(3)));
    assert!(!p.discarded_lines.contains(LineNumber(4)));
}

#[test]
fn formatter_reformats_groups() {
    let out = prettify_with_prettyplease(b"use a::{b, c, };\n\nuse x::y;\n").unwrap();
    assert_eq!(out, b"use a::{b, c};\n\nuse x::y;\n\n".to_vec());
    assert_eq!(prettify_with_prettyplease(b"").unwrap(), Vec::<u8>::new());
    assert!(prettify_with_prettyplease(b"use (;\n").is_err());
    assert_eq!(prettify_with_prettyplease(b"use a;\n\nfn f();\n").unwrap_err().group, 1);
    assert!(prettify_with_prettyplease(b"static X: u8;\n").is_err());
}

#[test]
fn groups_split_on_blank_lines() {
    assert_eq!(split_groups(b"a\n\nb\n\n\nc"), vec![b"a".to_vec(), b"b".to_vec(), b"\nc".to_vec()]);
    assert_eq!(split_groups(b""), vec![Vec::<u8>::new()]);
    assert_eq!(assemble_groups(&vec![b"a \n".to_vec(), b"b".to_vec()]), b"a\n\nb\n\n".to_vec());
}

#[test]
fn anchor_splits_a_conflict_in_two() {
    let input = "<<<<<<< A\nfn a() {}\nuse x::y;\nfn b() {}\n=======\nfn c() {}\nuse x::z;\nfn d() {}\n>>>>>>> B\n";
    let out = run(input);
    assert_eq!(
        out,
        "<<<<<<< A\nfn a() {}\n=======\nfn c() {}\n>>>>>>> B\nuse x::{y, z};\n\n<<<<<<< A\nfn b() {}\n=======\nfn d() {}\n>>>>>>> B\n"
    );
}

#[test]
fn unicode_blank_line_after_an_import_is_taken() {
    let p = prepare("use a::b;\n\u{a0}\u{3000}\nfn f() {}\n").unwrap();
    assert!(p.discarded_lines.contains(LineNumber(1)));
    assert!(p.discarded_lines.contains(LineNumber(2)));
    assert!(!p.discarded_lines.contains(LineNumber(3)));
}
