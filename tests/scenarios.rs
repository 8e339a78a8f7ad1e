use usefix::fix::fix_with_prettyplease;

fn run(input: &str) -> String {
    let out = fix_with_prettyplease(input).expect("the merge succeeds");
    String::from_utf8(out).expect("the output is text")
}

#[test]
fn two_sides_merge_into_one_group() {
    let out = run("<<<<<<< HEAD\nuse a::b;\n=======\nuse a::c;\n>>>>>>> other\n");
    assert!(!out.contains("<<<<<<<"));
    assert!(!out.contains("======="));
    assert!(!out.contains(">>>>>>>"));
    assert!(out.contains("use a::{b, c};"), "{out:?}");
}

#[test]
fn wildcard_takes_in_a_name() {
    let out = run("<<<<<<< HEAD\nuse a::*;\n=======\nuse a::b;\n>>>>>>> other\n");
    assert_eq!(out.trim_end(), "use a::*;");
}

#[test]
fn name_takes_in_its_underscore_rename() {
    let out = run("<<<<<<< HEAD\nuse a::Trait as _;\n=======\nuse a::Trait;\n>>>>>>> other\n");
    assert_eq!(out.trim_end(), "use a::Trait;");
}

#[test]
fn unconditional_takes_in_conditional() {
    let out = run("<<<<<<< HEAD\n#[cfg(unix)]\nuse a::b;\n=======\nuse a::b;\n>>>>>>> other\n");
    assert_eq!(out.trim_end(), "use a::b;");
}

#[test]
fn standard_library_group_comes_first() {
    let out = run("use my_crate::x;\nuse std::io;\n");
    assert_eq!(out, "use std::io;\n\nuse my_crate::x;\n\n");
}

#[test]
fn one_sided_conflicts_get_the_block_twice() {
    let input = "<<<<<<< A\nuse a::b;\n=======\n>>>>>>> B\nfn f() {}\n<<<<<<< A\n=======\nuse c::d;\n>>>>>>> B\n";
    let out = run(input);
    assert_eq!(out.matches("use a::b;").count(), 2, "{out:?}");
    assert_eq!(out.matches("use c::d;").count(), 2, "{out:?}");
    assert!(out.contains("fn f() {}"));
    let first = out.find("<<<<<<< A").unwrap();
    let second = out.rfind("<<<<<<< A").unwrap();
    assert!(first < second);
}
