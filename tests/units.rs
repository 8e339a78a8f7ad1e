use usefix::common::{NameUse, Rooted};
use usefix::docprint::{categorize_doc, contains_balanced_blocks, DocCategory};
use usefix::flattened::{
    build_use_item_children_root, NormalizedUsedItems, SingleUsedItem, UsedItemLeaf, UsedItemPropertiesGroup,
};
use usefix::state::{LinesBuffer, ParseFrame, ParseStack, ParseState};
use usefix::syntax::{AttrMeta, AttrSyntax, AttrValue, ImportTree, RawUseItem, RawVisibility};
use usefix::tree::{Config, merge_visibilities, ConfigsList, CreateUseItemError, DocsList, PathText, UseItem, Visibility};
use usefix::parsers::Identifier;
use usefix::write_file::{PrintableConflict, PrintableConflictHalf};

fn b(s: &str) -> Vec<u8> {
    s.as_bytes().to_vec()
}

fn docs(blocks: &[&str]) -> DocsList {
    DocsList { blocks: blocks.iter().map(|s| b(s)).collect() }
}

fn path(segs: &[&str]) -> PathText {
    PathText { leading_colon: false, segments: segs.iter().map(|s| b(s)).collect() }
}

fn item(attrs: Vec<AttrSyntax>, vis: RawVisibility, tree: ImportTree) -> RawUseItem {
    RawUseItem { attrs, vis, leading_colon: false, tree, start_line: 1, end_line: 1 }
}

fn name(s: &str) -> ImportTree {
    ImportTree::Name(b(s))
}

#[test]
fn docs_combine_keeps_the_longer_or_joins() {
    let mut d = docs(&[" a"]);
    d.combine(&docs(&[" a", " b"]));
    assert_eq!(d.blocks, vec![b(" a"), b(" b")]);
    let mut d = docs(&[" x"]);
    d.combine(&docs(&[" y"]));
    assert_eq!(d.blocks, vec![b(" x"), b(" y")]);
    let mut d = docs(&["tail end"]);
    d.combine(&docs(&["end"]));
    assert_eq!(d.blocks, vec![b("tail end")]);
    assert!(docs(&["", "x"]).is_not_empty());
    assert!(!docs(&["", ""]).is_not_empty());
    assert_eq!(docs(&["ab", "c"]).len(), 3);
}

#[test]
fn more_public_visibility_wins() {
    let crate_vis = Some(Visibility::Crate);
    let this = Some(Visibility::This);
    assert!(matches!(merge_visibilities(&crate_vis, &this), Some(Visibility::Crate)));
    assert!(matches!(merge_visibilities(&None, &this), Some(Visibility::This)));
    assert!(matches!(merge_visibilities(&Some(Visibility::Public), &crate_vis), Some(Visibility::Public)));
    let long = Some(Visibility::In(path(&["a", "b"])));
    let short = Some(Visibility::In(path(&["a"])));
    match merge_visibilities(&long, &short) {
        Some(Visibility::In(p)) => assert_eq!(p.segments.len(), 1),
        _ => panic!("expected a restricted visibility"),
    }
    assert!(merge_visibilities(&None, &None).is_none());
}

#[test]
fn configs_stay_sorted_and_distinct() {
    let mut c = ConfigsList::empty();
    assert!(c.is_empty());
    c.insert(b("unix"));
    c.insert(b("test"));
    c.insert(b("unix"));
    assert_eq!(c.configs(), &[b("test"), b("unix")][..]);
}

#[test]
fn attributes_decide_whether_an_item_is_handled() {
    let cfg = AttrSyntax { inner: false, meta: AttrMeta::List { path: path(&["cfg"]), paren: true, tokens: b("unix") } };
    let doc = AttrSyntax {
        inner: false,
        meta: AttrMeta::NameValue { path: path(&["doc"]), value: AttrValue::Str { attr_count: 0, value: b(" hi") } },
    };
    let ok = UseItem::from_syn_use_item(&item(vec![cfg, doc], RawVisibility::Public, name("a"))).unwrap();
    assert_eq!(ok.configs.configs, vec![b("unix")]);
    assert_eq!(ok.docs.blocks, vec![b(" hi")]);
    assert!(matches!(ok.visibility, Some(Visibility::Public)));

    let inner = AttrSyntax { inner: true, meta: AttrMeta::Path };
    assert_eq!(
        UseItem::from_syn_use_item(&item(vec![inner], RawVisibility::Inherited, name("a"))).unwrap_err(),
        CreateUseItemError::InnerAttributes
    );
    let other = AttrSyntax { inner: false, meta: AttrMeta::Path };
    assert_eq!(
        UseItem::from_syn_use_item(&item(vec![other], RawVisibility::Inherited, name("a"))).unwrap_err(),
        CreateUseItemError::UnrecognizedAttribute
    );
    let bad_doc = AttrSyntax { inner: false, meta: AttrMeta::NameValue { path: path(&["doc"]), value: AttrValue::Other } };
    assert_eq!(
        UseItem::from_syn_use_item(&item(vec![bad_doc], RawVisibility::Inherited, name("a"))).unwrap_err(),
        CreateUseItemError::MalformedDocAttribute
    );
    let vis = RawVisibility::Restricted { in_token: false, path: path(&["foo"]) };
    assert_eq!(
        UseItem::from_syn_use_item(&item(vec![], vis, name("a"))).unwrap_err(),
        CreateUseItemError::MalformedVisibility
    );
    assert_eq!(
        UseItem::from_syn_use_item(&item(vec![], RawVisibility::Inherited, ImportTree::Glob)).unwrap_err(),
        CreateUseItemError::UseStar
    );
    let vis = RawVisibility::Restricted { in_token: false, path: path(&["super"]) };
    let ok = UseItem::from_syn_use_item(&item(vec![], vis, name("a"))).unwrap();
    assert!(matches!(ok.visibility, Some(Visibility::Super)));
}

#[test]
fn trees_flatten_with_self_folded() {
    // a::{self, b::*, c as d}
    let tree = ImportTree::Path(
        b("a"),
        Box::new(ImportTree::Group(vec![
            name("self"),
            ImportTree::Path(b("b"), Box::new(ImportTree::Glob)),
            ImportTree::Rename(b("c"), b("d")),
        ])),
    );
    let mut out = Vec::new();
    assert!(build_use_item_children_root(&tree, Rooted::Unrooted, &mut out));
    assert_eq!(out.len(), 3);
    assert!(out[0].path.is_empty());
    assert!(matches!(&out[0].leaf, UsedItemLeaf::Plain(n, NameUse::Used) if *n == b("a")));
    assert_eq!(out[1].path, vec![b("a"), b("b")]);
    assert!(matches!(out[1].leaf, UsedItemLeaf::Wildcard));
    assert_eq!(out[2].path, vec![b("a")]);
    assert!(matches!(&out[2].leaf, UsedItemLeaf::Plain(n, NameUse::Renamed(r)) if *n == b("c") && *r == b("d")));
}

#[test]
fn subsumption_of_leaves() {
    let wild = SingleUsedItem { rooted: Rooted::Unrooted, path: vec![b("a")], leaf: UsedItemLeaf::Wildcard };
    let name = SingleUsedItem { rooted: Rooted::Unrooted, path: vec![b("a")], leaf: UsedItemLeaf::Plain(b("T"), NameUse::Used) };
    let anon = SingleUsedItem {
        rooted: Rooted::Unrooted,
        path: vec![b("a")],
        leaf: UsedItemLeaf::Plain(b("T"), NameUse::Renamed(b("_"))),
    };
    let renamed = SingleUsedItem {
        rooted: Rooted::Unrooted,
        path: vec![b("a")],
        leaf: UsedItemLeaf::Plain(b("T"), NameUse::Renamed(b("U"))),
    };
    assert!(name.is_subsumed_by(&wild));
    assert!(anon.is_subsumed_by(&wild));
    assert!(anon.is_subsumed_by(&name));
    assert!(!renamed.is_subsumed_by(&wild));
    assert!(!wild.is_subsumed_by(&name));
    let rooted = SingleUsedItem { rooted: Rooted::Rooted, path: vec![b("a")], leaf: UsedItemLeaf::Plain(b("T"), NameUse::Used) };
    assert!(!rooted.is_subsumed_by(&wild));
}

#[test]
fn unconditional_import_takes_in_every_group() {
    let mut n = NormalizedUsedItems::new();
    let p = SingleUsedItem { rooted: Rooted::Unrooted, path: vec![b("a")], leaf: UsedItemLeaf::Plain(b("b"), NameUse::Used) };
    let mut unix = ConfigsList::empty();
    unix.insert(b("unix"));
    n.add_single(&p, &unix, &Some(Visibility::Crate), &docs(&[]));
    assert_eq!(n.items[0].groups.len(), 1);
    n.add_single(&p, &ConfigsList::empty(), &None, &docs(&[" d"]));
    assert_eq!(n.items.len(), 1);
    assert_eq!(n.items[0].groups.len(), 1);
    assert!(n.items[0].groups[0].configs.is_empty());
    assert!(matches!(n.items[0].groups[0].props.visibility, Some(Visibility::Crate)));
    assert_eq!(n.items[0].groups[0].props.docs.blocks, vec![b(" d")]);
    let mut g = UsedItemPropertiesGroup::new();
    g.merge(&Some(Visibility::Super), &docs(&["x"]));
    assert!(matches!(g.visibility, Some(Visibility::Super)));
}

#[test]
fn doc_blocks_are_categorized() {
    assert_eq!(categorize_doc(b" one line"), DocCategory::SingleLine);
    assert_eq!(categorize_doc(b" two\n lines /* ok */"), DocCategory::Block);
    assert_eq!(categorize_doc(b" two\n lines */"), DocCategory::Attribute);
    assert!(contains_balanced_blocks(b"/* a /* b */ */"));
    assert!(!contains_balanced_blocks(b"/* a"));
    assert!(!contains_balanced_blocks(b"/*/"));
    assert!(!contains_balanced_blocks(b"*/"));
}

#[test]
fn lines_buffer_keeps_or_drops_lines() {
    let mut buf = LinesBuffer::new();
    buf.push(b("a\n"));
    buf.push(b("b\n"));
    buf.push(b("\n"));
    let mut dest = vec![b("x\n")];
    buf.flush_to(&mut dest);
    assert_eq!(dest, vec![b("x\n"), b("a\n"), b("b\n"), b("\n")]);
    assert!(buf.lines.is_empty());
    buf.push(b("a\n"));
    buf.push(b("b\n"));
    buf.push(b(" \n"));
    buf.discard_block();
    assert_eq!(buf.lines, vec![b(" \n")]);
    buf.push(b("\t\n"));
    buf.discard_block();
    assert_eq!(buf.lines, vec![b(" \n"), b("\t\n")]);
    buf.push(b("x\n"));
    buf.discard_block();
    assert!(buf.lines.is_empty());
    buf.discard();
    assert!(buf.lines.is_empty());
}

#[test]
fn parse_stack_tracks_paths_and_blocks() {
    let ident = |s: &str| ParseFrame::Identifier(Identifier { raw: s.to_string() });
    let mut stack = ParseStack::new();
    assert!(matches!(stack.top(), ParseFrame::Top));
    stack.push(ParseFrame::Use);
    stack.push(ParseFrame::PathSeparator);
    stack.push(ident("a"));
    stack.push(ParseFrame::BlockStart);
    stack.push(ident("self"));
    stack.push(ident("b"));
    assert!(stack.rooted());
    assert!(stack.in_block());
    assert!(stack.in_path());
    let names: Vec<String> = stack.path().iter().map(|i| i.raw.clone()).collect();
    assert_eq!(names, vec!["a".to_string(), "b".to_string()]);
    stack.pop_to_block_start();
    assert!(matches!(stack.top(), ParseFrame::BlockStart));
    stack.end_block();
    assert!(matches!(stack.top(), ParseFrame::Identifier(_)));
    assert!(!stack.in_block());
}

#[test]
fn parse_state_collects_declarations() {
    let mut state = ParseState::new();
    state.finish_use_item();
    assert!(state.uses.is_empty());
    state.start_use_item(Some(Visibility::Public));
    assert!(state.current_use_item.is_some());
    state.start_use_item(None);
    assert_eq!(state.uses.len(), 1);
    assert!(matches!(state.uses[0].visibility, Some(Visibility::Public)));
    state.finish_use_item();
    assert_eq!(state.uses.len(), 2);
    assert!(state.current_use_item.is_none());
}

#[test]
fn config_is_written_as_an_attribute() {
    assert_eq!(Config(b("unix")).to_text(), b("#[cfg(unix)]"));
}

#[test]
fn conflict_lines_are_mapped_on_both_sides() {
    let c = PrintableConflict {
        left: PrintableConflictHalf { name: b("A"), lines: vec![b("x\n"), b("y\n")] },
        right: PrintableConflictHalf { name: b("B"), lines: vec![b("z\n")] },
    };
    let m = c.map_lines(|mut ls: Vec<Vec<u8>>| {
        ls.reverse();
        ls
    });
    assert_eq!(m.left.name, b("A"));
    assert_eq!(m.left.lines, vec![b("y\n"), b("x\n")]);
    assert_eq!(m.right.lines, vec![b("z\n")]);
}
