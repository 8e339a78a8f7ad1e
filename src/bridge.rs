//! The calls into `syn`, `proc-macro2` and `prettyplease`: parsing source
//! text, reading the syntax of a `use` declaration off the parse, and
//! printing a parsed file back. Each reads or converts values one for one;
//! every decision on them is made by the verified code around them.
use vstd::prelude::*;

use crate::syntax::{AttrMeta, AttrSyntax, AttrValue, ImportTree, RawUseItem, RawView, RawVisibility};
use crate::tree::PathText;

verus! {

#[verifier::external_type_specification]
#[verifier::external_body]
pub struct ExItemUse(syn::ItemUse);

#[verifier::external_type_specification]
#[verifier::external_body]
pub struct ExUseTree(syn::UseTree);

#[verifier::external_type_specification]
#[verifier::external_body]
pub struct ExAttribute(syn::Attribute);

#[verifier::external_type_specification]
#[verifier::external_body]
pub struct ExExpr(syn::Expr);

#[verifier::external_type_specification]
#[verifier::external_body]
pub struct ExPath(syn::Path);

/// The longest text handed to the parser. Source positions are kept in
/// `u32`, and every parse here starts them afresh.
pub const PARSE_LIMIT: usize = 1073741824;

/// The text parses as a Rust source file.
pub uninterp spec fn parses(text: Seq<u8>) -> bool;

/// The top-level items of the parsed text, in order: the syntax of each
/// `use` declaration, `None` for any other item.
pub uninterp spec fn use_syntax(text: Seq<u8>) -> Seq<Option<RawView>>;

/// Where the parse of the text fails, as a (one-indexed) line and a column.
pub uninterp spec fn parse_error(text: Seq<u8>) -> (usize, usize);

/// The text parses as `use` declarations alone, without inner attributes
/// and without `name = value` attributes, which the printer takes.
pub uninterp spec fn formats(text: Seq<u8>) -> bool;

/// The text as the printer writes it back.
pub uninterp spec fn pretty(text: Seq<u8>) -> Seq<u8>;

pub open spec fn raw_opt_views(v: Seq<Option<RawUseItem>>) -> Seq<Option<RawView>> {
    v.map_values(|o: Option<RawUseItem>| match o {
        Some(r) => Some(r@),
        None => None,
    })
}

/// Relies on `syn::parse_file` (then `proc_macro2::extra::invalidate_current_thread_spans`,
/// so that the next parse starts its source positions afresh): the syntax of
/// the top-level items of the text, or where its parse fails.
#[verifier::external_body]
pub(crate) fn read_use_items(text: &[u8]) -> (r: Result<Vec<Option<RawUseItem>>, (usize, usize)>)
    requires
        text@.len() <= PARSE_LIMIT,
    ensures
        r is Ok <==> parses(text@),
        r is Ok ==> raw_opt_views(r->Ok_0@) == use_syntax(text@),
        r is Err ==> r->Err_0 == parse_error(text@),
{
    let r = match syn::parse_file(&String::from_utf8_lossy(text)) {
        Ok(file) => Ok(file.items.iter().map(|item| match item {
            syn::Item::Use(u) => Some(use_item_syntax(u)),
            _ => None,
        }).collect()),
        Err(e) => Err((e.span().start().line, e.span().start().column)),
    };
    proc_macro2::extra::invalidate_current_thread_spans();
    r
}

/// Relies on `syn::parse_file` and `prettyplease::unparse` (which takes
/// `use` declarations without `name = value` attributes), then
/// `proc_macro2::extra::invalidate_current_thread_spans`: the text formatted.
#[verifier::external_body]
pub(crate) fn format_group(text: &[u8]) -> (r: Option<Vec<u8>>)
    requires
        text@.len() <= PARSE_LIMIT,
    ensures
        r is Some <==> formats(text@),
        r is Some ==> r->Some_0@ == pretty(text@),
{
    let r = match syn::parse_file(&String::from_utf8_lossy(text)) {
        Ok(f) if f.attrs.is_empty() && f.items.iter().all(|i| matches!(i, syn::Item::Use(u)
            if u.attrs.iter().all(|a| !matches!(a.meta, syn::Meta::NameValue(_))))) => {
            Some(prettyplease::unparse(&f).into_bytes())
        },
        _ => None,
    };
    proc_macro2::extra::invalidate_current_thread_spans();
    r
}

/// Relies on `syn::spanned::Spanned::span` and `proc_macro2::Span::start`
/// and `end`: the first and last (one-indexed) line of the declaration.
#[verifier::external_body]
pub(crate) fn item_lines(item: &syn::ItemUse) -> (r: (usize, usize)) {
    let span = syn::spanned::Spanned::span(item);
    (span.start().line, span.end().line)
}

/// Relies on `syn::Path`'s fields: whether it has a leading `::`, and the
/// identifier of each segment (through `proc_macro2::Ident`'s `to_string`).
#[verifier::external_body]
pub(crate) fn path_of(path: &syn::Path) -> (r: PathText) {
    PathText {
        leading_colon: path.leading_colon.is_some(),
        segments: path.segments.iter().map(|s| s.ident.to_string().into_bytes()).collect(),
    }
}

/// The visibility of a declaration, its path still to be read.
pub(crate) enum VisibilityParts<'a> {
    Inherited,
    Public,
    Restricted { in_token: bool, path: &'a syn::Path },
}

/// Relies on `syn::ItemUse::vis` and `syn::Visibility`'s variants: no
/// visibility, `pub`, or `pub(path)` / `pub(in path)`.
#[verifier::external_body]
pub(crate) fn visibility_parts(item: &syn::ItemUse) -> (r: VisibilityParts<'_>) {
    match &item.vis {
        syn::Visibility::Inherited => VisibilityParts::Inherited,
        syn::Visibility::Public(_) => VisibilityParts::Public,
        syn::Visibility::Restricted(r) => VisibilityParts::Restricted { in_token: r.in_token.is_some(), path: &r.path },
    }
}

/// Relies on `syn::ItemUse::leading_colon`: whether the tree starts with `::`.
#[verifier::external_body]
pub(crate) fn has_leading_colon(item: &syn::ItemUse) -> (r: bool) {
    item.leading_colon.is_some()
}

/// Relies on `syn::ItemUse::tree`: the tree of the declaration.
#[verifier::external_body]
pub(crate) fn item_tree(item: &syn::ItemUse) -> (r: &syn::UseTree) {
    &item.tree
}

/// Relies on `syn::ItemUse::attrs`: the attributes of the declaration, in order.
#[verifier::external_body]
pub(crate) fn item_attrs(item: &syn::ItemUse) -> (r: &Vec<syn::Attribute>) {
    &item.attrs
}

/// Relies on `syn::UseTree`'s variants and `proc_macro2::Ident`'s
/// `to_string`: the tree of a `use` declaration as plain values.
#[verifier::external_body]
pub(crate) fn use_tree_of(tree: &syn::UseTree) -> (r: ImportTree) {
    match tree {
        syn::UseTree::Path(p) => ImportTree::Path(p.ident.to_string().into_bytes(), Box::new(use_tree_of(&p.tree))),
        syn::UseTree::Name(n) => ImportTree::Name(n.ident.to_string().into_bytes()),
        syn::UseTree::Rename(r) => ImportTree::Rename(r.ident.to_string().into_bytes(), r.rename.to_string().into_bytes()),
        syn::UseTree::Glob(_) => ImportTree::Glob,
        syn::UseTree::Group(g) => ImportTree::Group(g.items.iter().map(use_tree_of).collect()),
    }
}

/// Relies on `syn::Expr::Lit` and `syn::Lit::Str` (with `syn::LitStr::value`):
/// the value of a string literal, with the number of its own attributes.
#[verifier::external_body]
pub(crate) fn attr_value_of(expr: &syn::Expr) -> (r: AttrValue) {
    match expr {
        syn::Expr::Lit(syn::ExprLit { attrs, lit: syn::Lit::Str(s) }) => AttrValue::Str {
            attr_count: attrs.len(),
            value: s.value().into_bytes(),
        },
        _ => AttrValue::Other,
    }
}

/// What an attribute holds, its path and value still to be read.
pub(crate) enum MetaParts<'a> {
    Path,
    List { path: &'a syn::Path, paren: bool, tokens: Vec<u8> },
    NameValue { path: &'a syn::Path, value: &'a syn::Expr },
}

/// Relies on `syn::Attribute::meta`, `syn::Meta`'s variants,
/// `syn::MacroDelimiter::Paren` and `proc_macro2::TokenStream`'s
/// `to_string`: what an attribute holds.
#[verifier::external_body]
pub(crate) fn meta_parts(attr: &syn::Attribute) -> (r: MetaParts<'_>) {
    match &attr.meta {
        syn::Meta::Path(_) => MetaParts::Path,
        syn::Meta::List(l) => MetaParts::List {
            path: &l.path,
            paren: matches!(l.delimiter, syn::MacroDelimiter::Paren(_)),
            tokens: l.tokens.to_string().into_bytes(),
        },
        syn::Meta::NameValue(nv) => MetaParts::NameValue { path: &nv.path, value: &nv.value },
    }
}

/// Relies on `syn::Attribute::style`: whether it is an inner attribute (`#!`).
#[verifier::external_body]
pub(crate) fn is_inner(attr: &syn::Attribute) -> (r: bool) {
    matches!(attr.style, syn::AttrStyle::Inner(_))
}

/// An attribute as plain values.
pub(crate) fn attribute_of(attr: &syn::Attribute) -> (r: AttrSyntax) {
    let meta = match meta_parts(attr) {
        MetaParts::Path => AttrMeta::Path,
        MetaParts::List { path, paren, tokens } => AttrMeta::List { path: path_of(path), paren, tokens },
        MetaParts::NameValue { path, value } => AttrMeta::NameValue { path: path_of(path), value: attr_value_of(value) },
    };
    AttrSyntax { inner: is_inner(attr), meta }
}

/// The syntax of a `use` declaration as plain values, with the lines it spans.
pub(crate) fn use_item_syntax(item: &syn::ItemUse) -> (r: RawUseItem) {
    let (start_line, end_line) = item_lines(item);
    let vis = match visibility_parts(item) {
        VisibilityParts::Inherited => RawVisibility::Inherited,
        VisibilityParts::Public => RawVisibility::Public,
        VisibilityParts::Restricted { in_token, path } => RawVisibility::Restricted { in_token, path: path_of(path) },
    };
    let syn_attrs = item_attrs(item);
    let mut attrs: Vec<AttrSyntax> = Vec::new();
    let mut i: usize = 0;
    while i < syn_attrs.len()
        invariant
            0 <= i <= syn_attrs@.len(),
        decreases syn_attrs@.len() - i,
    {
        attrs.push(attribute_of(&syn_attrs[i]));
        i = i + 1;
    }
    RawUseItem {
        attrs,
        vis,
        leading_colon: has_leading_colon(item),
        tree: use_tree_of(item_tree(item)),
        start_line,
        end_line,
    }
}

} // verus!
