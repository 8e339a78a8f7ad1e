//! The surface syntax of a `use` declaration, as plain values read off the
//! parsed source.
use vstd::prelude::*;

use crate::tree::PathText;

verus! {

/// The tree of a `use` declaration, as written.
#[derive(Debug)]
pub enum ImportTree {
    /// `ident::tree`
    Path(Vec<u8>, Box<ImportTree>),
    /// `ident`
    Name(Vec<u8>),
    /// `ident as alias`
    Rename(Vec<u8>, Vec<u8>),
    /// `*`
    Glob,
    /// `{a, b, ...}`
    Group(Vec<ImportTree>),
}

/// The value of a `name = value` attribute.
#[derive(Debug)]
pub enum AttrValue {
    /// A string literal, with the number of attributes of its own.
    Str { attr_count: usize, value: Vec<u8> },
    /// Any other expression.
    Other,
}

/// What an attribute holds.
#[derive(Debug)]
pub enum AttrMeta {
    /// `#[path]`
    Path,
    /// `#[path(tokens)]`, `#[path[tokens]]` or `#[path{tokens}]`
    List { path: PathText, paren: bool, tokens: Vec<u8> },
    /// `#[path = value]`
    NameValue { path: PathText, value: AttrValue },
}

/// One attribute of an item.
#[derive(Debug)]
pub struct AttrSyntax {
    /// `#![...]` rather than `#[...]`
    pub inner: bool,
    pub meta: AttrMeta,
}

/// The visibility of an item, as written.
#[derive(Debug)]
pub enum RawVisibility {
    /// No visibility.
    Inherited,
    /// `pub`
    Public,
    /// `pub(path)` or `pub(in path)`
    Restricted { in_token: bool, path: PathText },
}

/// A `use` declaration as written, with the first and last line it spans.
#[derive(Debug)]
pub struct RawUseItem {
    pub attrs: Vec<AttrSyntax>,
    pub vis: RawVisibility,
    pub leading_colon: bool,
    pub tree: ImportTree,
    pub start_line: usize,
    pub end_line: usize,
}

/// The tree of a `use` declaration as plain values.
pub enum TreeView {
    Path(Seq<u8>, Box<TreeView>),
    Name(Seq<u8>),
    Rename(Seq<u8>, Seq<u8>),
    Glob,
    Group(Seq<TreeView>),
}

pub open spec fn tree_view(t: ImportTree) -> TreeView
    decreases t,
{
    match t {
        ImportTree::Path(id, sub) => TreeView::Path(id@, Box::new(tree_view(*sub))),
        ImportTree::Name(id) => TreeView::Name(id@),
        ImportTree::Rename(id, alias) => TreeView::Rename(id@, alias@),
        ImportTree::Glob => TreeView::Glob,
        ImportTree::Group(ts) => TreeView::Group(trees_view(ts@)),
    }
}

pub open spec fn trees_view(ts: Seq<ImportTree>) -> Seq<TreeView>
    decreases ts,
{
    if ts.len() == 0 {
        seq![]
    } else {
        trees_view(ts.subrange(0, ts.len() - 1)).push(tree_view(ts[ts.len() - 1]))
    }
}

impl View for ImportTree {
    type V = TreeView;

    open spec fn view(&self) -> TreeView {
        tree_view(*self)
    }
}

/// The value of a `name = value` attribute as plain values.
pub enum ValueView {
    Str(usize, Seq<u8>),
    Other,
}

/// What an attribute holds, as plain values.
pub enum MetaView {
    Path,
    List((bool, Seq<Seq<u8>>), bool, Seq<u8>),
    NameValue((bool, Seq<Seq<u8>>), ValueView),
}

/// An attribute as plain values: whether it is inner, and what it holds.
pub type AttrView = (bool, MetaView);

impl View for AttrSyntax {
    type V = AttrView;

    open spec fn view(&self) -> AttrView {
        (self.inner, match self.meta {
            AttrMeta::Path => MetaView::Path,
            AttrMeta::List { path, paren, tokens } => MetaView::List(path@, paren, tokens@),
            AttrMeta::NameValue { path, value } => MetaView::NameValue(path@, match value {
                AttrValue::Str { attr_count, value } => ValueView::Str(attr_count, value@),
                AttrValue::Other => ValueView::Other,
            }),
        })
    }
}

pub open spec fn attr_views(attrs: Seq<AttrSyntax>) -> Seq<AttrView> {
    attrs.map_values(|a: AttrSyntax| a@)
}

/// A visibility as written, as plain values.
pub enum RawVisView {
    Inherited,
    Public,
    Restricted(bool, (bool, Seq<Seq<u8>>)),
}

impl View for RawVisibility {
    type V = RawVisView;

    open spec fn view(&self) -> RawVisView {
        match self {
            RawVisibility::Inherited => RawVisView::Inherited,
            RawVisibility::Public => RawVisView::Public,
            RawVisibility::Restricted { in_token, path } => RawVisView::Restricted(*in_token, path@),
        }
    }
}

/// A `use` declaration as written, as plain values: attributes, visibility,
/// leading `::`, tree, first and last line.
pub type RawView = (Seq<AttrView>, RawVisView, bool, TreeView, usize, usize);

impl View for RawUseItem {
    type V = RawView;

    open spec fn view(&self) -> RawView {
        (attr_views(self.attrs@), self.vis@, self.leading_colon, self.tree@, self.start_line, self.end_line)
    }
}

} // verus!
