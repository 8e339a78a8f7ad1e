//! A flattened form of `use` declarations: one entry per imported item, a
//! path and a leaf, instead of a tree.
//!
//! ```text
//! use a::{b::{self, c}, d as e, f::*};
//! ```
//!
//! becomes `a::b`, `a::b::c`, `a::d as e` and `a::f::*`.
use vstd::prelude::*;

use crate::bytes::{bytes_eq, copy_bytes};
use crate::common::{NameUse, Rooted};
use crate::syntax::{trees_view, ImportTree, TreeView};
use crate::tree::{all_eq, combine_docs, copy_all, duplicate_visibility, merge_vis, merge_visibilities, opt_vis_view, same_visibility, seg_views, ConfigsList, DocsList, UseItem, Visibility, VisibilityView};

verus! {

/// The last part of a flattened import: a name, kept or renamed, or `*`.
#[derive(Debug)]
pub enum UsedItemLeaf {
    Wildcard,
    Plain(Vec<u8>, NameUse),
}

/// A leaf as plain values: `None` for `*`, else the name and its alias.
pub type LeafView = Option<(Seq<u8>, Option<Seq<u8>>)>;

/// A flattened import as plain values: rooted, the path before the leaf, the leaf.
pub type PathView = (bool, Seq<Seq<u8>>, LeafView);

impl View for UsedItemLeaf {
    type V = LeafView;

    open spec fn view(&self) -> LeafView {
        match self {
            UsedItemLeaf::Wildcard => None,
            UsedItemLeaf::Plain(n, u) => Some((n@, u@)),
        }
    }
}

/// A complete path of a flattened import.
#[derive(Debug)]
pub struct SingleUsedItem {
    /// Whether there is a leading `::`
    pub rooted: Rooted,
    /// The path segments before the leaf
    pub path: Vec<Vec<u8>>,
    /// The item being imported
    pub leaf: UsedItemLeaf,
}

impl View for SingleUsedItem {
    type V = PathView;

    open spec fn view(&self) -> PathView {
        (self.rooted == Rooted::Rooted, seg_views(self.path@), self.leaf@)
    }
}

pub open spec fn item_views(s: Seq<SingleUsedItem>) -> Seq<PathView> {
    s.map_values(|i: SingleUsedItem| i@)
}

/// The alias `_`.
pub open spec fn underscore() -> Seq<u8> {
    seq![95u8]
}

/// The word `self`.
pub open spec fn self_word() -> Seq<u8> {
    seq![115u8, 101, 108, 102]
}

/// `*` takes in every name imported under its own name and every name
/// imported as `_`; a name takes in the same name imported as `_`.
pub open spec fn leaf_subsumes(parent: LeafView, child: LeafView) -> bool {
    match (parent, child) {
        (None, Some((_, u))) => u is None || u == Some(underscore()),
        (Some((n1, None)), Some((n2, Some(a)))) => n1 == n2 && a == underscore(),
        _ => false,
    }
}

/// One import takes in another: same rootedness and path, and a leaf that
/// takes in the other's.
pub open spec fn subsumes(parent: PathView, child: PathView) -> bool {
    parent.0 == child.0 && parent.1 == child.1 && leaf_subsumes(parent.2, child.2)
}

impl UsedItemLeaf {
    pub fn duplicate(&self) -> (r: UsedItemLeaf)
        ensures
            r@ == self@,
    {
        match self {
            UsedItemLeaf::Wildcard => UsedItemLeaf::Wildcard,
            UsedItemLeaf::Plain(n, u) => UsedItemLeaf::Plain(copy_bytes(n.as_slice()), u.duplicate()),
        }
    }

    /// Whether this leaf can be dropped in favour of `possible_parent`.
    pub fn is_subsumed_by(&self, possible_parent: &Self) -> (r: bool)
        ensures
            r == leaf_subsumes(possible_parent@, self@),
    {
        let under: Vec<u8> = vec![95u8];
        proof {
            assert(under@ =~= underscore());
        }
        match (possible_parent, self) {
            (UsedItemLeaf::Wildcard, UsedItemLeaf::Plain(_, usage)) => match usage {
                NameUse::Used => true,
                NameUse::Renamed(renamed) => bytes_eq(renamed.as_slice(), under.as_slice()),
            },
            (UsedItemLeaf::Plain(name1, NameUse::Used), UsedItemLeaf::Plain(name2, NameUse::Renamed(renamed))) => {
                bytes_eq(name1.as_slice(), name2.as_slice()) && bytes_eq(renamed.as_slice(), under.as_slice())
            },
            _ => false,
        }
    }
}

impl SingleUsedItem {
    pub fn duplicate(&self) -> (r: SingleUsedItem)
        ensures
            r@ == self@,
    {
        SingleUsedItem { rooted: self.rooted, path: copy_all(&self.path), leaf: self.leaf.duplicate() }
    }

    /// Whether this path can be dropped in favour of `possible_parent`.
    pub fn is_subsumed_by(&self, possible_parent: &Self) -> (r: bool)
        ensures
            r == subsumes(possible_parent@, self@),
    {
        self.rooted == possible_parent.rooted && crate::tree::all_eq(&self.path, &possible_parent.path)
            && self.leaf.is_subsumed_by(&possible_parent.leaf)
    }
}

/// The imports of a tree under a path prefix (the prefix ends with the name
/// the tree hangs from). `self` names the prefix itself.
pub open spec fn flat_tree(rooted: bool, t: TreeView, prefix: Seq<Seq<u8>>) -> Seq<PathView>
    decreases t,
{
    match t {
        TreeView::Path(id, sub) => flat_tree(
            rooted,
            *sub,
            if id == self_word() {
                prefix
            } else {
                prefix.push(id)
            },
        ),
        TreeView::Name(id) => if id == self_word() {
            seq![(rooted, prefix.drop_last(), Some((prefix.last(), None)))]
        } else {
            seq![(rooted, prefix, Some((id, None)))]
        },
        TreeView::Rename(id, alias) => if id == self_word() {
            seq![(rooted, prefix.drop_last(), Some((prefix.last(), Some(alias))))]
        } else {
            seq![(rooted, prefix, Some((id, Some(alias))))]
        },
        TreeView::Glob => seq![(rooted, prefix, None)],
        TreeView::Group(ts) => flat_group(rooted, ts, prefix),
    }
}

pub open spec fn flat_group(rooted: bool, ts: Seq<TreeView>, prefix: Seq<Seq<u8>>) -> Seq<PathView>
    decreases ts,
{
    if ts.len() == 0 {
        seq![]
    } else {
        flat_group(rooted, ts.subrange(0, ts.len() - 1), prefix) + flat_tree(rooted, ts[ts.len() - 1], prefix)
    }
}

/// The imports of a tree at the root of a declaration, or `None` where it
/// imports `*` at the root.
pub open spec fn flat_root(rooted: bool, t: TreeView) -> Option<Seq<PathView>>
    decreases t,
{
    match t {
        TreeView::Path(id, sub) => Some(flat_tree(rooted, *sub, seq![id])),
        TreeView::Name(id) => Some(seq![(rooted, Seq::<Seq<u8>>::empty(), Some((id, None)))]),
        TreeView::Rename(id, alias) => Some(
            seq![(rooted, Seq::<Seq<u8>>::empty(), Some((id, Some(alias))))],
        ),
        TreeView::Glob => None,
        TreeView::Group(ts) => flat_root_group(rooted, ts),
    }
}

pub open spec fn flat_root_group(rooted: bool, ts: Seq<TreeView>) -> Option<Seq<PathView>>
    decreases ts,
{
    if ts.len() == 0 {
        Some(seq![])
    } else {
        match (flat_root_group(rooted, ts.subrange(0, ts.len() - 1)), flat_root(rooted, ts[ts.len() - 1])) {
            (Some(a), Some(b)) => Some(a + b),
            _ => None,
        }
    }
}

fn is_self(id: &Vec<u8>) -> (r: bool)
    ensures
        r == (id@ == self_word()),
{
    let word: Vec<u8> = vec![115u8, 101, 108, 102];
    proof {
        assert(word@ =~= self_word());
    }
    bytes_eq(id.as_slice(), word.as_slice())
}

fn push_item(out: &mut Vec<SingleUsedItem>, item: SingleUsedItem)
    ensures
        item_views(final(out)@) == item_views(old(out)@).push(item@),
{
    out.push(item);
    proof {
        assert(item_views(out@) =~= item_views(old(out)@).push(item@));
    }
}

fn drop_last_copy(prefix: &Vec<Vec<u8>>) -> (r: Vec<Vec<u8>>)
    requires
        prefix@.len() > 0,
    ensures
        seg_views(r@) == seg_views(prefix@).drop_last(),
{
    let mut r: Vec<Vec<u8>> = Vec::new();
    let mut i: usize = 0;
    while i < prefix.len() - 1
        invariant
            0 <= i < prefix@.len(),
            r@.len() == i,
            forall|j: int| 0 <= j < i ==> (#[trigger] r@[j])@ == prefix@[j]@,
        decreases prefix.len() - i,
    {
        r.push(copy_bytes(prefix[i].as_slice()));
        i = i + 1;
    }
    proof {
        assert(seg_views(r@) =~= seg_views(prefix@).drop_last());
    }
    r
}

/// Flatten a tree that hangs from a non-empty path prefix, appending its imports.
pub fn build_use_item_children_branches(
    tree: &ImportTree,
    rooted: Rooted,
    prefix: &Vec<Vec<u8>>,
    out: &mut Vec<SingleUsedItem>,
)
    requires
        prefix@.len() > 0,
    ensures
        item_views(final(out)@) == item_views(old(out)@) + flat_tree(
            rooted == Rooted::Rooted,
            tree@,
            seg_views(prefix@),
        ),
    decreases tree,
{
    let ghost r = rooted == Rooted::Rooted;
    let ghost p = seg_views(prefix@);
    match tree {
        ImportTree::Path(id, sub) => {
            if is_self(id) {
                build_use_item_children_branches(sub, rooted, prefix, out);
            } else {
                let mut longer = copy_all(prefix);
                longer.push(copy_bytes(id.as_slice()));
                proof {
                    assert(seg_views(longer@) =~= p.push(id@));
                }
                build_use_item_children_branches(sub, rooted, &longer, out);
            }
        },
        ImportTree::Name(id) => {
            let item = if is_self(id) {
                let last = copy_bytes(prefix[prefix.len() - 1].as_slice());
                SingleUsedItem { rooted, path: drop_last_copy(prefix), leaf: UsedItemLeaf::Plain(last, NameUse::Used) }
            } else {
                SingleUsedItem { rooted, path: copy_all(prefix), leaf: UsedItemLeaf::Plain(copy_bytes(id.as_slice()), NameUse::Used) }
            };
            push_item(out, item);
            proof {
                assert(seq![item@] =~= flat_tree(r, tree@, p));
                assert(item_views(out@) =~= item_views(old(out)@) + flat_tree(r, tree@, p));
            }
        },
        ImportTree::Rename(id, alias) => {
            let item = if is_self(id) {
                let last = copy_bytes(prefix[prefix.len() - 1].as_slice());
                SingleUsedItem { rooted, path: drop_last_copy(prefix), leaf: UsedItemLeaf::Plain(last, NameUse::Renamed(copy_bytes(alias.as_slice()))) }
            } else {
                SingleUsedItem { rooted, path: copy_all(prefix), leaf: UsedItemLeaf::Plain(copy_bytes(id.as_slice()), NameUse::Renamed(copy_bytes(alias.as_slice()))) }
            };
            push_item(out, item);
            proof {
                assert(seq![item@] =~= flat_tree(r, tree@, p));
                assert(item_views(out@) =~= item_views(old(out)@) + flat_tree(r, tree@, p));
            }
        },
        ImportTree::Glob => {
            let item = SingleUsedItem { rooted, path: copy_all(prefix), leaf: UsedItemLeaf::Wildcard };
            push_item(out, item);
            proof {
                assert(seq![item@] =~= flat_tree(r, tree@, p));
                assert(item_views(out@) =~= item_views(old(out)@) + flat_tree(r, tree@, p));
            }
        },
        ImportTree::Group(items) => {
            let ghost start = item_views(out@);
            let mut i: usize = 0;
            proof {
                assert(items@.take(0) =~= Seq::<ImportTree>::empty());
                assert(start + flat_group(r, trees_view(items@.take(0)), p) =~= start);
            }
            while i < items.len()
                invariant
                    0 <= i <= items@.len(),
                    *tree == ImportTree::Group(*items),
                    prefix@.len() > 0,
                    r == (rooted == Rooted::Rooted),
                    p == seg_views(prefix@),
                    item_views(out@) == start + flat_group(r, trees_view(items@.take(i as int)), p),
                decreases items.len() - i,
            {
                proof {
                    assert(items@.take(i + 1).drop_last() =~= items@.take(i as int));
                    assert(items@.take(i + 1).last() == items@[i as int]);
                    assert(decreases_to!(*tree => tree->Group_0));
                    assert(decreases_to!(tree->Group_0 => tree->Group_0@));
                    assert(decreases_to!(tree->Group_0@ => tree->Group_0@[i as int]));
                }
                build_use_item_children_branches(&items[i], rooted, prefix, out);
                proof {
                    let tv = trees_view(items@.take(i + 1));
                    assert(items@.take(i + 1).subrange(0, i as int) =~= items@.take(i as int));
                    lemma_trees_view_take(items@.take(i as int), 0);
                    assert(tv == trees_view(items@.take(i as int)).push(items@[i as int]@));
                    assert(tv.subrange(0, i as int) =~= trees_view(items@.take(i as int)));
                    assert(item_views(out@) =~= start + flat_group(r, tv, p));
                }
                i = i + 1;
            }
            proof {
                assert(items@.take(i as int) =~= items@);
            }
        },
    }
}

/// Flatten the tree at the root of a declaration, appending its imports;
/// fails where it imports `*` at the root.
pub fn build_use_item_children_root(
    tree: &ImportTree,
    rooted: Rooted,
    out: &mut Vec<SingleUsedItem>,
) -> (r: bool)
    ensures
        r == flat_root(rooted == Rooted::Rooted, tree@) is Some,
        r ==> item_views(final(out)@) == item_views(old(out)@) + flat_root(
            rooted == Rooted::Rooted,
            tree@,
        )->Some_0,
    decreases tree,
{
    let ghost rb = rooted == Rooted::Rooted;
    match tree {
        ImportTree::Path(id, sub) => {
            let mut prefix: Vec<Vec<u8>> = Vec::new();
            prefix.push(copy_bytes(id.as_slice()));
            proof {
                assert(seg_views(prefix@) =~= seq![id@]);
            }
            build_use_item_children_branches(sub, rooted, &prefix, out);
            true
        },
        ImportTree::Name(id) => {
            let item = SingleUsedItem { rooted, path: Vec::new(), leaf: UsedItemLeaf::Plain(copy_bytes(id.as_slice()), NameUse::Used) };
            push_item(out, item);
            proof {
                assert(seg_views(item.path@) =~= Seq::<Seq<u8>>::empty());
                assert(item_views(out@) =~= item_views(old(out)@) + flat_root(rb, tree@)->Some_0);
            }
            true
        },
        ImportTree::Rename(id, alias) => {
            let item = SingleUsedItem { rooted, path: Vec::new(), leaf: UsedItemLeaf::Plain(copy_bytes(id.as_slice()), NameUse::Renamed(copy_bytes(alias.as_slice()))) };
            push_item(out, item);
            proof {
                assert(seg_views(item.path@) =~= Seq::<Seq<u8>>::empty());
                assert(item_views(out@) =~= item_views(old(out)@) + flat_root(rb, tree@)->Some_0);
            }
            true
        },
        ImportTree::Glob => false,
        ImportTree::Group(items) => {
            let ghost start = item_views(out@);
            let mut i: usize = 0;
            proof {
                assert(items@.take(0) =~= Seq::<ImportTree>::empty());
                assert(start + flat_root_group(rb, trees_view(items@.take(0)))->Some_0 =~= start);
            }
            while i < items.len()
                invariant
                    0 <= i <= items@.len(),
                    *tree == ImportTree::Group(*items),
                    rb == (rooted == Rooted::Rooted),
                    flat_root_group(rb, trees_view(items@.take(i as int))) is Some,
                    item_views(out@) == start + flat_root_group(rb, trees_view(items@.take(i as int)))->Some_0,
                decreases items.len() - i,
            {
                proof {
                    assert(items@.take(i + 1).drop_last() =~= items@.take(i as int));
                    assert(items@.take(i + 1).last() == items@[i as int]);
                    assert(decreases_to!(*tree => tree->Group_0));
                    assert(decreases_to!(tree->Group_0 => tree->Group_0@));
                    assert(decreases_to!(tree->Group_0@ => tree->Group_0@[i as int]));
                }
                let ghost tv = trees_view(items@.take(i + 1));
                proof {
                    assert(items@.take(i + 1).subrange(0, i as int) =~= items@.take(i as int));
                    lemma_trees_view_take(items@.take(i as int), 0);
                    assert(tv == trees_view(items@.take(i as int)).push(items@[i as int]@));
                    assert(tv.subrange(0, i as int) =~= trees_view(items@.take(i as int)));
                }
                if !build_use_item_children_root(&items[i], rooted, out) {
                    proof {
                        lemma_trees_view_take(items@, i as int + 1);
                        lemma_root_group_fails(rb, trees_view(items@), i as int + 1);
                    }
                    return false;
                }
                proof {
                    assert(item_views(out@) =~= start + flat_root_group(rb, tv)->Some_0);
                }
                i = i + 1;
            }
            proof {
                assert(items@.take(i as int) =~= items@);
            }
            true
        },
    }
}

proof fn lemma_trees_view_take(ts: Seq<ImportTree>, k: int)
    requires
        0 <= k <= ts.len(),
    ensures
        trees_view(ts).len() == ts.len(),
        trees_view(ts.take(k)) == trees_view(ts).take(k),
    decreases ts.len(),
{
    if ts.len() > 0 {
        let prev = ts.subrange(0, ts.len() - 1);
        lemma_trees_view_take(prev, if k < ts.len() { k } else { 0 });
        if k < ts.len() {
            assert(ts.take(k) =~= prev.take(k));
            assert(trees_view(ts).take(k) =~= trees_view(prev).take(k));
        } else {
            assert(ts.take(k) =~= ts);
            assert(trees_view(ts).take(k) =~= trees_view(ts));
        }
    } else {
        assert(ts.take(k) =~= ts);
        assert(trees_view(ts).take(k) =~= trees_view(ts));
    }
}

proof fn lemma_root_group_fails(rooted: bool, ts: Seq<TreeView>, k: int)
    requires
        0 <= k <= ts.len(),
        flat_root_group(rooted, ts.take(k)) is None,
    ensures
        flat_root_group(rooted, ts) is None,
    decreases ts.len() - k,
{
    if k == ts.len() {
        assert(ts.take(k) =~= ts);
    } else {
        assert(ts.take(k + 1).subrange(0, k) =~= ts.take(k));
        lemma_root_group_fails(rooted, ts, k + 1);
    }
}

/// The conditions, visibility and docs of one group of properties.
pub type GroupView = (Seq<Seq<u8>>, Option<VisibilityView>, Seq<Seq<u8>>);

/// The visibility and docs shared by the imports of one path under one set
/// of conditions.
#[derive(Debug)]
pub struct UsedItemPropertiesGroup {
    pub visibility: Option<Visibility>,
    pub docs: DocsList,
}

/// A set of conditions with its properties.
#[derive(Debug)]
pub struct PropertiesEntry {
    pub configs: ConfigsList,
    pub props: UsedItemPropertiesGroup,
}

impl View for PropertiesEntry {
    type V = GroupView;

    open spec fn view(&self) -> GroupView {
        (self.configs@, opt_vis_view(self.props.visibility), self.props.docs@)
    }
}

pub open spec fn group_views(gs: Seq<PropertiesEntry>) -> Seq<GroupView> {
    gs.map_values(|g: PropertiesEntry| g@)
}

impl UsedItemPropertiesGroup {
    /// No visibility and no docs.
    pub fn new() -> (r: UsedItemPropertiesGroup)
        ensures
            opt_vis_view(r.visibility) is None,
            r.docs@ == Seq::<Seq<u8>>::empty(),
    {
        UsedItemPropertiesGroup { visibility: None, docs: DocsList::new() }
    }

    /// Merge in another visibility and other docs.
    pub fn merge(&mut self, visibility: &Option<Visibility>, docs: &DocsList)
        ensures
            opt_vis_view(final(self).visibility) == merge_vis(
                opt_vis_view(old(self).visibility),
                opt_vis_view(*visibility),
            ),
            final(self).docs@ == combine_docs(old(self).docs@, docs@),
    {
        self.visibility = merge_visibilities(&self.visibility, visibility);
        self.docs.combine(docs);
    }
}

/// The index of the group with the given conditions, or -1.
pub open spec fn index_of(gs: Seq<GroupView>, c: Seq<Seq<u8>>) -> int
    decreases gs.len(),
{
    if gs.len() == 0 {
        -1
    } else {
        let k = index_of(gs.drop_last(), c);
        if k >= 0 {
            k
        } else if gs.last().0 == c {
            gs.len() - 1
        } else {
            -1
        }
    }
}

/// All the groups merged into one, in order.
pub open spec fn fold_groups(gs: Seq<GroupView>) -> (Option<VisibilityView>, Seq<Seq<u8>>)
    decreases gs.len(),
{
    if gs.len() == 0 {
        (None, seq![])
    } else {
        let f = fold_groups(gs.drop_last());
        (merge_vis(f.0, gs.last().1), combine_docs(f.1, gs.last().2))
    }
}

/// The groups of a path once an import of it with conditions `c`,
/// visibility `v` and docs `d` is added: an unconditional group takes in
/// everything; an unconditional import takes in every group there is.
pub open spec fn add_props(
    gs: Seq<GroupView>,
    c: Seq<Seq<u8>>,
    v: Option<VisibilityView>,
    d: Seq<Seq<u8>>,
) -> Seq<GroupView> {
    let u = index_of(gs, seq![]);
    if u >= 0 {
        gs.update(u, (gs[u].0, merge_vis(gs[u].1, v), combine_docs(gs[u].2, d)))
    } else if c.len() == 0 {
        let f = fold_groups(gs);
        seq![(c, merge_vis(f.0, v), combine_docs(f.1, d))]
    } else {
        let k = index_of(gs, c);
        if k >= 0 {
            gs.update(k, (gs[k].0, merge_vis(gs[k].1, v), combine_docs(gs[k].2, d)))
        } else {
            gs.push((c, merge_vis(None, v), combine_docs(seq![], d)))
        }
    }
}

fn find_group(groups: &Vec<PropertiesEntry>, configs: &ConfigsList) -> (r: Option<usize>)
    ensures
        match r {
            Some(k) => k < groups@.len() && index_of(group_views(groups@), configs@) == k,
            None => index_of(group_views(groups@), configs@) == -1,
        },
{
    let ghost gs = group_views(groups@);
    let mut k: usize = 0;
    proof {
        assert(gs.take(0) =~= Seq::<GroupView>::empty());
    }
    while k < groups.len()
        invariant
            0 <= k <= gs.len(),
            gs == group_views(groups@),
            index_of(gs.take(k as int), configs@) == -1,
        decreases gs.len() - k,
    {
        proof {
            assert(gs.take(k + 1).drop_last() =~= gs.take(k as int));
        }
        if all_eq(&groups[k].configs.configs, &configs.configs) {
            proof {
                lemma_index_found(gs, configs@, k + 1);
            }
            return Some(k);
        }
        k = k + 1;
    }
    proof {
        assert(gs.take(k as int) =~= gs);
    }
    None
}

proof fn lemma_index_found(gs: Seq<GroupView>, c: Seq<Seq<u8>>, k: int)
    requires
        0 <= k <= gs.len(),
        index_of(gs.take(k), c) >= 0,
    ensures
        index_of(gs, c) == index_of(gs.take(k), c),
    decreases gs.len() - k,
{
    if k == gs.len() {
        assert(gs.take(k) =~= gs);
    } else {
        assert(gs.take(k + 1).drop_last() =~= gs.take(k));
        lemma_index_found(gs, c, k + 1);
    }
}

/// Merge the properties of the group at `k` with `visibility` and `docs`.
fn merge_at(groups: &mut Vec<PropertiesEntry>, k: usize, visibility: &Option<Visibility>, docs: &DocsList)
    requires
        k < old(groups)@.len(),
    ensures
        group_views(final(groups)@) == group_views(old(groups)@).update(
            k as int,
            (
                group_views(old(groups)@)[k as int].0,
                merge_vis(group_views(old(groups)@)[k as int].1, opt_vis_view(*visibility)),
                combine_docs(group_views(old(groups)@)[k as int].2, docs@),
            ),
        ),
{
    let mut entry = groups.remove(k);
    entry.props.merge(visibility, docs);
    groups.insert(k, entry);
    proof {
        assert(group_views(groups@) =~= group_views(old(groups)@).update(
            k as int,
            (
                group_views(old(groups)@)[k as int].0,
                merge_vis(group_views(old(groups)@)[k as int].1, opt_vis_view(*visibility)),
                combine_docs(group_views(old(groups)@)[k as int].2, docs@),
            ),
        ));
    }
}

/// Add the properties of an import to the groups of its path.
pub fn add_properties(
    properties_groups: &mut Vec<PropertiesEntry>,
    configs: &ConfigsList,
    visibility: &Option<Visibility>,
    docs: &DocsList,
)
    ensures
        group_views(final(properties_groups)@) == add_props(
            group_views(old(properties_groups)@),
            configs@,
            opt_vis_view(*visibility),
            docs@,
        ),
{
    let empty = ConfigsList::empty();
    match find_group(properties_groups, &empty) {
        Some(k) => {
            merge_at(properties_groups, k, visibility, docs);
        },
        None => {
            if configs.is_empty() {
                let ghost gs = group_views(properties_groups@);
                let mut merged = UsedItemPropertiesGroup::new();
                let mut i: usize = 0;
                proof {
                    assert(gs.take(0) =~= Seq::<GroupView>::empty());
                }
                while i < properties_groups.len()
                    invariant
                        0 <= i <= gs.len(),
                        gs == group_views(properties_groups@),
                        (opt_vis_view(merged.visibility), merged.docs@) == fold_groups(gs.take(i as int)),
                    decreases gs.len() - i,
                {
                    proof {
                        assert(gs.take(i + 1).drop_last() =~= gs.take(i as int));
                    }
                    merged.merge(&properties_groups[i].props.visibility, &properties_groups[i].props.docs);
                    i = i + 1;
                }
                proof {
                    assert(gs.take(i as int) =~= gs);
                }
                merged.merge(visibility, docs);
                properties_groups.clear();
                properties_groups.push(PropertiesEntry { configs: configs.duplicate(), props: merged });
                proof {
                    assert(group_views(properties_groups@) =~= add_props(gs, configs@, opt_vis_view(*visibility), docs@));
                }
            } else {
                match find_group(properties_groups, configs) {
                    Some(k) => {
                        merge_at(properties_groups, k, visibility, docs);
                    },
                    None => {
                        let mut props = UsedItemPropertiesGroup::new();
                        props.merge(visibility, docs);
                        let ghost before = group_views(properties_groups@);
                        properties_groups.push(PropertiesEntry { configs: configs.duplicate(), props });
                        proof {
                            assert(group_views(properties_groups@) =~= before.push(
                                (configs@, merge_vis(None, opt_vis_view(*visibility)), combine_docs(seq![], docs@)),
                            ));
                        }
                    },
                }
            }
        },
    }
}

/// One flattened path with its groups of properties.
#[derive(Debug)]
pub struct NormalizedEntry {
    pub item: SingleUsedItem,
    pub groups: Vec<PropertiesEntry>,
}

pub type NormalizedView = (PathView, Seq<GroupView>);

impl View for NormalizedEntry {
    type V = NormalizedView;

    open spec fn view(&self) -> NormalizedView {
        (self.item@, group_views(self.groups@))
    }
}

pub open spec fn entry_views(es: Seq<NormalizedEntry>) -> Seq<NormalizedView> {
    es.map_values(|e: NormalizedEntry| e@)
}

/// The index of the entry of a path, or -1.
pub open spec fn path_index(ns: Seq<NormalizedView>, p: PathView) -> int
    decreases ns.len(),
{
    if ns.len() == 0 {
        -1
    } else {
        let k = path_index(ns.drop_last(), p);
        if k >= 0 {
            k
        } else if ns.last().0 == p {
            ns.len() - 1
        } else {
            -1
        }
    }
}

/// The entries once one import of path `p` is added.
pub open spec fn add_path(
    ns: Seq<NormalizedView>,
    p: PathView,
    c: Seq<Seq<u8>>,
    v: Option<VisibilityView>,
    d: Seq<Seq<u8>>,
) -> Seq<NormalizedView> {
    let k = path_index(ns, p);
    if k >= 0 {
        ns.update(k, (p, add_props(ns[k].1, c, v, d)))
    } else {
        ns.push((p, add_props(seq![], c, v, d)))
    }
}

/// The entries once the imports of paths `ps` are added, in order.
pub open spec fn add_paths(
    ns: Seq<NormalizedView>,
    ps: Seq<PathView>,
    c: Seq<Seq<u8>>,
    v: Option<VisibilityView>,
    d: Seq<Seq<u8>>,
) -> Seq<NormalizedView>
    decreases ps.len(),
{
    if ps.len() == 0 {
        ns
    } else {
        add_path(add_paths(ns, ps.drop_last(), c, v, d), ps.last(), c, v, d)
    }
}

pub fn same_path(a: &SingleUsedItem, b: &SingleUsedItem) -> (r: bool)
    ensures
        r == (a@ == b@),
{
    if a.rooted != b.rooted || !all_eq(&a.path, &b.path) {
        return false;
    }
    match (&a.leaf, &b.leaf) {
        (UsedItemLeaf::Wildcard, UsedItemLeaf::Wildcard) => true,
        (UsedItemLeaf::Plain(n1, u1), UsedItemLeaf::Plain(n2, u2)) => {
            if !bytes_eq(n1.as_slice(), n2.as_slice()) {
                return false;
            }
            match (u1, u2) {
                (NameUse::Used, NameUse::Used) => true,
                (NameUse::Renamed(x), NameUse::Renamed(y)) => bytes_eq(x.as_slice(), y.as_slice()),
                _ => false,
            }
        },
        _ => false,
    }
}

/// Every flattened path with the properties it has under each set of
/// conditions, with the conditions already normalized.
#[derive(Debug)]
pub struct NormalizedUsedItems {
    pub items: Vec<NormalizedEntry>,
}

impl View for NormalizedUsedItems {
    type V = Seq<NormalizedView>;

    open spec fn view(&self) -> Seq<NormalizedView> {
        entry_views(self.items@)
    }
}

impl NormalizedUsedItems {
    pub fn new() -> (r: NormalizedUsedItems)
        ensures
            r@ == Seq::<NormalizedView>::empty(),
    {
        let r = NormalizedUsedItems { items: Vec::new() };
        proof {
            assert(r@ =~= Seq::<NormalizedView>::empty());
        }
        r
    }

    fn find_path(&self, item: &SingleUsedItem) -> (r: Option<usize>)
        ensures
            match r {
                Some(k) => k < self@.len() && path_index(self@, item@) == k,
                None => path_index(self@, item@) == -1,
            },
    {
        let ghost ns = self@;
        let mut k: usize = 0;
        proof {
            assert(ns.take(0) =~= Seq::<NormalizedView>::empty());
        }
        while k < self.items.len()
            invariant
                0 <= k <= ns.len(),
                ns == self@,
                path_index(ns.take(k as int), item@) == -1,
            decreases ns.len() - k,
        {
            proof {
                assert(ns.take(k + 1).drop_last() =~= ns.take(k as int));
            }
            if same_path(&self.items[k].item, item) {
                proof {
                    lemma_path_index_found(ns, item@, k + 1);
                }
                return Some(k);
            }
            k = k + 1;
        }
        proof {
            assert(ns.take(k as int) =~= ns);
        }
        None
    }

    /// Add one import of a path with the given properties.
    pub fn add_single(&mut self, item: &SingleUsedItem, configs: &ConfigsList, visibility: &Option<Visibility>, docs: &DocsList)
        ensures
            final(self)@ == add_path(old(self)@, item@, configs@, opt_vis_view(*visibility), docs@),
    {
        match self.find_path(item) {
            Some(k) => {
                proof {
                    lemma_path_index_is(self@, item@);
                }
                let mut entry = self.items.remove(k);
                add_properties(&mut entry.groups, configs, visibility, docs);
                self.items.insert(k, entry);
                proof {
                    assert(self@ =~= add_path(old(self)@, item@, configs@, opt_vis_view(*visibility), docs@));
                }
            },
            None => {
                let mut groups: Vec<PropertiesEntry> = Vec::new();
                proof {
                    assert(group_views(groups@) =~= Seq::<GroupView>::empty());
                }
                add_properties(&mut groups, configs, visibility, docs);
                self.items.push(NormalizedEntry { item: item.duplicate(), groups });
                proof {
                    assert(self@ =~= add_path(old(self)@, item@, configs@, opt_vis_view(*visibility), docs@));
                }
            },
        }
    }

    /// Add every import of a `use` declaration.
    pub fn add_tree(&mut self, items: &UseItem)
        ensures
            final(self)@ == add_paths(
                old(self)@,
                item_views(items.children@),
                items.configs@,
                opt_vis_view(items.visibility),
                items.docs@,
            ),
    {
        let ghost ps = item_views(items.children@);
        let mut i: usize = 0;
        proof {
            assert(ps.take(0) =~= Seq::<PathView>::empty());
        }
        while i < items.children.len()
            invariant
                0 <= i <= ps.len(),
                ps == item_views(items.children@),
                self@ == add_paths(old(self)@, ps.take(i as int), items.configs@, opt_vis_view(items.visibility), items.docs@),
            decreases ps.len() - i,
        {
            proof {
                assert(ps.take(i + 1).drop_last() =~= ps.take(i as int));
            }
            self.add_single(&items.children[i], &items.configs, &items.visibility, &items.docs);
            i = i + 1;
        }
        proof {
            assert(ps.take(i as int) =~= ps);
        }
    }
}

proof fn lemma_path_index_is(ns: Seq<NormalizedView>, p: PathView)
    ensures
        path_index(ns, p) >= 0 ==> path_index(ns, p) < ns.len() && ns[path_index(ns, p)].0 == p,
        path_index(ns, p) >= -1,
    decreases ns.len(),
{
    if ns.len() > 0 {
        lemma_path_index_is(ns.drop_last(), p);
    }
}

proof fn lemma_path_index_found(ns: Seq<NormalizedView>, p: PathView, k: int)
    requires
        0 <= k <= ns.len(),
        path_index(ns.take(k), p) >= 0,
    ensures
        path_index(ns, p) == path_index(ns.take(k), p),
    decreases ns.len() - k,
{
    if k == ns.len() {
        assert(ns.take(k) =~= ns);
    } else {
        assert(ns.take(k + 1).drop_last() =~= ns.take(k));
        lemma_path_index_found(ns, p, k + 1);
    }
}

/// One import of the canonical set, with its conditions, visibility and docs.
#[derive(Debug)]
pub struct FinalEntry {
    pub configs: ConfigsList,
    pub item: SingleUsedItem,
    pub visibility: Option<Visibility>,
    pub docs: DocsList,
}

/// Conditions, path, visibility, docs.
pub type FinalView = (Seq<Seq<u8>>, PathView, Option<VisibilityView>, Seq<Seq<u8>>);

impl View for FinalEntry {
    type V = FinalView;

    open spec fn view(&self) -> FinalView {
        (self.configs@, self.item@, opt_vis_view(self.visibility), self.docs@)
    }
}

pub open spec fn final_views(es: Seq<FinalEntry>) -> Seq<FinalView> {
    es.map_values(|e: FinalEntry| e@)
}

pub open spec fn group_entries(p: PathView, gs: Seq<GroupView>) -> Seq<FinalView> {
    gs.map_values(|g: GroupView| (g.0, p, g.1, g.2))
}

/// Every (conditions, path, visibility, docs) of the normalized entries.
pub open spec fn all_entries(ns: Seq<NormalizedView>) -> Seq<FinalView>
    decreases ns.len(),
{
    if ns.len() == 0 {
        seq![]
    } else {
        all_entries(ns.drop_last()) + group_entries(ns.last().0, ns.last().1)
    }
}

/// `a` takes in `e`: same conditions, visibility and docs, and a path that
/// takes in `e`'s.
pub open spec fn entry_subsumes(a: FinalView, e: FinalView) -> bool {
    a.0 == e.0 && a.2 == e.2 && a.3 == e.3 && subsumes(a.1, e.1)
}

pub open spec fn subsumed_in(all: Seq<FinalView>, e: FinalView) -> bool {
    exists|j: int| 0 <= j < all.len() && #[trigger] entry_subsumes(all[j], e)
}

/// The entries of `es` that no entry of `all` takes in, in order.
pub open spec fn keep_unsubsumed(es: Seq<FinalView>, all: Seq<FinalView>) -> Seq<FinalView>
    decreases es.len(),
{
    if es.len() == 0 {
        seq![]
    } else {
        keep_unsubsumed(es.drop_last(), all) + if subsumed_in(all, es.last()) {
            seq![]
        } else {
            seq![es.last()]
        }
    }
}

/// The canonical set of imports: every entry that no other entry takes in.
pub open spec fn canonical(ns: Seq<NormalizedView>) -> Seq<FinalView> {
    keep_unsubsumed(all_entries(ns), all_entries(ns))
}

impl FinalEntry {
    pub fn duplicate(&self) -> (r: FinalEntry)
        ensures
            r@ == self@,
    {
        FinalEntry {
            configs: self.configs.duplicate(),
            item: self.item.duplicate(),
            visibility: duplicate_visibility(&self.visibility),
            docs: self.docs.duplicate(),
        }
    }
}

fn entry_subsumes_exec(a: &FinalEntry, e: &FinalEntry) -> (r: bool)
    ensures
        r == entry_subsumes(a@, e@),
{
    all_eq(&a.configs.configs, &e.configs.configs) && same_visibility(&a.visibility, &e.visibility)
        && a.docs.same_as(&e.docs) && e.item.is_subsumed_by(&a.item)
}

/// Every path with each of its groups of properties, in order.
pub fn flatten_entries(items: &NormalizedUsedItems) -> (r: Vec<FinalEntry>)
    ensures
        final_views(r@) == all_entries(items@),
{
    let ghost ns = items@;
    let mut out: Vec<FinalEntry> = Vec::new();
    let mut i: usize = 0;
    proof {
        assert(ns.take(0) =~= Seq::<NormalizedView>::empty());
        assert(final_views(out@) =~= Seq::<FinalView>::empty());
    }
    while i < items.items.len()
        invariant
            0 <= i <= ns.len(),
            ns == items@,
            final_views(out@) == all_entries(ns.take(i as int)),
        decreases ns.len() - i,
    {
        proof {
            assert(ns.take(i + 1).drop_last() =~= ns.take(i as int));
        }
        let entry = &items.items[i];
        let ghost p = entry.item@;
        let ghost gs = group_views(entry.groups@);
        let ghost start = final_views(out@);
        let mut j: usize = 0;
        proof {
            assert(start + group_entries(p, gs.take(0)) =~= start);
        }
        while j < entry.groups.len()
            invariant
                0 <= j <= gs.len(),
                gs == group_views(entry.groups@),
                p == entry.item@,
                final_views(out@) == start + group_entries(p, gs.take(j as int)),
            decreases gs.len() - j,
        {
            let g = &entry.groups[j];
            let ghost before = out@;
            out.push(FinalEntry {
                configs: g.configs.duplicate(),
                item: entry.item.duplicate(),
                visibility: duplicate_visibility(&g.props.visibility),
                docs: g.props.docs.duplicate(),
            });
            proof {
                assert(final_views(out@) =~= final_views(before).push((gs[j as int].0, p, gs[j as int].1, gs[j as int].2)));
                assert(group_entries(p, gs.take(j + 1)) =~= group_entries(p, gs.take(j as int)).push((gs[j as int].0, p, gs[j as int].1, gs[j as int].2)));
            }
            j = j + 1;
        }
        proof {
            assert(gs.take(j as int) =~= gs);
        }
        i = i + 1;
    }
    proof {
        assert(ns.take(i as int) =~= ns);
    }
    out
}

/// Whether another entry takes in entry `i`.
fn is_subsumed(all: &Vec<FinalEntry>, i: usize) -> (r: bool)
    requires
        i < all@.len(),
    ensures
        r == subsumed_in(final_views(all@), final_views(all@)[i as int]),
{
    let ghost av = final_views(all@);
    let mut k: usize = 0;
    while k < all.len()
        invariant
            0 <= k <= av.len(),
            0 <= i < av.len(),
            av == final_views(all@),
            forall|j: int| 0 <= j < k ==> !(#[trigger] entry_subsumes(av[j], av[i as int])),
        decreases av.len() - k,
    {
        if entry_subsumes_exec(&all[k], &all[i]) {
            proof {
                assert(entry_subsumes(av[k as int], av[i as int]));
            }
            return true;
        }
        k = k + 1;
    }
    false
}

/// Drop every import that another import takes in (`*` takes in the names
/// of its path and `_` renames; a name takes in its `_` rename) under the
/// same conditions, visibility and docs.
pub fn group_flattened_items_normalize_wildcards(items: &NormalizedUsedItems) -> (r: Vec<FinalEntry>)
    ensures
        final_views(r@) == canonical(items@),
{
    let all = flatten_entries(items);
    let ghost av = final_views(all@);
    let mut out: Vec<FinalEntry> = Vec::new();
    let mut i: usize = 0;
    proof {
        assert(av.take(0) =~= Seq::<FinalView>::empty());
        assert(final_views(out@) =~= Seq::<FinalView>::empty());
    }
    while i < all.len()
        invariant
            0 <= i <= av.len(),
            av == final_views(all@),
            final_views(out@) == keep_unsubsumed(av.take(i as int), av),
        decreases av.len() - i,
    {
        proof {
            assert(av.take(i + 1).drop_last() =~= av.take(i as int));
            assert(av.take(i + 1).last() == av[i as int]);
        }
        let found = is_subsumed(&all, i);
        let ghost before = out@;
        if !found {
            out.push(all[i].duplicate());
            proof {
                assert(final_views(out@) =~= final_views(before).push(av[i as int]));
            }
        } else {
            proof {
                assert(final_views(out@) =~= final_views(before) + Seq::<FinalView>::empty());
            }
        }
        i = i + 1;
    }
    proof {
        assert(av.take(i as int) =~= av);
    }
    out
}

} // verus!
