//! The canonical imports rebuilt as grouped declarations, ready to print:
//! one declaration per key, its names gathered in a tree.
use vstd::prelude::*;

use crate::bytes::{push_bytes, bytes_eq, compare_bytes, copy_bytes, lemma_seq_lt_irreflexive, lemma_seq_lt_total, lemma_seq_lt_transitive, seq_lt};
use crate::common::NameUse;
use crate::flattened::{LeafView, UsedItemLeaf};
use crate::common::Rooted;
use crate::flattened::{final_views, FinalEntry, FinalView, PathView, SingleUsedItem};
use crate::tree::{cfg_text, Config, all_eq, duplicate_visibility, lemma_list_lt_total, lemma_list_lt_transitive, list_lt, opt_vis_view, same_visibility, seg_views, ConfigsList, DocsList, Visibility, VisibilityView};

verus! {

/// Order of the ways a name is used: kept before renamed, renames by alias.
pub open spec fn use_lt(a: Option<Seq<u8>>, b: Option<Seq<u8>>) -> bool {
    match (a, b) {
        (None, Some(_)) => true,
        (Some(x), Some(y)) => seq_lt(x, y),
        _ => false,
    }
}

proof fn lemma_use_lt_total(a: Option<Seq<u8>>, b: Option<Seq<u8>>)
    ensures
        a == b || use_lt(a, b) || use_lt(b, a),
        !(use_lt(a, b) && use_lt(b, a)),
        !use_lt(a, a),
{
    match (a, b) {
        (Some(x), Some(y)) => {
            lemma_seq_lt_total(x, y);
            lemma_seq_lt_irreflexive(x);
        },
        (Some(x), None) => {
            lemma_seq_lt_irreflexive(x);
        },
        _ => {},
    }
}

proof fn lemma_use_lt_transitive(a: Option<Seq<u8>>, b: Option<Seq<u8>>, c: Option<Seq<u8>>)
    requires
        use_lt(a, b),
        use_lt(b, c),
    ensures
        use_lt(a, c),
{
    match (a, b, c) {
        (Some(x), Some(y), Some(z)) => {
            lemma_seq_lt_transitive(x, y, z);
        },
        _ => {},
    }
}

fn compare_uses(a: &NameUse, b: &NameUse) -> (r: i8)
    ensures
        r == 0 <==> a@ == b@,
        r < 0 <==> use_lt(a@, b@),
        r > 0 <==> use_lt(b@, a@),
{
    match (a, b) {
        (NameUse::Used, NameUse::Used) => 0,
        (NameUse::Used, NameUse::Renamed(_)) => -1,
        (NameUse::Renamed(_), NameUse::Used) => 1,
        (NameUse::Renamed(x), NameUse::Renamed(y)) => compare_bytes(x.as_slice(), y.as_slice()),
    }
}

pub open spec fn use_views(us: Seq<NameUse>) -> Seq<Option<Seq<u8>>> {
    us.map_values(|u: NameUse| u@)
}

pub open spec fn uses_sorted(us: Seq<Option<Seq<u8>>>) -> bool {
    forall|i: int, j: int| 0 <= i < j < us.len() ==> use_lt(#[trigger] us[i], #[trigger] us[j])
}

/// Adds a way of using a name to a sorted list of them, unless it is there.
fn insert_usage(us: &mut Vec<NameUse>, u: NameUse)
    requires
        uses_sorted(use_views(old(us)@)),
    ensures
        uses_sorted(use_views(final(us)@)),
        forall|x: Option<Seq<u8>>| use_views(final(us)@).contains(x) <==> (use_views(old(us)@).contains(x) || x == u@),
{
    let ghost s = use_views(us@);
    let ghost c = u@;
    let mut i: usize = 0;
    while i < us.len() && compare_uses(&us[i], &u) < 0
        invariant
            0 <= i <= s.len(),
            s == use_views(us@),
            c == u@,
            forall|j: int| 0 <= j < i ==> use_lt(#[trigger] s[j], c),
        decreases s.len() - i,
    {
        i = i + 1;
    }
    if i < us.len() && compare_uses(&us[i], &u) == 0 {
        proof {
            assert(s[i as int] == c);
        }
        return;
    }
    proof {
        if i < s.len() {
            lemma_use_lt_total(s[i as int], c);
        }
    }
    us.insert(i, u);
    proof {
        let t = use_views(us@);
        assert(t =~= s.insert(i as int, c));
        assert forall|p: int, q: int| 0 <= p < q < t.len() implies use_lt(#[trigger] t[p], #[trigger] t[q]) by {
            if p < i && q == i {
            } else if p < i && q > i {
                assert(t[q] == s[q - 1]);
                if q - 1 > i {
                    lemma_use_lt_transitive(s[p], c, s[i as int]);
                    lemma_use_lt_transitive(s[p], s[i as int], s[q - 1]);
                } else {
                    lemma_use_lt_transitive(s[p], c, s[i as int]);
                }
            } else if p == i && q > i {
                assert(t[q] == s[q - 1]);
                if q - 1 > i {
                    lemma_use_lt_transitive(c, s[i as int], s[q - 1]);
                }
            } else if p > i {
                assert(t[p] == s[p - 1]);
                assert(t[q] == s[q - 1]);
            }
        }
        assert forall|x: Option<Seq<u8>>| t.contains(x) <==> (s.contains(x) || x == c) by {
            if t.contains(x) {
                let k = choose|k: int| 0 <= k < t.len() && t[k] == x;
                if k < i {
                    assert(s[k] == x);
                } else if k > i {
                    assert(s[k - 1] == x);
                }
            }
            if s.contains(x) {
                let k = choose|k: int| 0 <= k < s.len() && s[k] == x;
                if k < i {
                    assert(t[k] == x);
                } else {
                    assert(t[k + 1] == x);
                }
            }
            if x == c {
                assert(t[i as int] == c);
            }
        }
    }
}

/// What stands at a name of a tree: the name alone (`a::b`, `a::b as c`),
/// or a subtree under it (`a::b::{...}`).
#[derive(Debug)]
pub enum PrintableChild {
    Plain(NameUse),
    Subtree(PrintableTree),
}

/// A name of a tree with what stands at it.
#[derive(Debug)]
pub struct PrintableNode {
    pub name: Vec<u8>,
    pub child: PrintableChild,
}

/// What can stand inside `{}` in an import path: `self` (kept or renamed),
/// `*`, and named children, sorted by name.
#[derive(Debug)]
pub struct PrintableTree {
    pub this_usage: Vec<NameUse>,
    pub wildcard: bool,
    pub children: Vec<PrintableNode>,
}

pub open spec fn names_sorted(cs: Seq<PrintableNode>) -> bool {
    forall|i: int, j: int| 0 <= i < j < cs.len() ==> seq_lt(#[trigger] cs[i].name@, #[trigger] cs[j].name@)
}

pub open spec fn tree_wf(t: PrintableTree) -> bool
    decreases t,
{
    &&& uses_sorted(use_views(t.this_usage@))
    &&& names_sorted(t.children@)
    &&& forall|i: int| 0 <= i < t.children@.len() ==> child_wf(#[trigger] t.children@[i].child)
}

pub open spec fn child_wf(c: PrintableChild) -> bool
    decreases c,
{
    match c {
        PrintableChild::Plain(_) => true,
        PrintableChild::Subtree(t) => tree_wf(t),
    }
}

/// The child, named `name`, holds the import of leaf `l` at path `p`
/// (relative to the tree the child hangs from).
pub open spec fn child_has(c: PrintableChild, name: Seq<u8>, p: Seq<Seq<u8>>, l: LeafView) -> bool
    decreases c,
{
    match c {
        PrintableChild::Plain(u) => p.len() == 0 && l == Some((name, u@)),
        PrintableChild::Subtree(t) => if p.len() == 0 {
            match l {
                Some((n, u)) => n == name && use_views(t.this_usage@).contains(u),
                None => false,
            }
        } else {
            p[0] == name && tree_has(t, p.drop_first(), l)
        },
    }
}

/// The tree holds the import of leaf `l` at path `p`.
pub open spec fn tree_has(t: PrintableTree, p: Seq<Seq<u8>>, l: LeafView) -> bool
    decreases t,
{
    ||| (p.len() == 0 && l is None && t.wildcard)
    ||| exists|i: int| 0 <= i < t.children@.len() && child_has(#[trigger] t.children@[i].child, t.children@[i].name@, p, l)
}

impl PrintableTree {
    /// A tree with nothing in it.
    fn new() -> (r: PrintableTree)
        ensures
            tree_wf(r),
            use_views(r.this_usage@) == Seq::<Option<Seq<u8>>>::empty(),
            forall|p: Seq<Seq<u8>>, l: LeafView| !tree_has(r, p, l),
    {
        let r = PrintableTree { this_usage: Vec::new(), wildcard: false, children: Vec::new() };
        proof {
            assert(use_views(r.this_usage@) =~= Seq::<Option<Seq<u8>>>::empty());
        }
        r
    }
}

impl PrintableChild {
    /// This child as a subtree: `a::b` becomes `a::b::{self}`.
    pub fn become_subtree(self) -> (r: PrintableTree)
        requires
            child_wf(self),
        ensures
            tree_wf(r),
            forall|name: Seq<u8>, p: Seq<Seq<u8>>, l: LeafView|
                child_has(PrintableChild::Subtree(r), name, p, l) == child_has(self, name, p, l),
    {
        match self {
            PrintableChild::Subtree(tree) => tree,
            PrintableChild::Plain(usage) => {
                let ghost u = usage@;
                let mut this_usage: Vec<NameUse> = Vec::new();
                this_usage.push(usage);
                let r = PrintableTree { this_usage, wildcard: false, children: Vec::new() };
                proof {
                    assert(use_views(r.this_usage@) =~= seq![u]);
                    assert forall|name: Seq<u8>, p: Seq<Seq<u8>>, l: LeafView|
                        child_has(PrintableChild::Subtree(r), name, p, l) == child_has(self, name, p, l) by {
                        if p.len() == 0 {
                            if let Some((n, v)) = l {
                                if use_views(r.this_usage@).contains(v) {
                                    let k = choose|k: int| 0 <= k < use_views(r.this_usage@).len() && use_views(r.this_usage@)[k] == v;
                                    assert(k == 0);
                                }
                                if v == u {
                                    assert(use_views(r.this_usage@)[0] == v);
                                }
                            }
                        }
                    }
                }
                r
            },
        }
    }

    /// Add a way of using the name this child stands at.
    pub fn add_usage(self, usage: NameUse) -> (r: PrintableChild)
        requires
            child_wf(self),
        ensures
            child_wf(r),
            forall|name: Seq<u8>, p: Seq<Seq<u8>>, l: LeafView|
                child_has(r, name, p, l) == (child_has(self, name, p, l) || (p.len() == 0 && l == Some((name, usage@)))),
    {
        if let PrintableChild::Plain(current) = &self {
            if compare_uses(current, &usage) == 0 {
                return self;
            }
        }
        let ghost u = usage@;
        let mut tree = self.become_subtree();
        insert_usage(&mut tree.this_usage, usage);
        let r = PrintableChild::Subtree(tree);
        proof {
            assert forall|name: Seq<u8>, p: Seq<Seq<u8>>, l: LeafView|
                child_has(r, name, p, l) == (child_has(self, name, p, l) || (p.len() == 0 && l == Some((name, u)))) by {
            }
        }
        r
    }
}

proof fn lemma_tree_update(
    t: PrintableTree,
    t2: PrintableTree,
    k: int,
    nd: PrintableNode,
    rest: Seq<Seq<u8>>,
    leaf: LeafView,
)
    requires
        0 <= k < t.children@.len(),
        t2.children@ == t.children@.update(k, nd),
        t2.wildcard == t.wildcard,
        nd.name@ == t.children@[k].name@,
        forall|p: Seq<Seq<u8>>, l: LeafView|
            child_has(nd.child, nd.name@, p, l) == (child_has(t.children@[k].child, nd.name@, p, l) || (p == rest && l == leaf)),
    ensures
        forall|p: Seq<Seq<u8>>, l: LeafView| tree_has(t2, p, l) == (tree_has(t, p, l) || (p == rest && l == leaf)),
{
    assert forall|p: Seq<Seq<u8>>, l: LeafView| tree_has(t2, p, l) == (tree_has(t, p, l) || (p == rest && l == leaf)) by {
        if p == rest && l == leaf {
            assert(child_has(t2.children@[k].child, t2.children@[k].name@, p, l));
        }
        if tree_has(t, p, l) && !(p.len() == 0 && l is None && t.wildcard) {
            let i = choose|i: int| 0 <= i < t.children@.len() && child_has(#[trigger] t.children@[i].child, t.children@[i].name@, p, l);
            assert(child_has(t2.children@[i].child, t2.children@[i].name@, p, l));
        }
        if tree_has(t2, p, l) && !(p.len() == 0 && l is None && t2.wildcard) {
            let i = choose|i: int| 0 <= i < t2.children@.len() && child_has(#[trigger] t2.children@[i].child, t2.children@[i].name@, p, l);
            if i != k {
                assert(child_has(t.children@[i].child, t.children@[i].name@, p, l));
            }
        }
    }
}

proof fn lemma_tree_insert(
    t: PrintableTree,
    t2: PrintableTree,
    k: int,
    nd: PrintableNode,
    rest: Seq<Seq<u8>>,
    leaf: LeafView,
)
    requires
        0 <= k <= t.children@.len(),
        t2.children@ == t.children@.insert(k, nd),
        t2.wildcard == t.wildcard,
        forall|p: Seq<Seq<u8>>, l: LeafView| child_has(nd.child, nd.name@, p, l) == (p == rest && l == leaf),
    ensures
        forall|p: Seq<Seq<u8>>, l: LeafView| tree_has(t2, p, l) == (tree_has(t, p, l) || (p == rest && l == leaf)),
{
    assert forall|p: Seq<Seq<u8>>, l: LeafView| tree_has(t2, p, l) == (tree_has(t, p, l) || (p == rest && l == leaf)) by {
        if p == rest && l == leaf {
            assert(child_has(t2.children@[k].child, t2.children@[k].name@, p, l));
        }
        if tree_has(t, p, l) && !(p.len() == 0 && l is None && t.wildcard) {
            let i = choose|i: int| 0 <= i < t.children@.len() && child_has(#[trigger] t.children@[i].child, t.children@[i].name@, p, l);
            if i < k {
                assert(child_has(t2.children@[i].child, t2.children@[i].name@, p, l));
            } else {
                assert(t2.children@[i + 1] == t.children@[i]);
                assert(child_has(t2.children@[i + 1].child, t2.children@[i + 1].name@, p, l));
            }
        }
        if tree_has(t2, p, l) && !(p.len() == 0 && l is None && t2.wildcard) {
            let i = choose|i: int| 0 <= i < t2.children@.len() && child_has(#[trigger] t2.children@[i].child, t2.children@[i].name@, p, l);
            if i < k {
                assert(child_has(t.children@[i].child, t.children@[i].name@, p, l));
            } else if i > k {
                assert(t2.children@[i] == t.children@[i - 1]);
                assert(child_has(t.children@[i - 1].child, t.children@[i - 1].name@, p, l));
            }
        }
    }
}

/// Where a name stands among sorted children, or where it would go.
fn find_child(children: &Vec<PrintableNode>, name: &[u8]) -> (r: (bool, usize))
    requires
        names_sorted(children@),
    ensures
        r.1 <= children@.len(),
        r.0 ==> r.1 < children@.len() && children@[r.1 as int].name@ == name@,
        !r.0 ==> forall|j: int| 0 <= j < r.1 ==> seq_lt(#[trigger] children@[j].name@, name@),
        !r.0 ==> forall|j: int| r.1 <= j < children@.len() ==> seq_lt(name@, #[trigger] children@[j].name@),
{
    let mut i: usize = 0;
    while i < children.len() && compare_bytes(children[i].name.as_slice(), name) < 0
        invariant
            0 <= i <= children@.len(),
            forall|j: int| 0 <= j < i ==> seq_lt(#[trigger] children@[j].name@, name@),
        decreases children@.len() - i,
    {
        i = i + 1;
    }
    if i < children.len() && bytes_eq(children[i].name.as_slice(), name) {
        return (true, i);
    }
    proof {
        if i < children@.len() {
            lemma_seq_lt_total(children@[i as int].name@, name@);
            assert forall|j: int| i <= j < children@.len() implies seq_lt(name@, #[trigger] children@[j].name@) by {
                if j > i {
                    lemma_seq_lt_transitive(name@, children@[i as int].name@, children@[j].name@);
                }
            }
        }
    }
    (false, i)
}

proof fn lemma_sorted_insert(cs: Seq<PrintableNode>, k: int, nd: PrintableNode)
    requires
        0 <= k <= cs.len(),
        names_sorted(cs),
        forall|j: int| 0 <= j < k ==> seq_lt(#[trigger] cs[j].name@, nd.name@),
        forall|j: int| k <= j < cs.len() ==> seq_lt(nd.name@, #[trigger] cs[j].name@),
    ensures
        names_sorted(cs.insert(k, nd)),
{
    let t = cs.insert(k, nd);
    assert forall|p: int, q: int| 0 <= p < q < t.len() implies seq_lt(#[trigger] t[p].name@, #[trigger] t[q].name@) by {
        if p < k && q == k {
        } else if p < k && q > k {
            assert(t[q] == cs[q - 1]);
        } else if p == k && q > k {
            assert(t[q] == cs[q - 1]);
        } else if p > k {
            assert(t[p] == cs[p - 1]);
            assert(t[q] == cs[q - 1]);
        }
    }
}

pub open spec fn rest_of(path: Seq<Vec<u8>>, from: int) -> Seq<Seq<u8>> {
    seg_views(path).skip(from)
}

impl PrintableTree {
    /// Add the import of `leaf` at `path[from..]` to this tree.
    pub fn add_path(self, path: &Vec<Vec<u8>>, from: usize, leaf: &UsedItemLeaf) -> (r: PrintableTree)
        requires
            tree_wf(self),
            from <= path@.len(),
        ensures
            tree_wf(r),
            use_views(r.this_usage@) == use_views(self.this_usage@),
            forall|p: Seq<Seq<u8>>, l: LeafView|
                tree_has(r, p, l) == (tree_has(self, p, l) || (p == rest_of(path@, from as int) && l == leaf@)),
        decreases path@.len() - from,
    {
        let ghost rest = rest_of(path@, from as int);
        let ghost old_t = self;
        let mut t = self;
        if from < path.len() {
            let head = &path[from];
            proof {
                assert(rest.len() > 0 && rest[0] == head@);
                assert(rest.drop_first() =~= rest_of(path@, from + 1));
            }
            let (found, k) = find_child(&t.children, head.as_slice());
            if found {
                let node = t.children.remove(k);
                let ghost old_child = node.child;
                proof {
                    assert(old_child == old_t.children@[k as int].child);
                    assert(child_wf(old_child));
                }
                let bs = node.child.become_subtree();
                let ghost bsg = bs;
                let sub = bs.add_path(path, from + 1, leaf);
                let nd = PrintableNode { name: node.name, child: PrintableChild::Subtree(sub) };
                proof {
                    assert forall|p: Seq<Seq<u8>>, l: LeafView|
                        child_has(nd.child, nd.name@, p, l) == (child_has(old_child, nd.name@, p, l) || (p == rest && l == leaf@)) by {
                        assert(child_has(PrintableChild::Subtree(bsg), nd.name@, p, l) == child_has(old_child, nd.name@, p, l));
                        if p.len() == 0 {
                            assert(use_views(sub.this_usage@) == use_views(bsg.this_usage@));
                            assert(p != rest);
                        } else {
                            assert(tree_has(sub, p.drop_first(), l) == (tree_has(bsg, p.drop_first(), l) || (p.drop_first() == rest_of(path@, from + 1) && l == leaf@)));
                            if p[0] == head@ && p.drop_first() == rest_of(path@, from + 1) {
                                assert(p =~= seq![p[0]] + p.drop_first());
                                assert(rest =~= seq![rest[0]] + rest.drop_first());
                            }
                            if p == rest {
                                assert(p.drop_first() == rest.drop_first());
                            }
                        }
                    }
                }
                t.children.insert(k, nd);
                proof {
                    assert(t.children@ =~= old_t.children@.update(k as int, nd));
                    lemma_tree_update(old_t, t, k as int, nd, rest, leaf@);
                    assert forall|i: int| 0 <= i < t.children@.len() implies child_wf(#[trigger] t.children@[i].child) by {
                        if i != k {
                            assert(t.children@[i] == old_t.children@[i]);
                        }
                    }
                    assert(names_sorted(t.children@)) by {
                        assert forall|p: int, q: int| 0 <= p < q < t.children@.len() implies seq_lt(#[trigger] t.children@[p].name@, #[trigger] t.children@[q].name@) by {
                            assert(t.children@[p].name@ == old_t.children@[p].name@);
                            assert(t.children@[q].name@ == old_t.children@[q].name@);
                        }
                    }
                }
                t
            } else {
                let sub = PrintableTree::new().add_path(path, from + 1, leaf);
                let nd = PrintableNode { name: copy_bytes(head.as_slice()), child: PrintableChild::Subtree(sub) };
                proof {
                    assert forall|p: Seq<Seq<u8>>, l: LeafView| child_has(nd.child, nd.name@, p, l) == (p == rest && l == leaf@) by {
                        if p.len() == 0 {
                            assert(use_views(sub.this_usage@).len() == 0);
                            assert(p != rest);
                        } else {
                            assert(tree_has(sub, p.drop_first(), l) == (p.drop_first() == rest_of(path@, from + 1) && l == leaf@));
                            if p[0] == head@ && p.drop_first() == rest_of(path@, from + 1) {
                                assert(p =~= seq![p[0]] + p.drop_first());
                                assert(rest =~= seq![rest[0]] + rest.drop_first());
                            }
                            if p == rest {
                                assert(p.drop_first() == rest.drop_first());
                            }
                        }
                    }
                    lemma_sorted_insert(old_t.children@, k as int, nd);
                }
                t.children.insert(k, nd);
                proof {
                    lemma_tree_insert(old_t, t, k as int, nd, rest, leaf@);
                    assert forall|i: int| 0 <= i < t.children@.len() implies child_wf(#[trigger] t.children@[i].child) by {
                        if i < k {
                            assert(t.children@[i] == old_t.children@[i]);
                        } else if i > k {
                            assert(t.children@[i] == old_t.children@[i - 1]);
                        }
                    }
                }
                t
            }
        } else {
            proof {
                assert(rest =~= Seq::<Seq<u8>>::empty());
            }
            match leaf {
                UsedItemLeaf::Wildcard => {
                    t.wildcard = true;
                    proof {
                        assert(t.children@ == old_t.children@);
                        assert forall|p: Seq<Seq<u8>>, l: LeafView|
                            tree_has(t, p, l) == (tree_has(old_t, p, l) || (p == rest && l == leaf@)) by {
                            if p.len() == 0 {
                                assert(p =~= rest);
                            }
                            if tree_has(old_t, p, l) && !(p.len() == 0 && l is None && old_t.wildcard) {
                                let i = choose|i: int| 0 <= i < old_t.children@.len() && child_has(#[trigger] old_t.children@[i].child, old_t.children@[i].name@, p, l);
                                assert(child_has(t.children@[i].child, t.children@[i].name@, p, l));
                            }
                            if tree_has(t, p, l) && !(p.len() == 0 && l is None && t.wildcard) {
                                let i = choose|i: int| 0 <= i < t.children@.len() && child_has(#[trigger] t.children@[i].child, t.children@[i].name@, p, l);
                                assert(child_has(old_t.children@[i].child, old_t.children@[i].name@, p, l));
                            }
                        }
                    }
                    t
                },
                UsedItemLeaf::Plain(name, usage) => {
                    let (found, k) = find_child(&t.children, name.as_slice());
                    if found {
                        let node = t.children.remove(k);
                        let ghost old_child = node.child;
                        proof {
                            assert(old_child == old_t.children@[k as int].child);
                        }
                        let nd = PrintableNode { name: node.name, child: node.child.add_usage(usage.duplicate()) };
                        t.children.insert(k, nd);
                        proof {
                            assert forall|p: Seq<Seq<u8>>, l: LeafView|
                                child_has(nd.child, nd.name@, p, l) == (child_has(old_child, nd.name@, p, l) || (p == rest && l == leaf@)) by {
                                if p.len() == 0 {
                                    assert(p =~= rest);
                                }
                            }
                            assert(t.children@ =~= old_t.children@.update(k as int, nd));
                            lemma_tree_update(old_t, t, k as int, nd, rest, leaf@);
                            assert forall|i: int| 0 <= i < t.children@.len() implies child_wf(#[trigger] t.children@[i].child) by {
                                if i != k {
                                    assert(t.children@[i] == old_t.children@[i]);
                                }
                            }
                            assert(names_sorted(t.children@)) by {
                                assert forall|p: int, q: int| 0 <= p < q < t.children@.len() implies seq_lt(#[trigger] t.children@[p].name@, #[trigger] t.children@[q].name@) by {
                                    assert(t.children@[p].name@ == old_t.children@[p].name@);
                                    assert(t.children@[q].name@ == old_t.children@[q].name@);
                                }
                            }
                        }
                        t
                    } else {
                        let nd = PrintableNode { name: copy_bytes(name.as_slice()), child: PrintableChild::Plain(usage.duplicate()) };
                        proof {
                            assert forall|p: Seq<Seq<u8>>, l: LeafView| child_has(nd.child, nd.name@, p, l) == (p == rest && l == leaf@) by {
                                if p.len() == 0 {
                                    assert(p =~= rest);
                                }
                            }
                            lemma_sorted_insert(old_t.children@, k as int, nd);
                        }
                        t.children.insert(k, nd);
                        proof {
                            lemma_tree_insert(old_t, t, k as int, nd, rest, leaf@);
                            assert forall|i: int| 0 <= i < t.children@.len() implies child_wf(#[trigger] t.children@[i].child) by {
                                if i < k {
                                    assert(t.children@[i] == old_t.children@[i]);
                                } else if i > k {
                                    assert(t.children@[i] == old_t.children@[i - 1]);
                                }
                            }
                        }
                        t
                    }
                },
            }
        }
    }

    /// A tree that holds the import of `leaf` at `path[from..]` alone.
    pub fn new_from_path(path: &Vec<Vec<u8>>, from: usize, leaf: &UsedItemLeaf) -> (r: PrintableTree)
        requires
            from <= path@.len(),
        ensures
            tree_wf(r),
            use_views(r.this_usage@).len() == 0,
            forall|p: Seq<Seq<u8>>, l: LeafView| tree_has(r, p, l) == (p == rest_of(path@, from as int) && l == leaf@),
    {
        PrintableTree::new().add_path(path, from, leaf)
    }
}

/// What a declaration is grouped by: conditions, docs, visibility,
/// rootedness and the first identifier of its paths.
#[derive(Debug)]
pub struct PrintableKey {
    pub configs: ConfigsList,
    pub docs: DocsList,
    pub visibility: Option<Visibility>,
    pub rooted: Rooted,
    pub root_ident: Vec<u8>,
}

pub type KeyView = (Seq<Seq<u8>>, Seq<Seq<u8>>, Option<VisibilityView>, bool, Seq<u8>);

impl View for PrintableKey {
    type V = KeyView;

    open spec fn view(&self) -> KeyView {
        (self.configs@, self.docs@, opt_vis_view(self.visibility), self.rooted == Rooted::Rooted, self.root_ident@)
    }
}

pub open spec fn std_word() -> Seq<u8> {
    seq![115u8, 116, 100]
}

pub open spec fn alloc_word() -> Seq<u8> {
    seq![97u8, 108, 108, 111, 99]
}

pub open spec fn core_word() -> Seq<u8> {
    seq![99u8, 111, 114, 101]
}

/// Where a root identifier stands: the standard library first, then
/// dependencies, then `crate`, `super` and `self`.
pub open spec fn locality(root: Seq<u8>) -> int {
    if root == std_word() || root == alloc_word() || root == core_word() {
        0
    } else if root == crate::tree::crate_word() {
        2
    } else if root == crate::tree::super_word() {
        3
    } else if root == crate::flattened::self_word() {
        4
    } else {
        1
    }
}

/// The order of declarations: by locality, then conditions (none first),
/// then rooted before unrooted, then root identifier.
pub open spec fn sort_lt(a: KeyView, b: KeyView) -> bool {
    if locality(a.4) != locality(b.4) {
        locality(a.4) < locality(b.4)
    } else if a.0 != b.0 {
        list_lt(a.0, b.0)
    } else if a.3 != b.3 {
        a.3
    } else {
        seq_lt(a.4, b.4)
    }
}

/// Two keys that the order does not set apart.
pub open spec fn sort_eq(a: KeyView, b: KeyView) -> bool {
    locality(a.4) == locality(b.4) && a.0 == b.0 && a.3 == b.3 && a.4 == b.4
}

proof fn lemma_sort_total(a: KeyView, b: KeyView)
    ensures
        sort_eq(a, b) || sort_lt(a, b) || sort_lt(b, a),
        !(sort_lt(a, b) && sort_lt(b, a)),
        sort_eq(a, b) ==> !sort_lt(a, b),
{
    lemma_list_lt_total(a.0, b.0);
    lemma_seq_lt_total(a.4, b.4);
    lemma_seq_lt_irreflexive(a.4);
    lemma_list_lt_total(a.0, a.0);
}

proof fn lemma_sort_transitive(a: KeyView, b: KeyView, c: KeyView)
    requires
        sort_lt(a, b),
        sort_lt(b, c) || sort_eq(b, c),
    ensures
        sort_lt(a, c),
{
    if sort_lt(b, c) {
        if locality(a.4) == locality(b.4) && locality(b.4) == locality(c.4) {
            if a.0 != b.0 && b.0 != c.0 {
                lemma_list_lt_transitive(a.0, b.0, c.0);
                lemma_list_lt_total(a.0, c.0);
            } else if a.0 == b.0 && b.0 == c.0 {
                if a.3 == b.3 && b.3 == c.3 {
                    lemma_seq_lt_transitive(a.4, b.4, c.4);
                }
            }
        }
    }
}

/// The position of a key: its locality, conditions, rootedness, root.
fn locality_of(root: &Vec<u8>) -> (r: u8)
    ensures
        r as int == locality(root@),
{
    let std_w: Vec<u8> = vec![115u8, 116, 100];
    let alloc_w: Vec<u8> = vec![97u8, 108, 108, 111, 99];
    let core_w: Vec<u8> = vec![99u8, 111, 114, 101];
    let crate_w: Vec<u8> = vec![99u8, 114, 97, 116, 101];
    let super_w: Vec<u8> = vec![115u8, 117, 112, 101, 114];
    let self_w: Vec<u8> = vec![115u8, 101, 108, 102];
    proof {
        assert(std_w@ =~= std_word());
        assert(alloc_w@ =~= alloc_word());
        assert(core_w@ =~= core_word());
        assert(crate_w@ =~= crate::tree::crate_word());
        assert(super_w@ =~= crate::tree::super_word());
        assert(self_w@ =~= crate::flattened::self_word());
    }
    if bytes_eq(root.as_slice(), std_w.as_slice()) || bytes_eq(root.as_slice(), alloc_w.as_slice())
        || bytes_eq(root.as_slice(), core_w.as_slice()) {
        0
    } else if bytes_eq(root.as_slice(), crate_w.as_slice()) {
        2
    } else if bytes_eq(root.as_slice(), super_w.as_slice()) {
        3
    } else if bytes_eq(root.as_slice(), self_w.as_slice()) {
        4
    } else {
        1
    }
}

impl PrintableKey {
    /// Compare two keys in the order of declarations: -1, 0 (not set apart) or 1.
    pub fn compare_sort(&self, other: &PrintableKey) -> (r: i8)
        ensures
            r < 0 <==> sort_lt(self@, other@),
            r > 0 <==> sort_lt(other@, self@),
            r == 0 <==> sort_eq(self@, other@),
    {
        proof {
            lemma_sort_total(self@, other@);
        }
        let la = locality_of(&self.root_ident);
        let lb = locality_of(&other.root_ident);
        if la != lb {
            return if la < lb {
                -1
            } else {
                1
            };
        }
        let c = self.configs.compare(&other.configs);
        if c != 0 {
            return c;
        }
        if self.rooted != other.rooted {
            return if self.rooted == Rooted::Rooted {
                -1
            } else {
                1
            };
        }
        compare_bytes(self.root_ident.as_slice(), other.root_ident.as_slice())
    }

    pub fn same_as(&self, other: &PrintableKey) -> (r: bool)
        ensures
            r == (self@ == other@),
    {
        all_eq(&self.configs.configs, &other.configs.configs) && self.docs.same_as(&other.docs)
            && same_visibility(&self.visibility, &other.visibility) && self.rooted == other.rooted
            && bytes_eq(self.root_ident.as_slice(), other.root_ident.as_slice())
    }
}

/// One declaration: its key and what stands at its root identifier.
#[derive(Debug)]
pub struct PrintableEntry {
    pub key: PrintableKey,
    pub child: PrintableChild,
}

/// The declarations, sorted in the order they are printed in.
#[derive(Debug)]
pub struct PrintableUseItems {
    pub items: Vec<PrintableEntry>,
}

/// Keys are distinct and sorted, and each child is well formed.
pub open spec fn items_wf(items: Seq<PrintableEntry>) -> bool {
    &&& forall|i: int, j: int| 0 <= i < j < items.len() ==> (#[trigger] items[i]).key@ != (#[trigger] items[j]).key@
    &&& forall|i: int, j: int| 0 <= i < j < items.len() ==> !sort_lt(#[trigger] items[j].key@, #[trigger] items[i].key@)
    &&& forall|i: int| 0 <= i < items.len() ==> child_wf(#[trigger] items[i].child)
}

/// The declaration with key `k` holds the import of leaf `l` at path `p`.
pub open spec fn items_has(items: Seq<PrintableEntry>, k: KeyView, p: Seq<Seq<u8>>, l: LeafView) -> bool {
    exists|i: int| 0 <= i < items.len() && (#[trigger] items[i]).key@ == k && child_has(items[i].child, k.4, p, l)
}

/// The key under which an import goes.
pub open spec fn entry_key(c: Seq<Seq<u8>>, d: Seq<Seq<u8>>, v: Option<VisibilityView>, item: PathView) -> KeyView {
    (c, d, v, item.0, if item.1.len() > 0 {
        item.1[0]
    } else {
        item.2->Some_0.0
    })
}

/// An import that can be printed: `*` needs a path before it.
pub open spec fn entry_valid(item: PathView) -> bool {
    item.1.len() > 0 || item.2 is Some
}

impl PrintableUseItems {
    pub open spec fn wf(&self) -> bool {
        items_wf(self.items@)
    }

    /// The declaration with key `k` holds the import of leaf `l` at path `p`.
    pub open spec fn has(&self, k: KeyView, p: Seq<Seq<u8>>, l: LeafView) -> bool {
        items_has(self.items@, k, p, l)
    }

    fn find_key(&self, key: &PrintableKey) -> (r: Option<usize>)
        ensures
            match r {
                Some(k) => k < self.items@.len() && self.items@[k as int].key@ == key@,
                None => forall|i: int| 0 <= i < self.items@.len() ==> (#[trigger] self.items@[i]).key@ != key@,
            },
    {
        let mut i: usize = 0;
        while i < self.items.len()
            invariant
                0 <= i <= self.items@.len(),
                forall|j: int| 0 <= j < i ==> (#[trigger] self.items@[j]).key@ != key@,
            decreases self.items@.len() - i,
        {
            if self.items[i].key.same_as(key) {
                return Some(i);
            }
            i = i + 1;
        }
        None
    }

    /// Where a new key goes: after every key that does not come after it.
    fn insert_point(&self, key: &PrintableKey) -> (r: usize)
        requires
            self.wf(),
        ensures
            r <= self.items@.len(),
            forall|j: int| 0 <= j < r ==> !sort_lt(key@, #[trigger] self.items@[j].key@),
            forall|j: int| r <= j < self.items@.len() ==> sort_lt(key@, #[trigger] self.items@[j].key@),
    {
        let mut i: usize = 0;
        while i < self.items.len() && key.compare_sort(&self.items[i].key) >= 0
            invariant
                0 <= i <= self.items@.len(),
                forall|j: int| 0 <= j < i ==> !sort_lt(key@, #[trigger] self.items@[j].key@),
            decreases self.items@.len() - i,
        {
            i = i + 1;
        }
        proof {
            assert forall|j: int| i <= j < self.items@.len() implies sort_lt(key@, #[trigger] self.items@[j].key@) by {
                if j > i {
                    lemma_sort_total(self.items@[i as int].key@, self.items@[j].key@);
                    lemma_sort_transitive(key@, self.items@[i as int].key@, self.items@[j].key@);
                }
            }
        }
        i
    }

    /// Add a new declaration with the given key and child.
    fn insert_new(&mut self, key: PrintableKey, child: PrintableChild, p0: Ghost<Seq<Seq<u8>>>, l0: Ghost<LeafView>)
        requires
            old(self).wf(),
            child_wf(child),
            forall|i: int| 0 <= i < old(self).items@.len() ==> (#[trigger] old(self).items@[i]).key@ != key@,
            forall|p: Seq<Seq<u8>>, l: LeafView| child_has(child, key@.4, p, l) == (p == p0@ && l == l0@),
        ensures
            final(self).wf(),
            forall|kv: KeyView, p: Seq<Seq<u8>>, l: LeafView|
                #[trigger] final(self).has(kv, p, l) == (old(self).has(kv, p, l) || (kv == key@ && p == p0@ && l == l0@)),
    {
        let k = self.insert_point(&key);
        let ghost kv0 = key@;
        self.items.insert(k, PrintableEntry { key, child });
        proof {
            let o = old(self).items@;
            let n = self.items@;
            assert(n[k as int].key@ == kv0);
            assert forall|j: int| 0 <= j < n.len() && j != k implies (#[trigger] n[j]) == (if j < k { o[j] } else { o[j - 1] }) by {}
            assert forall|kv: KeyView, p: Seq<Seq<u8>>, l: LeafView|
                self.has(kv, p, l) == (old(self).has(kv, p, l) || (kv == kv0 && p == p0@ && l == l0@)) by {
                if kv == kv0 && p == p0@ && l == l0@ {
                    assert(n[k as int].key@ == kv && child_has(n[k as int].child, kv.4, p, l));
                }
                if old(self).has(kv, p, l) {
                    let i = choose|i: int| 0 <= i < o.len() && (#[trigger] o[i]).key@ == kv && child_has(o[i].child, kv.4, p, l);
                    if i < k {
                        assert(n[i].key@ == kv && child_has(n[i].child, kv.4, p, l));
                    } else {
                        assert(n[i + 1] == o[i]);
                        assert(n[i + 1].key@ == kv && child_has(n[i + 1].child, kv.4, p, l));
                    }
                }
                if self.has(kv, p, l) {
                    let i = choose|i: int| 0 <= i < n.len() && (#[trigger] n[i]).key@ == kv && child_has(n[i].child, kv.4, p, l);
                    if i < k {
                        assert(o[i].key@ == kv && child_has(o[i].child, kv.4, p, l));
                    } else if i > k {
                        assert(o[i - 1].key@ == kv && child_has(o[i - 1].child, kv.4, p, l));
                    }
                }
            }
            assert forall|i: int, j: int| 0 <= i < j < n.len() implies (#[trigger] n[i]).key@ != (#[trigger] n[j]).key@ by {
                if i != k && j != k {
                } else if i == k {
                    assert(n[j] == o[j - 1]);
                } else {
                    if i < k {
                        assert(n[i] == o[i]);
                    }
                }
            }
            assert forall|i: int, j: int| 0 <= i < j < n.len() implies !sort_lt(#[trigger] n[j].key@, #[trigger] n[i].key@) by {
                if i == k {
                    assert(n[j] == o[j - 1]);
                    lemma_sort_total(kv0, o[j - 1].key@);
                } else if j == k {
                    assert(n[i] == o[i]);
                    lemma_sort_total(kv0, o[i].key@);
                } else if i < k && j > k {
                    assert(n[i] == o[i]);
                    assert(n[j] == o[j - 1]);
                    if sort_lt(o[j - 1].key@, o[i].key@) {
                        lemma_sort_total(kv0, o[i].key@);
                        lemma_sort_transitive(kv0, o[j - 1].key@, o[i].key@);
                        lemma_sort_total(kv0, o[j - 1].key@);
                        if sort_eq(kv0, o[i].key@) {
                            lemma_sort_total(o[j - 1].key@, kv0);
                        }
                    }
                } else if j < k {
                    assert(n[i] == o[i]);
                    assert(n[j] == o[j]);
                } else {
                    assert(n[i] == o[i - 1]);
                    assert(n[j] == o[j - 1]);
                }
            }
            assert forall|i: int| 0 <= i < n.len() implies child_wf(#[trigger] n[i].child) by {
                if i < k {
                    assert(n[i] == o[i]);
                } else if i > k {
                    assert(n[i] == o[i - 1]);
                }
            }
        }
    }
}

impl PrintableUseItems {
    /// No declarations.
    pub fn new() -> (r: PrintableUseItems)
        ensures
            r.wf(),
            forall|kv: KeyView, p: Seq<Seq<u8>>, l: LeafView| !r.has(kv, p, l),
    {
        PrintableUseItems { items: Vec::new() }
    }

    /// Add one import, with its docs, conditions and visibility, to the
    /// declaration of its key. A `*` without a path before it cannot be
    /// printed and is passed over.
    pub fn add_single_used_item(
        &mut self,
        docs: &DocsList,
        configs: &ConfigsList,
        visibility: &Option<Visibility>,
        item: &SingleUsedItem,
    )
        requires
            old(self).wf(),
        ensures
            final(self).wf(),
            forall|kv: KeyView, p: Seq<Seq<u8>>, l: LeafView|
                #[trigger] final(self).has(kv, p, l) == (old(self).has(kv, p, l) || (entry_valid(item@)
                    && kv == entry_key(configs@, docs@, opt_vis_view(*visibility), item@) && p == item@.1
                    && l == item@.2)),
    {
        let ghost pv = item@;
        let ghost kv0 = entry_key(configs@, docs@, opt_vis_view(*visibility), item@);
        if item.path.len() > 0 {
            let key = PrintableKey {
                configs: configs.duplicate(),
                docs: docs.duplicate(),
                visibility: duplicate_visibility(visibility),
                rooted: item.rooted,
                root_ident: copy_bytes(item.path[0].as_slice()),
            };
            proof {
                assert(key@ == kv0);
                assert(pv.1[0] == key@.4);
                assert(pv.1.drop_first() =~= rest_of(item.path@, 1));
            }
            match self.find_key(&key) {
                Some(k) => {
                    let entry = self.items.remove(k);
                    let ghost old_child = entry.child;
                    let ghost o = old(self).items@;
                    proof {
                        assert(o[k as int].child == old_child);
                        assert(child_wf(old_child));
                    }
                    let bs = entry.child.become_subtree();
                    let ghost bsg = bs;
                    let sub = bs.add_path(&item.path, 1, &item.leaf);
                    let child = PrintableChild::Subtree(sub);
                    self.items.insert(k, entry_with(entry.key, PrintableChild::Plain(NameUse::Used)));
                    proof {
                        assert(self.items@ =~= o.update(k as int, self.items@[k as int]));
                        assert forall|p: Seq<Seq<u8>>, l: LeafView|
                            child_has(child, kv0.4, p, l) == (child_has(old_child, kv0.4, p, l) || (p == pv.1 && l == pv.2)) by {
                            assert(child_has(PrintableChild::Subtree(bsg), kv0.4, p, l) == child_has(old_child, kv0.4, p, l));
                            if p.len() == 0 {
                                assert(p != pv.1);
                            } else {
                                assert(tree_has(sub, p.drop_first(), l) == (tree_has(bsg, p.drop_first(), l) || (p.drop_first() == rest_of(item.path@, 1) && l == pv.2)));
                                if p[0] == kv0.4 && p.drop_first() == rest_of(item.path@, 1) {
                                    assert(p =~= seq![p[0]] + p.drop_first());
                                    assert(pv.1 =~= seq![pv.1[0]] + pv.1.drop_first());
                                }
                                if p == pv.1 {
                                    assert(p.drop_first() == pv.1.drop_first());
                                }
                            }
                        }
                    }
                    self.restore_child(k, child, Ghost(o), Ghost(kv0), Ghost(pv.1), Ghost(pv.2));
                },
                None => {
                    let sub = PrintableTree::new_from_path(&item.path, 1, &item.leaf);
                    let child = PrintableChild::Subtree(sub);
                    proof {
                        assert forall|p: Seq<Seq<u8>>, l: LeafView| child_has(child, kv0.4, p, l) == (p == pv.1 && l == pv.2) by {
                            if p.len() == 0 {
                                assert(use_views(sub.this_usage@).len() == 0);
                                assert(p != pv.1);
                            } else {
                                assert(tree_has(sub, p.drop_first(), l) == (p.drop_first() == rest_of(item.path@, 1) && l == pv.2));
                                if p[0] == kv0.4 && p.drop_first() == rest_of(item.path@, 1) {
                                    assert(p =~= seq![p[0]] + p.drop_first());
                                    assert(pv.1 =~= seq![pv.1[0]] + pv.1.drop_first());
                                }
                                if p == pv.1 {
                                    assert(p.drop_first() == pv.1.drop_first());
                                }
                            }
                        }
                    }
                    self.insert_new(key, child, Ghost(pv.1), Ghost(pv.2));
                },
            }
        } else {
            match &item.leaf {
                UsedItemLeaf::Wildcard => {},
                UsedItemLeaf::Plain(name, usage) => {
                    let key = PrintableKey {
                        configs: configs.duplicate(),
                        docs: docs.duplicate(),
                        visibility: duplicate_visibility(visibility),
                        rooted: item.rooted,
                        root_ident: copy_bytes(name.as_slice()),
                    };
                    proof {
                        assert(key@ == kv0);
                    }
                    match self.find_key(&key) {
                        Some(k) => {
                            let entry = self.items.remove(k);
                            let ghost old_child = entry.child;
                            let ghost o = old(self).items@;
                            proof {
                                assert(o[k as int].child == old_child);
                            }
                            let child = entry.child.add_usage(usage.duplicate());
                            self.items.insert(k, entry_with(entry.key, PrintableChild::Plain(NameUse::Used)));
                            proof {
                                assert(self.items@ =~= o.update(k as int, self.items@[k as int]));
                                assert forall|p: Seq<Seq<u8>>, l: LeafView|
                                    child_has(child, kv0.4, p, l) == (child_has(old_child, kv0.4, p, l) || (p == pv.1 && l == pv.2)) by {
                                    if p.len() == 0 {
                                        assert(p =~= pv.1);
                                    }
                                }
                            }
                            self.restore_child(k, child, Ghost(o), Ghost(kv0), Ghost(pv.1), Ghost(pv.2));
                        },
                        None => {
                            let child = PrintableChild::Plain(usage.duplicate());
                            proof {
                                assert forall|p: Seq<Seq<u8>>, l: LeafView| child_has(child, kv0.4, p, l) == (p == pv.1 && l == pv.2) by {
                                    if p.len() == 0 {
                                        assert(p =~= pv.1);
                                    }
                                }
                            }
                            self.insert_new(key, child, Ghost(pv.1), Ghost(pv.2));
                        },
                    }
                },
            }
        }
    }

    /// Put a child back at `k`, where a placeholder stands in for the child
    /// of `o[k]`.
    fn restore_child(
        &mut self,
        k: usize,
        child: PrintableChild,
        o: Ghost<Seq<PrintableEntry>>,
        key_view: Ghost<KeyView>,
        p0: Ghost<Seq<Seq<u8>>>,
        l0: Ghost<LeafView>,
    )
        requires
            k < o@.len(),
            old(self).items@.len() == o@.len(),
            forall|i: int| 0 <= i < o@.len() && i != k ==> old(self).items@[i] == #[trigger] o@[i],
            old(self).items@[k as int].key@ == o@[k as int].key@,
            items_wf(o@),
            o@[k as int].key@ == key_view@,
            child_wf(child),
            forall|p: Seq<Seq<u8>>, l: LeafView|
                child_has(child, key_view@.4, p, l) == (child_has(o@[k as int].child, key_view@.4, p, l) || (p == p0@ && l == l0@)),
        ensures
            final(self).wf(),
            forall|kv: KeyView, p: Seq<Seq<u8>>, l: LeafView|
                #[trigger] final(self).has(kv, p, l) == (items_has(o@, kv, p, l) || (kv == key_view@ && p == p0@ && l == l0@)),
    {
        let entry = self.items.remove(k);
        self.items.insert(k, PrintableEntry { key: entry.key, child });
        proof {
            let o = o@;
            let n = self.items@;
            assert forall|kv: KeyView, p: Seq<Seq<u8>>, l: LeafView|
                self.has(kv, p, l) == (items_has(o, kv, p, l) || (kv == key_view@ && p == p0@ && l == l0@)) by {
                if kv == key_view@ && p == p0@ && l == l0@ {
                    assert(n[k as int].key@ == kv && child_has(n[k as int].child, kv.4, p, l));
                }
                if items_has(o, kv, p, l) {
                    let i = choose|i: int| 0 <= i < o.len() && (#[trigger] o[i]).key@ == kv && child_has(o[i].child, kv.4, p, l);
                    if i != k {
                        assert(n[i] == o[i]);
                    }
                    assert(n[i].key@ == kv && child_has(n[i].child, kv.4, p, l));
                }
                if self.has(kv, p, l) {
                    let i = choose|i: int| 0 <= i < n.len() && (#[trigger] n[i]).key@ == kv && child_has(n[i].child, kv.4, p, l);
                    if i != k {
                        assert(n[i] == o[i]);
                        assert(o[i].key@ == kv && child_has(o[i].child, kv.4, p, l));
                    }
                }
            }
            assert forall|i: int, j: int| 0 <= i < j < n.len() implies (#[trigger] n[i]).key@ != (#[trigger] n[j]).key@ by {
                assert(n[i].key@ == o[i].key@);
                assert(n[j].key@ == o[j].key@);
            }
            assert forall|i: int, j: int| 0 <= i < j < n.len() implies !sort_lt(#[trigger] n[j].key@, #[trigger] n[i].key@) by {
                assert(n[i].key@ == o[i].key@);
                assert(n[j].key@ == o[j].key@);
            }
            assert forall|i: int| 0 <= i < n.len() implies child_wf(#[trigger] n[i].child) by {
                if i != k {
                    assert(n[i] == o[i]);
                }
            }
        }
    }
}

fn entry_with(key: PrintableKey, child: PrintableChild) -> (r: PrintableEntry)
    ensures
        r.key@ == key@,
{
    PrintableEntry { key, child }
}

/// The imports under the canonical entries `es`: the declaration with key
/// `k` holds the import of leaf `l` at path `p`.
pub open spec fn entries_have(es: Seq<FinalView>, k: KeyView, p: Seq<Seq<u8>>, l: LeafView) -> bool {
    exists|i: int|
        0 <= i < es.len() && entry_valid((#[trigger] es[i]).1) && k == entry_key(es[i].0, es[i].3, es[i].2, es[i].1)
            && p == es[i].1.1 && l == es[i].1.2
}

impl PrintableUseItems {
    /// The declarations that print the canonical entries: each import is in
    /// the declaration of its key, and nothing else is.
    pub fn build_from_use_items(entries: &Vec<FinalEntry>) -> (r: PrintableUseItems)
        ensures
            r.wf(),
            forall|k: KeyView, p: Seq<Seq<u8>>, l: LeafView|
                #[trigger] r.has(k, p, l) == entries_have(final_views(entries@), k, p, l),
    {
        let ghost es = final_views(entries@);
        let mut this = PrintableUseItems::new();
        let mut i: usize = 0;
        while i < entries.len()
            invariant
                0 <= i <= es.len(),
                es == final_views(entries@),
                this.wf(),
                forall|k: KeyView, p: Seq<Seq<u8>>, l: LeafView|
                    #[trigger] this.has(k, p, l) == entries_have(es.take(i as int), k, p, l),
            decreases es.len() - i,
        {
            let e = &entries[i];
            let ghost before = this;
            this.add_single_used_item(&e.docs, &e.configs, &e.visibility, &e.item);
            proof {
                assert forall|k: KeyView, p: Seq<Seq<u8>>, l: LeafView|
                    #[trigger] this.has(k, p, l) == entries_have(es.take(i + 1), k, p, l) by {
                    let t = es.take(i + 1);
                    assert(t[i as int] == es[i as int]);
                    if entries_have(es.take(i as int), k, p, l) {
                        let j = choose|j: int|
                            0 <= j < es.take(i as int).len() && entry_valid((#[trigger] es.take(i as int)[j]).1)
                                && k == entry_key(es.take(i as int)[j].0, es.take(i as int)[j].3, es.take(i as int)[j].2, es.take(i as int)[j].1)
                                && p == es.take(i as int)[j].1.1 && l == es.take(i as int)[j].1.2;
                        assert(t[j] == es.take(i as int)[j]);
                    }
                    if entries_have(t, k, p, l) {
                        let j = choose|j: int|
                            0 <= j < t.len() && entry_valid((#[trigger] t[j]).1) && k == entry_key(t[j].0, t[j].3, t[j].2, t[j].1)
                                && p == t[j].1.1 && l == t[j].1.2;
                        if j < i {
                            assert(es.take(i as int)[j] == t[j]);
                        }
                    }
                }
            }
            i = i + 1;
        }
        proof {
            assert(es.take(i as int) =~= es);
        }
        this
    }
}

pub open spec fn as_word() -> Seq<u8> {
    seq![32u8, 97, 115, 32]
}

pub open spec fn path_sep() -> Seq<u8> {
    seq![58u8, 58]
}

/// A name, with ` as alias` where it is renamed.
pub open spec fn use_text(name: Seq<u8>, u: Option<Seq<u8>>) -> Seq<u8> {
    match u {
        None => name,
        Some(a) => name + as_word() + a,
    }
}

pub open spec fn usage_texts(us: Seq<Option<Seq<u8>>>) -> Seq<Seq<u8>>
    decreases us.len(),
{
    if us.len() == 0 {
        seq![]
    } else {
        usage_texts(us.drop_last()) + seq![use_text(self_text(), us.last())]
    }
}

pub open spec fn self_text() -> Seq<u8> {
    seq![115u8, 101, 108, 102]
}

/// The items of a tree, as printed: `self` usages, `*`, then the children.
pub open spec fn tree_items(t: PrintableTree) -> Seq<Seq<u8>>
    decreases t,
{
    usage_texts(use_views(t.this_usage@)) + (if t.wildcard {
        seq![seq![42u8]]
    } else {
        seq![]
    }) + children_texts(t.children@)
}

pub open spec fn children_texts(cs: Seq<PrintableNode>) -> Seq<Seq<u8>>
    decreases cs,
{
    if cs.len() == 0 {
        seq![]
    } else {
        children_texts(cs.subrange(0, cs.len() - 1)) + seq![child_text(cs[cs.len() - 1].name@, cs[cs.len() - 1].child)]
    }
}

/// What stands at a name: the name alone, or the name and its tree.
pub open spec fn child_text(name: Seq<u8>, c: PrintableChild) -> Seq<u8>
    decreases c,
{
    match c {
        PrintableChild::Plain(u) => use_text(name, u@),
        PrintableChild::Subtree(t) => name + path_sep() + wrap(tree_items(t)),
    }
}

/// Items joined as `a, b, ` (each followed by a comma and a space).
pub open spec fn joined(items: Seq<Seq<u8>>) -> Seq<u8>
    decreases items.len(),
{
    if items.len() == 0 {
        seq![]
    } else {
        joined(items.drop_last()) + items.last() + seq![44u8, 32]
    }
}

/// A single item as it is; any other number of items in braces.
pub open spec fn wrap(items: Seq<Seq<u8>>) -> Seq<u8> {
    if items.len() == 1 {
        items[0]
    } else {
        seq![123u8] + joined(items) + seq![125u8]
    }
}

fn use_text_exec(name: &[u8], usage: &NameUse) -> (r: Vec<u8>)
    ensures
        r@ == use_text(name@, usage@),
{
    let mut r = copy_bytes(name);
    if let NameUse::Renamed(alias) = usage {
        let word: Vec<u8> = vec![32u8, 97, 115, 32];
        push_bytes(&mut r, word.as_slice());
        push_bytes(&mut r, alias.as_slice());
        proof {
            assert(word@ =~= as_word());
            assert(r@ =~= use_text(name@, usage@));
        }
    }
    r
}

pub open spec fn texts(v: Seq<Vec<u8>>) -> Seq<Seq<u8>> {
    v.map_values(|x: Vec<u8>| x@)
}

fn push_text(v: &mut Vec<Vec<u8>>, x: Vec<u8>)
    ensures
        texts(final(v)@) == texts(old(v)@).push(x@),
{
    v.push(x);
    proof {
        assert(texts(v@) =~= texts(old(v)@).push(x@));
    }
}

/// The items of a tree, as printed.
fn tree_items_exec(t: &PrintableTree) -> (r: Vec<Vec<u8>>)
    ensures
        texts(r@) == tree_items(*t),
    decreases t,
{
    let ghost us = use_views(t.this_usage@);
    let mut r: Vec<Vec<u8>> = Vec::new();
    let self_w: Vec<u8> = vec![115u8, 101, 108, 102];
    proof {
        assert(self_w@ =~= self_text());
        assert(us.take(0) =~= Seq::<Option<Seq<u8>>>::empty());
        assert(texts(r@) =~= Seq::<Seq<u8>>::empty());
    }
    let mut i: usize = 0;
    while i < t.this_usage.len()
        invariant
            0 <= i <= us.len(),
            us == use_views(t.this_usage@),
            self_w@ == self_text(),
            texts(r@) == usage_texts(us.take(i as int)),
        decreases us.len() - i,
    {
        proof {
            assert(us.take(i + 1).drop_last() =~= us.take(i as int));
        }
        push_text(&mut r, use_text_exec(self_w.as_slice(), &t.this_usage[i]));
        i = i + 1;
    }
    proof {
        assert(us.take(i as int) =~= us);
    }
    let ghost after_uses = texts(r@);
    if t.wildcard {
        let star: Vec<u8> = vec![42u8];
        proof {
            assert(star@ =~= seq![42u8]);
        }
        push_text(&mut r, star);
        proof {
            assert(texts(r@) =~= after_uses + seq![seq![42u8]]);
        }
    } else {
        proof {
            assert(texts(r@) =~= after_uses + Seq::<Seq<u8>>::empty());
        }
    }
    let ghost head = texts(r@);
    let ghost cs = t.children@;
    let mut j: usize = 0;
    proof {
        assert(cs.subrange(0, 0) =~= Seq::<PrintableNode>::empty());
        assert(head + children_texts(cs.subrange(0, 0)) =~= head);
    }
    while j < t.children.len()
        invariant
            0 <= j <= cs.len(),
            cs == t.children@,
            texts(r@) == head + children_texts(cs.subrange(0, j as int)),
        decreases cs.len() - j,
    {
        proof {
            assert(decreases_to!(*t => t.children));
            assert(decreases_to!(t.children => t.children@));
            assert(decreases_to!(t.children@ => t.children@[j as int]));
            assert(decreases_to!(t.children@[j as int] => t.children@[j as int].child));
            assert(cs.subrange(0, j + 1).subrange(0, j as int) =~= cs.subrange(0, j as int));
            assert(cs.subrange(0, j + 1)[j as int] == cs[j as int]);
        }
        let node = &t.children[j];
        let text = child_text_exec(node.name.as_slice(), &node.child);
        push_text(&mut r, text);
        proof {
            assert(texts(r@) =~= head + children_texts(cs.subrange(0, j + 1)));
        }
        j = j + 1;
    }
    proof {
        assert(cs.subrange(0, j as int) =~= cs);
    }
    r
}

/// What stands at a name, as printed.
fn child_text_exec(name: &[u8], c: &PrintableChild) -> (r: Vec<u8>)
    ensures
        r@ == child_text(name@, *c),
    decreases c,
{
    match c {
        PrintableChild::Plain(u) => use_text_exec(name, u),
        PrintableChild::Subtree(t) => {
            let items = tree_items_exec(t);
            let mut r = copy_bytes(name);
            let sep: Vec<u8> = vec![58u8, 58];
            push_bytes(&mut r, sep.as_slice());
            let w = wrap_exec(&items);
            push_bytes(&mut r, w.as_slice());
            proof {
                assert(sep@ =~= path_sep());
                assert(r@ =~= child_text(name@, *c));
            }
            r
        },
    }
}

fn wrap_exec(items: &Vec<Vec<u8>>) -> (r: Vec<u8>)
    ensures
        r@ == wrap(texts(items@)),
{
    if items.len() == 1 {
        return copy_bytes(items[0].as_slice());
    }
    let ghost ts = texts(items@);
    let mut r: Vec<u8> = vec![123u8];
    let ghost open_brace = r@;
    let mut i: usize = 0;
    proof {
        assert(ts.take(0) =~= Seq::<Seq<u8>>::empty());
        assert(r@ =~= open_brace + joined(ts.take(0)));
    }
    while i < items.len()
        invariant
            0 <= i <= ts.len(),
            ts == texts(items@),
            open_brace == seq![123u8],
            r@ == open_brace + joined(ts.take(i as int)),
        decreases ts.len() - i,
    {
        proof {
            assert(ts.take(i + 1).drop_last() =~= ts.take(i as int));
        }
        push_bytes(&mut r, items[i].as_slice());
        let comma: Vec<u8> = vec![44u8, 32];
        push_bytes(&mut r, comma.as_slice());
        proof {
            assert(comma@ =~= seq![44u8, 32]);
            assert(r@ =~= open_brace + joined(ts.take(i + 1)));
        }
        i = i + 1;
    }
    r.push(125u8);
    proof {
        assert(ts.take(i as int) =~= ts);
        assert(r@ =~= wrap(ts));
    }
    r
}

/// Path segments joined with `::`.
pub open spec fn path_join(segs: Seq<Seq<u8>>) -> Seq<u8>
    decreases segs.len(),
{
    if segs.len() == 0 {
        seq![]
    } else if segs.len() == 1 {
        segs[0]
    } else {
        path_join(segs.drop_last()) + path_sep() + segs.last()
    }
}

/// A visibility as written: `pub`, `pub(crate)`, `pub(self)`, `pub(super)`, `pub(in PATH)`.
pub open spec fn vis_text(v: VisibilityView) -> Seq<u8> {
    let pub_w = seq![112u8, 117, 98];
    match v {
        VisibilityView::Public => pub_w,
        VisibilityView::Crate => pub_w + seq![40u8, 99, 114, 97, 116, 101, 41],
        VisibilityView::This => pub_w + seq![40u8, 115, 101, 108, 102, 41],
        VisibilityView::Super => pub_w + seq![40u8, 115, 117, 112, 101, 114, 41],
        VisibilityView::In(lc, segs) => pub_w + seq![40u8, 105, 110, 32] + (if lc {
            path_sep()
        } else {
            seq![]
        }) + path_join(segs) + seq![41u8],
    }
}

/// One `#[cfg(...)]` line per condition.
pub open spec fn configs_text(cs: Seq<Seq<u8>>) -> Seq<u8>
    decreases cs.len(),
{
    if cs.len() == 0 {
        seq![]
    } else {
        configs_text(cs.drop_last()) + cfg_text(cs.last()) + seq![10u8]
    }
}

/// One declaration: its conditions, its visibility, `use`, an optional
/// leading `::`, its root and tree, `;` and a newline.
pub open spec fn decl_text(k: KeyView, c: PrintableChild) -> Seq<u8> {
    configs_text(k.0) + (match k.2 {
        Some(v) => vis_text(v) + seq![32u8],
        None => seq![],
    }) + seq![117u8, 115, 101, 32] + (if k.3 {
        path_sep()
    } else {
        seq![]
    }) + child_text(k.4, c) + seq![59u8, 10]
}

/// Declarations whose keys differ in locality, or in having conditions at
/// all, stand in separate groups.
pub open spec fn spaced(a: KeyView, b: KeyView) -> bool {
    locality(a.4) != locality(b.4) || (a.0.len() == 0) != (b.0.len() == 0)
}

/// The declarations in order, with a blank line between groups.
pub open spec fn forest_text(items: Seq<PrintableEntry>) -> Seq<u8>
    decreases items.len(),
{
    if items.len() == 0 {
        seq![]
    } else {
        forest_text(items.drop_last()) + (if items.len() > 1 && spaced(
            items[items.len() - 2].key@,
            items.last().key@,
        ) {
            seq![10u8]
        } else {
            seq![]
        }) + decl_text(items.last().key@, items.last().child)
    }
}

fn vis_text_exec(v: &Visibility) -> (r: Vec<u8>)
    ensures
        r@ == vis_text(v@),
{
    let mut r: Vec<u8> = vec![112u8, 117, 98];
    let ghost pub_w = r@;
    proof {
        assert(pub_w =~= seq![112u8, 117, 98]);
    }
    match v {
        Visibility::Public => {},
        Visibility::Crate => {
            let t: Vec<u8> = vec![40u8, 99, 114, 97, 116, 101, 41];
            push_bytes(&mut r, t.as_slice());
            proof {
                assert(t@ =~= seq![40u8, 99, 114, 97, 116, 101, 41]);
            }
        },
        Visibility::This => {
            let t: Vec<u8> = vec![40u8, 115, 101, 108, 102, 41];
            push_bytes(&mut r, t.as_slice());
            proof {
                assert(t@ =~= seq![40u8, 115, 101, 108, 102, 41]);
            }
        },
        Visibility::Super => {
            let t: Vec<u8> = vec![40u8, 115, 117, 112, 101, 114, 41];
            push_bytes(&mut r, t.as_slice());
            proof {
                assert(t@ =~= seq![40u8, 115, 117, 112, 101, 114, 41]);
            }
        },
        Visibility::In(path) => {
            let t: Vec<u8> = vec![40u8, 105, 110, 32];
            push_bytes(&mut r, t.as_slice());
            let sep: Vec<u8> = vec![58u8, 58];
            proof {
                assert(t@ =~= seq![40u8, 105, 110, 32]);
                assert(sep@ =~= path_sep());
            }
            let ghost before = r@;
            if path.leading_colon {
                push_bytes(&mut r, sep.as_slice());
            }
            let ghost lead = if path.leading_colon { path_sep() } else { Seq::<u8>::empty() };
            proof {
                assert(r@ =~= before + lead);
            }
            let ghost segs = seg_views(path.segments@);
            let ghost start = r@;
            let mut i: usize = 0;
            proof {
                assert(segs.take(0) =~= Seq::<Seq<u8>>::empty());
                assert(start + path_join(segs.take(0)) =~= start);
            }
            while i < path.segments.len()
                invariant
                    0 <= i <= segs.len(),
                    segs == seg_views(path.segments@),
                    sep@ == path_sep(),
                    r@ == start + path_join(segs.take(i as int)),
                decreases segs.len() - i,
            {
                proof {
                    assert(segs.take(i + 1).drop_last() =~= segs.take(i as int));
                }
                if i > 0 {
                    push_bytes(&mut r, sep.as_slice());
                }
                push_bytes(&mut r, path.segments[i].as_slice());
                proof {
                    if i == 0 {
                        assert(segs.take(1) =~= seq![segs[0]]);
                    }
                    assert(r@ =~= start + path_join(segs.take(i + 1)));
                }
                i = i + 1;
            }
            r.push(41u8);
            proof {
                assert(segs.take(i as int) =~= segs);
                assert(r@ =~= vis_text(v@));
            }
        },
    }
    r
}

/// Write a declaration. Indentation and line wrapping are left to a formatter.
fn format_use_item(dest: &mut Vec<u8>, key: &PrintableKey, tree: &PrintableChild)
    ensures
        final(dest)@ == old(dest)@ + decl_text(key@, *tree),
{
    let ghost cs = key.configs@;
    let mut i: usize = 0;
    proof {
        assert(cs.take(0) =~= Seq::<Seq<u8>>::empty());
        assert(dest@ =~= old(dest)@ + configs_text(cs.take(0)));
    }
    while i < key.configs.configs.len()
        invariant
            0 <= i <= cs.len(),
            cs == key.configs@,
            dest@ == old(dest)@ + configs_text(cs.take(i as int)),
        decreases cs.len() - i,
    {
        proof {
            assert(cs.take(i + 1).drop_last() =~= cs.take(i as int));
        }
        let line = Config(copy_bytes(key.configs.configs[i].as_slice())).to_text();
        push_bytes(dest, line.as_slice());
        dest.push(10u8);
        proof {
            assert(dest@ =~= old(dest)@ + configs_text(cs.take(i + 1)));
        }
        i = i + 1;
    }
    proof {
        assert(cs.take(i as int) =~= cs);
    }
    let ghost after_cfg = dest@;
    if let Some(v) = &key.visibility {
        let t = vis_text_exec(v);
        push_bytes(dest, t.as_slice());
        dest.push(32u8);
    }
    let ghost vis_part = match opt_vis_view(key.visibility) {
        Some(v) => vis_text(v) + seq![32u8],
        None => Seq::<u8>::empty(),
    };
    proof {
        assert(dest@ =~= after_cfg + vis_part);
    }
    let use_w: Vec<u8> = vec![117u8, 115, 101, 32];
    push_bytes(dest, use_w.as_slice());
    let ghost after_use = dest@;
    if key.rooted == Rooted::Rooted {
        let sep: Vec<u8> = vec![58u8, 58];
        push_bytes(dest, sep.as_slice());
        proof {
            assert(sep@ =~= path_sep());
        }
    }
    let ghost root_part = if key@.3 { path_sep() } else { Seq::<u8>::empty() };
    proof {
        assert(dest@ =~= after_use + root_part);
    }
    let text = child_text_exec(key.root_ident.as_slice(), tree);
    push_bytes(dest, text.as_slice());
    let end_w: Vec<u8> = vec![59u8, 10];
    push_bytes(dest, end_w.as_slice());
    proof {
        assert(use_w@ =~= seq![117u8, 115, 101, 32]);
        assert(end_w@ =~= seq![59u8, 10]);
        assert(dest@ =~= old(dest)@ + decl_text(key@, *tree));
    }
}

impl PrintableUseItems {
    /// The declarations as text, in order, with a blank line between groups.
    pub fn to_text(&self) -> (r: Vec<u8>)
        ensures
            r@ == forest_text(self.items@),
    {
        let ghost its = self.items@;
        let mut r: Vec<u8> = Vec::new();
        let mut i: usize = 0;
        proof {
            assert(its.take(0) =~= Seq::<PrintableEntry>::empty());
        }
        while i < self.items.len()
            invariant
                0 <= i <= its.len(),
                its == self.items@,
                r@ == forest_text(its.take(i as int)),
            decreases its.len() - i,
        {
            proof {
                assert(its.take(i + 1).drop_last() =~= its.take(i as int));
            }
            let ghost before = r@;
            if i > 0 && self.items[i].key.is_spaced_from(&self.items[i - 1].key) {
                r.push(10u8);
            }
            proof {
                let t = its.take(i + 1);
                assert(t.len() > 1 ==> t[t.len() - 2] == its[i - 1]);
                assert(t.last() == its[i as int]);
            }
            format_use_item(&mut r, &self.items[i].key, &self.items[i].child);
            proof {
                assert(r@ =~= forest_text(its.take(i + 1)));
            }
            i = i + 1;
        }
        proof {
            assert(its.take(i as int) =~= its);
        }
        r
    }
}

impl PrintableKey {
    /// Whether a blank line separates the declarations of two keys: they
    /// differ in locality, or one has conditions and the other none.
    pub fn is_spaced_from(&self, other: &PrintableKey) -> (r: bool)
        ensures
            r == spaced(self@, other@),
    {
        locality_of(&self.root_ident) != locality_of(&other.root_ident) || self.configs.is_empty()
            != other.configs.is_empty()
    }
}

} // verus!
