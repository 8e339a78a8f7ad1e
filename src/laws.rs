//! Properties that hold of every run, stated over the spec functions that
//! the library's contracts use, and proved.
use vstd::prelude::*;

use crate::flattened::{add_path, add_paths, add_props, all_entries, canonical, entry_subsumes, group_entries, index_of, item_views, keep_unsubsumed, path_index, subsumed_in, FinalView, GroupView, NormalizedView, PathView};
use crate::extract::AnnotatedUseItem;
use crate::fix::{add_items, both_sides};
use crate::gitfile::{chunk_numbered, numbered, side_lines, total_width, width, Chunk, GitFile, Line, Side, chunk_side_lines};
use crate::printable::{decl_text, forest_text, sort_lt, spaced, PrintableUseItems};
use crate::write_file::{conflict_text, filtered, raw, chunk_text, corrected_text, footer_line, header_line, inject, separator, split_points, InsertPoint};
use crate::gitfile::{Conflict, LineSet};
use crate::bytes::{flat, seq_lt};
use crate::flattened::{subsumes, LeafView};
use crate::printable::use_lt;
use crate::tree::list_lt;

verus! {

proof fn lemma_kept_are_unsubsumed(es: Seq<FinalView>, all: Seq<FinalView>)
    ensures
        forall|k: int| 0 <= k < keep_unsubsumed(es, all).len() ==> {
            &&& es.contains(#[trigger] keep_unsubsumed(es, all)[k])
            &&& !subsumed_in(all, keep_unsubsumed(es, all)[k])
        },
    decreases es.len(),
{
    if es.len() > 0 {
        lemma_kept_are_unsubsumed(es.drop_last(), all);
        let prev = keep_unsubsumed(es.drop_last(), all);
        assert forall|k: int| 0 <= k < keep_unsubsumed(es, all).len() implies {
            &&& es.contains(#[trigger] keep_unsubsumed(es, all)[k])
            &&& !subsumed_in(all, keep_unsubsumed(es, all)[k])
        } by {
            if k < prev.len() {
                assert(keep_unsubsumed(es, all)[k] == prev[k]);
                let m = choose|m: int| 0 <= m < es.drop_last().len() && es.drop_last()[m] == prev[k];
                assert(es[m] == prev[k]);
            } else {
                assert(keep_unsubsumed(es, all)[k] == es.last());
                assert(es[es.len() - 1] == es.last());
            }
        }
    }
}

/// Subsumption soundness: no import of the canonical set is taken in by
/// another import of it with the same conditions, visibility and docs.
pub proof fn lemma_canonical_has_no_subsumed(ns: Seq<NormalizedView>)
    ensures
        forall|i: int, j: int|
            0 <= i < canonical(ns).len() && 0 <= j < canonical(ns).len() ==> !entry_subsumes(
                #[trigger] canonical(ns)[j],
                #[trigger] canonical(ns)[i],
            ),
{
    let all = all_entries(ns);
    lemma_kept_are_unsubsumed(all, all);
    assert forall|i: int, j: int|
        0 <= i < canonical(ns).len() && 0 <= j < canonical(ns).len() implies !entry_subsumes(
            #[trigger] canonical(ns)[j],
            #[trigger] canonical(ns)[i],
        ) by {
        let c = canonical(ns);
        if entry_subsumes(c[j], c[i]) {
            assert(all.contains(c[j]));
            let m = choose|m: int| 0 <= m < all.len() && all[m] == c[j];
            assert(entry_subsumes(all[m], c[i]));
            assert(subsumed_in(all, c[i]));
        }
    }
}

/// The lines of one version of the chunks carry increasing numbers between
/// `start` and `start + total_width(cs)`.
proof fn lemma_side_numbers(cs: Seq<Chunk<Line>>, start: nat, side: Side)
    requires
        numbered(cs, start),
    ensures
        forall|i: int|
            0 <= i < side_lines(cs, side).len() ==> start <= (#[trigger] side_lines(cs, side)[i]).line_number.0
                < start + total_width(cs),
        forall|i: int, j: int|
            0 <= i < j < side_lines(cs, side).len() ==> (#[trigger] side_lines(cs, side)[i]).line_number.0
                < (#[trigger] side_lines(cs, side)[j]).line_number.0,
    decreases cs.len(),
{
    if cs.len() > 0 {
        let prev = cs.drop_last();
        lemma_side_numbers(prev, start, side);
        let base = start + total_width(prev);
        let c = cs.last();
        let tail = chunk_side_lines(c, side);
        let ls = side_lines(cs, side);
        let pl = side_lines(prev, side);
        assert(ls == pl + tail);
        assert(chunk_numbered(c, base));
        assert forall|k: int| 0 <= k < tail.len() implies base <= (#[trigger] tail[k]).line_number.0 < base + width(c)
            && (forall|k2: int| k < k2 < tail.len() ==> tail[k].line_number.0 < (#[trigger] tail[k2]).line_number.0) by {
            match c {
                Chunk::Line(l) => {},
                Chunk::Conflict(cf) => {
                    match side {
                        Side::Left => {
                            assert(tail == cf.left.lines@);
                        },
                        Side::Right => {
                            assert(tail == cf.right.lines@);
                        },
                    }
                },
            }
        }
        assert forall|i: int| 0 <= i < ls.len() implies start <= (#[trigger] ls[i]).line_number.0 < start + total_width(cs) by {
            if i >= pl.len() {
                assert(ls[i] == tail[i - pl.len()]);
            } else {
                assert(ls[i] == pl[i]);
            }
        }
        assert forall|i: int, j: int| 0 <= i < j < ls.len() implies (#[trigger] ls[i]).line_number.0 < (#[trigger] ls[j]).line_number.0 by {
            if j < pl.len() {
                assert(ls[i] == pl[i]);
                assert(ls[j] == pl[j]);
            } else if i < pl.len() {
                assert(ls[i] == pl[i]);
                assert(ls[j] == tail[j - pl.len()]);
            } else {
                assert(ls[i] == tail[i - pl.len()]);
                assert(ls[j] == tail[j - pl.len()]);
            }
        }
    }
}

/// Line `n` is a header, separator or footer of the chunk, whose first line is `s`.
pub open spec fn chunk_marker(c: Chunk<Line>, s: nat, n: int) -> bool {
    match c {
        Chunk::Line(_) => false,
        Chunk::Conflict(cf) => n == s || n == s + 1 + cf.left.lines@.len() || n == s + 2 + cf.left.lines@.len()
            + cf.right.lines@.len(),
    }
}

/// Line `n` is a marker line of the chunks, numbered from `start`.
pub open spec fn is_marker_in(cs: Seq<Chunk<Line>>, start: nat, n: int) -> bool
    decreases cs.len(),
{
    cs.len() > 0 && (is_marker_in(cs.drop_last(), start, n) || chunk_marker(
        cs.last(),
        start + total_width(cs.drop_last()),
        n,
    ))
}

proof fn lemma_markers_apart(cs: Seq<Chunk<Line>>, start: nat, side: Side)
    requires
        numbered(cs, start),
    ensures
        forall|n: int| is_marker_in(cs, start, n) ==> start <= n < start + total_width(cs),
        forall|i: int|
            0 <= i < side_lines(cs, side).len() ==> !is_marker_in(
                cs,
                start,
                (#[trigger] side_lines(cs, side)[i]).line_number.0 as int,
            ),
    decreases cs.len(),
{
    if cs.len() > 0 {
        let prev = cs.drop_last();
        lemma_markers_apart(prev, start, side);
        lemma_side_numbers(prev, start, side);
        let base = start + total_width(prev);
        let c = cs.last();
        let tail = chunk_side_lines(c, side);
        let ls = side_lines(cs, side);
        let pl = side_lines(prev, side);
        assert(ls == pl + tail);
        assert(chunk_numbered(c, base));
        assert forall|n: int| is_marker_in(cs, start, n) implies start <= n < start + total_width(cs) by {
            assert(total_width(cs) == total_width(prev) + width(c));
            if !is_marker_in(prev, start, n) {
                assert(chunk_marker(c, base, n));
            }
        }
        assert forall|i: int| 0 <= i < ls.len() implies !is_marker_in(cs, start, (#[trigger] ls[i]).line_number.0 as int) by {
            let n = ls[i].line_number.0 as int;
            if i < pl.len() {
                assert(ls[i] == pl[i]);
                assert(n < base);
                assert(!is_marker_in(prev, start, n));
                assert(!chunk_marker(c, base, n));
            } else {
                assert(ls[i] == tail[i - pl.len()]);
                let k = i - pl.len();
                assert(!is_marker_in(prev, start, n)) by {
                    if is_marker_in(prev, start, n) {
                        assert(n < base);
                    }
                }
                match c {
                    Chunk::Line(l) => {},
                    Chunk::Conflict(cf) => {
                        match side {
                            Side::Left => {
                                assert(tail == cf.left.lines@);
                                assert(n == base + 1 + k);
                            },
                            Side::Right => {
                                assert(tail == cf.right.lines@);
                                assert(n == base + 2 + cf.left.lines@.len() + k);
                            },
                        }
                    },
                }
            }
        }
    }
}

/// The map from the lines of one version of a file to the lines of the
/// conflicted file is one to one onto the lines of that version: it
/// strictly increases, its values are line numbers of the file, and no
/// marker line is among them.
pub proof fn lemma_derived_lines_map_one_to_one(file: GitFile, side: Side)
    requires
        file.wf(),
    ensures
        forall|i: int, j: int|
            0 <= i < j < side_lines(file.chunks@, side).len() ==> (#[trigger] side_lines(file.chunks@, side)[i]).line_number.0
                < (#[trigger] side_lines(file.chunks@, side)[j]).line_number.0,
        forall|i: int|
            0 <= i < side_lines(file.chunks@, side).len() ==> 1 <= (#[trigger] side_lines(file.chunks@, side)[i]).line_number.0
                <= total_width(file.chunks@),
        forall|i: int|
            0 <= i < side_lines(file.chunks@, side).len() ==> !is_marker_in(
                file.chunks@,
                1,
                (#[trigger] side_lines(file.chunks@, side)[i]).line_number.0 as int,
            ),
{
    lemma_side_numbers(file.chunks@, 1, side);
    lemma_markers_apart(file.chunks@, 1, side);
}

/// Sort discipline: the declarations stand in the order of their keys, and
/// the text has one declaration after another, with a blank line exactly
/// between two declarations whose keys differ in locality or in having
/// conditions at all.
pub proof fn lemma_sort_discipline(f: PrintableUseItems)
    requires
        f.wf(),
    ensures
        forall|i: int, j: int|
            0 <= i < j < f.items@.len() ==> !sort_lt(#[trigger] f.items@[j].key@, #[trigger] f.items@[i].key@),
        forall|i: int|
            0 < i < f.items@.len() ==> #[trigger] forest_text(f.items@.take(i + 1)) == forest_text(f.items@.take(i)) + (
            if spaced(f.items@[i - 1].key@, f.items@[i].key@) {
                seq![10u8]
            } else {
                seq![]
            }) + decl_text(f.items@[i].key@, f.items@[i].child),
        f.items@.len() > 0 ==> forest_text(f.items@.take(1)) == decl_text(f.items@[0].key@, f.items@[0].child),
{
    let its = f.items@;
    assert forall|i: int| 0 < i < its.len() implies #[trigger] forest_text(its.take(i + 1)) == forest_text(its.take(i)) + (
        if spaced(its[i - 1].key@, its[i].key@) {
            seq![10u8]
        } else {
            seq![]
        }) + decl_text(its[i].key@, its[i].child) by {
        assert(its.take(i + 1).drop_last() =~= its.take(i));
        assert(its.take(i + 1)[i - 1] == its[i - 1]);
    }
    if its.len() > 0 {
        let t = its.take(1);
        assert(t.drop_last() =~= Seq::<crate::printable::PrintableEntry>::empty());
        assert(t.last() == its[0]);
        assert(forest_text(t.drop_last()) == Seq::<u8>::empty());
        assert(forest_text(t) =~= decl_text(its[0].key@, its[0].child));
    }
}

/// Some group of `gs` has conditions `c`, or none.
pub open spec fn group_covers(gs: Seq<GroupView>, c: Seq<Seq<u8>>) -> bool {
    exists|g: int| 0 <= g < gs.len() && ((#[trigger] gs[g]).0 == c || gs[g].0 == Seq::<Seq<u8>>::empty())
}

/// Path `p` has an entry with conditions `c`, or with none.
pub open spec fn covered(ns: Seq<NormalizedView>, p: PathView, c: Seq<Seq<u8>>) -> bool {
    exists|k: int| 0 <= k < ns.len() && (#[trigger] ns[k]).0 == p && group_covers(ns[k].1, c)
}

proof fn lemma_index_of_is(gs: Seq<GroupView>, c: Seq<Seq<u8>>)
    ensures
        index_of(gs, c) >= 0 ==> index_of(gs, c) < gs.len() && gs[index_of(gs, c)].0 == c,
        index_of(gs, c) >= -1,
    decreases gs.len(),
{
    if gs.len() > 0 {
        lemma_index_of_is(gs.drop_last(), c);
    }
}

proof fn lemma_path_index_is(ns: Seq<NormalizedView>, p: PathView)
    ensures
        path_index(ns, p) >= 0 ==> path_index(ns, p) < ns.len() && ns[path_index(ns, p)].0 == p,
        path_index(ns, p) >= -1,
    decreases ns.len(),
{
    if ns.len() > 0 {
        lemma_path_index_is(ns.drop_last(), p);
    }
}

proof fn lemma_add_props_covers(gs: Seq<GroupView>, c: Seq<Seq<u8>>, v: Option<crate::tree::VisibilityView>, d: Seq<Seq<u8>>)
    ensures
        group_covers(add_props(gs, c, v, d), c),
        forall|c2: Seq<Seq<u8>>| group_covers(gs, c2) ==> #[trigger] group_covers(add_props(gs, c, v, d), c2),
{
    lemma_index_of_is(gs, Seq::<Seq<u8>>::empty());
    lemma_index_of_is(gs, c);
    let r = add_props(gs, c, v, d);
    let u = index_of(gs, seq![]);
    if u >= 0 {
        assert(r[u].0 == Seq::<Seq<u8>>::empty());
    } else if c.len() == 0 {
        assert(r[0].0 == c);
    } else {
        let k = index_of(gs, c);
        if k >= 0 {
            assert(r[k].0 == c);
        } else {
            assert(r[gs.len() as int].0 == c);
        }
    }
    assert forall|c2: Seq<Seq<u8>>| group_covers(gs, c2) implies #[trigger] group_covers(r, c2) by {
        let g = choose|g: int| 0 <= g < gs.len() && ((#[trigger] gs[g]).0 == c2 || gs[g].0 == Seq::<Seq<u8>>::empty());
        if u >= 0 {
            assert(r[g].0 == gs[g].0);
        } else if c.len() == 0 {
            assert(r[0].0 == Seq::<Seq<u8>>::empty());
        } else {
            assert(r[g].0 == gs[g].0);
        }
    }
}

proof fn lemma_add_path_covers(ns: Seq<NormalizedView>, p: PathView, c: Seq<Seq<u8>>, v: Option<crate::tree::VisibilityView>, d: Seq<Seq<u8>>)
    ensures
        covered(add_path(ns, p, c, v, d), p, c),
        forall|p2: PathView, c2: Seq<Seq<u8>>| covered(ns, p2, c2) ==> #[trigger] covered(add_path(ns, p, c, v, d), p2, c2),
{
    lemma_path_index_is(ns, p);
    let k = path_index(ns, p);
    let r = add_path(ns, p, c, v, d);
    if k >= 0 {
        lemma_add_props_covers(ns[k].1, c, v, d);
        assert(r[k].0 == p);
    } else {
        lemma_add_props_covers(Seq::<GroupView>::empty(), c, v, d);
        assert(r[ns.len() as int].0 == p);
    }
    assert forall|p2: PathView, c2: Seq<Seq<u8>>| covered(ns, p2, c2) implies #[trigger] covered(r, p2, c2) by {
        let j = choose|j: int| 0 <= j < ns.len() && (#[trigger] ns[j]).0 == p2 && group_covers(ns[j].1, c2);
        if k >= 0 && j == k {
            assert(group_covers(r[j].1, c2));
        }
        assert(r[j].0 == p2 && group_covers(r[j].1, c2));
    }
}

proof fn lemma_add_paths_covers(ns: Seq<NormalizedView>, ps: Seq<PathView>, c: Seq<Seq<u8>>, v: Option<crate::tree::VisibilityView>, d: Seq<Seq<u8>>)
    ensures
        forall|i: int| 0 <= i < ps.len() ==> covered(add_paths(ns, ps, c, v, d), #[trigger] ps[i], c),
        forall|p2: PathView, c2: Seq<Seq<u8>>| covered(ns, p2, c2) ==> #[trigger] covered(add_paths(ns, ps, c, v, d), p2, c2),
    decreases ps.len(),
{
    if ps.len() > 0 {
        let prev = add_paths(ns, ps.drop_last(), c, v, d);
        lemma_add_paths_covers(ns, ps.drop_last(), c, v, d);
        lemma_add_path_covers(prev, ps.last(), c, v, d);
        assert forall|i: int| 0 <= i < ps.len() implies covered(add_paths(ns, ps, c, v, d), #[trigger] ps[i], c) by {
            if i < ps.len() - 1 {
                assert(ps.drop_last()[i] == ps[i]);
            }
        }
    }
}

/// The declarations import path `p` under conditions `c`.
pub open spec fn imported_by(items: Seq<AnnotatedUseItem>, p: PathView, c: Seq<Seq<u8>>) -> bool {
    exists|i: int, j: int|
        0 <= i < items.len() && 0 <= j < items[i].use_item.children@.len() && #[trigger] item_views(
            items[i].use_item.children@,
        )[j] == p && items[i].use_item.configs@ == c
}

proof fn lemma_add_items_covers(ns: Seq<NormalizedView>, items: Seq<AnnotatedUseItem>)
    ensures
        forall|p: PathView, c: Seq<Seq<u8>>| imported_by(items, p, c) ==> #[trigger] covered(add_items(ns, items), p, c),
        forall|p2: PathView, c2: Seq<Seq<u8>>| covered(ns, p2, c2) ==> #[trigger] covered(add_items(ns, items), p2, c2),
    decreases items.len(),
{
    if items.len() > 0 {
        let prev = add_items(ns, items.drop_last());
        let u = items.last().use_item;
        lemma_add_items_covers(ns, items.drop_last());
        lemma_add_paths_covers(prev, item_views(u.children@), u.configs@, crate::tree::opt_vis_view(u.visibility), u.docs@);
        assert forall|p: PathView, c: Seq<Seq<u8>>| imported_by(items, p, c) implies #[trigger] covered(add_items(ns, items), p, c) by {
            let (i, j) = choose|i: int, j: int|
                0 <= i < items.len() && 0 <= j < items[i].use_item.children@.len() && #[trigger] item_views(
                    items[i].use_item.children@,
                )[j] == p && items[i].use_item.configs@ == c;
            if i < items.len() - 1 {
                assert(items.drop_last()[i] == items[i]);
                assert(imported_by(items.drop_last(), p, c));
            } else {
                assert(item_views(u.children@)[j] == p);
            }
        }
    }
}

proof fn lemma_covered_in_entries(ns: Seq<NormalizedView>, p: PathView, c: Seq<Seq<u8>>)
    requires
        covered(ns, p, c),
    ensures
        exists|m: int| 0 <= m < all_entries(ns).len() && (#[trigger] all_entries(ns)[m]).1 == p && (all_entries(ns)[m].0 == c
            || all_entries(ns)[m].0 == Seq::<Seq<u8>>::empty()),
    decreases ns.len(),
{
    let k = choose|k: int| 0 <= k < ns.len() && (#[trigger] ns[k]).0 == p && group_covers(ns[k].1, c);
    let prev = ns.drop_last();
    let all = all_entries(ns);
    let pa = all_entries(prev);
    assert(all == pa + group_entries(ns.last().0, ns.last().1));
    if k < ns.len() - 1 {
        assert(prev[k] == ns[k]);
        lemma_covered_in_entries(prev, p, c);
        let m = choose|m: int| 0 <= m < pa.len() && (#[trigger] pa[m]).1 == p && (pa[m].0 == c || pa[m].0 == Seq::<Seq<u8>>::empty());
        assert(all[m] == pa[m]);
    } else {
        let gs = ns[k].1;
        let g = choose|g: int| 0 <= g < gs.len() && ((#[trigger] gs[g]).0 == c || gs[g].0 == Seq::<Seq<u8>>::empty());
        assert(all[pa.len() + g] == group_entries(ns.last().0, ns.last().1)[g]);
    }
}

proof fn lemma_unsubsumed_kept(es: Seq<FinalView>, all: Seq<FinalView>)
    ensures
        forall|m: int| 0 <= m < es.len() && !subsumed_in(all, es[m]) ==> keep_unsubsumed(es, all).contains(#[trigger] es[m]),
    decreases es.len(),
{
    if es.len() > 0 {
        lemma_unsubsumed_kept(es.drop_last(), all);
        let prev = keep_unsubsumed(es.drop_last(), all);
        let r = keep_unsubsumed(es, all);
        assert forall|m: int| 0 <= m < es.len() && !subsumed_in(all, es[m]) implies r.contains(#[trigger] es[m]) by {
            if m < es.len() - 1 {
                assert(es.drop_last()[m] == es[m]);
                let q = choose|q: int| 0 <= q < prev.len() && prev[q] == es[m];
                assert(r[q] == prev[q]);
            } else {
                assert(r[prev.len() as int] == es[m]);
            }
        }
    }
}

/// How narrow a leaf is: `*`, then a name kept, then a renamed name.
pub open spec fn leaf_rank(l: LeafView) -> nat {
    match l {
        None => 0,
        Some((_, None)) => 1,
        Some((_, Some(_))) => 2,
    }
}

proof fn lemma_subsumes_narrower(a: FinalView, e: FinalView)
    requires
        entry_subsumes(a, e),
    ensures
        leaf_rank(a.1.2) < leaf_rank(e.1.2),
{
}

proof fn lemma_subsumes_transitive(a: FinalView, b: FinalView, e: FinalView)
    requires
        entry_subsumes(a, b),
        entry_subsumes(b, e),
    ensures
        entry_subsumes(a, e),
{
}

/// Every entry is in the canonical set, or an entry of the set takes it in.
proof fn lemma_kept_or_taken_in(all: Seq<FinalView>, e: FinalView)
    requires
        all.contains(e),
    ensures
        exists|k: FinalView| #[trigger] keep_unsubsumed(all, all).contains(k) && (k == e || entry_subsumes(k, e)),
    decreases leaf_rank(e.1.2),
{
    lemma_unsubsumed_kept(all, all);
    if !subsumed_in(all, e) {
        let m = choose|m: int| 0 <= m < all.len() && all[m] == e;
        assert(keep_unsubsumed(all, all).contains(all[m]));
    } else {
        let j = choose|j: int| 0 <= j < all.len() && #[trigger] entry_subsumes(all[j], e);
        let a = all[j];
        lemma_subsumes_narrower(a, e);
        assert(all.contains(a));
        lemma_kept_or_taken_in(all, a);
        let k = choose|k: FinalView| #[trigger] keep_unsubsumed(all, all).contains(k) && (k == a || entry_subsumes(k, a));
        if k != a {
            lemma_subsumes_transitive(k, a, e);
        }
        assert(keep_unsubsumed(all, all).contains(k) && entry_subsumes(k, e));
    }
}

/// Union: every import of either version of the file, under its
/// conditions or under none, is in the canonical set, or an import of the set
/// with the same conditions, visibility and docs takes it in.
pub proof fn lemma_union(left: Seq<AnnotatedUseItem>, right: Seq<AnnotatedUseItem>, p: PathView, c: Seq<Seq<u8>>)
    requires
        imported_by(left, p, c) || imported_by(right, p, c),
    ensures
        exists|e: FinalView, k: FinalView|
            #![trigger all_entries(both_sides(left, right)).contains(e), canonical(both_sides(left, right)).contains(k)]
            all_entries(both_sides(left, right)).contains(e) && e.1 == p && (e.0 == c || e.0 == Seq::<Seq<u8>>::empty())
                && canonical(both_sides(left, right)).contains(k) && (k == e || entry_subsumes(k, e)),
{
    let mid = add_items(Seq::<NormalizedView>::empty(), left);
    let ns = both_sides(left, right);
    lemma_add_items_covers(Seq::<NormalizedView>::empty(), left);
    lemma_add_items_covers(mid, right);
    assert(covered(ns, p, c));
    lemma_covered_in_entries(ns, p, c);
    let all = all_entries(ns);
    let m = choose|m: int| 0 <= m < all.len() && (#[trigger] all[m]).1 == p && (all[m].0 == c || all[m].0 == Seq::<Seq<u8>>::empty());
    assert(all.contains(all[m]));
    lemma_kept_or_taken_in(all, all[m]);
    let k = choose|k: FinalView| #[trigger] keep_unsubsumed(all, all).contains(k) && (k == all[m] || entry_subsumes(k, all[m]));
    assert(canonical(ns).contains(k));
}

/// The order of flattened imports: rooted before unrooted, then by path,
/// then by leaf (`*` first, then names; a name kept before its renames).
pub open spec fn path_lt(a: PathView, b: PathView) -> bool {
    (a.0 && !b.0) || (a.0 == b.0 && (list_lt(a.1, b.1) || (a.1 == b.1 && leaf_lt(a.2, b.2))))
}

pub open spec fn leaf_lt(a: LeafView, b: LeafView) -> bool {
    match (a, b) {
        (None, Some(_)) => true,
        (Some((n1, u1)), Some((n2, u2))) => seq_lt(n1, n2) || (n1 == n2 && use_lt(u1, u2)),
        _ => false,
    }
}

/// An import sorts before every import it takes in.
pub proof fn lemma_subsumer_sorts_first(a: PathView, b: PathView)
    requires
        subsumes(a, b),
    ensures
        path_lt(a, b),
{
}

/// What is written for a run of lines is what is written for its first
/// part, then what is written for the rest: lines keep their order.
pub proof fn lemma_inject_concat(a: Seq<Line>, b: Seq<Line>, ap: InsertPoint, d: LineSet, text: Seq<u8>)
    ensures
        inject(a + b, ap, d, text) == inject(a, ap, d, text) + inject(b, ap, d, text),
    decreases b.len(),
{
    if b.len() == 0 {
        assert(a + b =~= a);
        assert(inject(a, ap, d, text) + inject(b, ap, d, text) =~= inject(a, ap, d, text));
    } else {
        assert((a + b).drop_last() =~= a + b.drop_last());
        assert((a + b).last() == b.last());
        lemma_inject_concat(a, b.drop_last(), ap, d, text);
        assert(inject(a + b, ap, d, text) =~= inject(a, ap, d, text) + inject(b, ap, d, text));
    }
}

/// What is written for a file is what is written for its first chunks, then
/// what is written for the rest: chunks keep their order.
pub proof fn lemma_corrected_concat(a: Seq<Chunk<Line>>, b: Seq<Chunk<Line>>, ap: InsertPoint, d: LineSet, text: Seq<u8>)
    ensures
        corrected_text(a + b, ap, d, text) == corrected_text(a, ap, d, text) + corrected_text(b, ap, d, text),
    decreases b.len(),
{
    if b.len() == 0 {
        assert(a + b =~= a);
        assert(corrected_text(a, ap, d, text) + corrected_text(b, ap, d, text) =~= corrected_text(a, ap, d, text));
    } else {
        assert((a + b).drop_last() =~= a + b.drop_last());
        assert((a + b).last() == b.last());
        lemma_corrected_concat(a, b.drop_last(), ap, d, text);
        assert(corrected_text(a + b, ap, d, text) =~= corrected_text(a, ap, d, text) + corrected_text(b, ap, d, text));
    }
}

/// Lossless on other lines: a plain line that is neither discarded nor the
/// anchor is written as it stands, and so is every such line of a side of a
/// conflict.
pub proof fn lemma_other_lines_kept(l: Line, ls: Seq<Line>, ap: InsertPoint, d: LineSet, text: Seq<u8>)
    ensures
        !d.has(l.line_number.0) && !ap.has(l.line_number.0) ==> chunk_text(Chunk::Line(l), ap, d, text) == l.content@,
        forall|k: int|
            0 <= k < ls.len() && !d.has((#[trigger] ls[k]).line_number.0) && !ap.has(ls[k].line_number.0) ==> inject(
                ls,
                ap,
                d,
                text,
            ).contains(ls[k].content@),
    decreases ls.len(),
{
    if ls.len() > 0 {
        lemma_other_lines_kept(l, ls.drop_last(), ap, d, text);
        let prev = inject(ls.drop_last(), ap, d, text);
        let all = inject(ls, ap, d, text);
        assert forall|k: int|
            0 <= k < ls.len() && !d.has((#[trigger] ls[k]).line_number.0) && !ap.has(ls[k].line_number.0) implies all.contains(
            ls[k].content@,
        ) by {
            if k < ls.len() - 1 {
                assert(ls.drop_last()[k] == ls[k]);
                let m = choose|m: int| 0 <= m < prev.len() && prev[m] == ls[k].content@;
                assert(all[m] == prev[m]);
            } else {
                assert(all[prev.len() as int] == ls[k].content@);
            }
        }
    }
}

/// A conflict split after line `i` of its left side and line `j` of its
/// right side: the conflict before, the formatted imports, the conflict after.
pub open spec fn split_text(c: Conflict<Line>, i: int, j: int, d: LineSet, text: Seq<u8>) -> Seq<u8> {
    conflict_text(c.left.name@, raw(c.left.lines@.take(i)), c.right.name@, raw(c.right.lines@.take(j))) + text
        + conflict_text(
        c.left.name@,
        filtered(c.left.lines@.skip(i + 1), d),
        c.right.name@,
        filtered(c.right.lines@.skip(j + 1), d),
    )
}

/// Marker balance: a conflict that the anchor does not split is written
/// without markers exactly where its two sides come out the same, and with
/// one header, separator and footer otherwise. A conflict that holds the
/// anchor on both sides is written as its part before the anchor, the
/// formatted imports, and its part after, each part a conflict of its own.
pub proof fn lemma_conflict_markers(c: Conflict<Line>, ap: InsertPoint, d: LineSet, text: Seq<u8>)
    ensures
        split_points(ap, c) is Some ==> chunk_text(Chunk::Conflict(c), ap, d, text) == split_text(
            c,
            split_points(ap, c)->Some_0.0,
            split_points(ap, c)->Some_0.1,
            d,
            text,
        ),
        split_points(ap, c) is None && inject(c.left.lines@, ap, d, text) == inject(c.right.lines@, ap, d, text) ==> chunk_text(
            Chunk::Conflict(c),
            ap,
            d,
            text,
        ) == flat(inject(c.left.lines@, ap, d, text)),
        split_points(ap, c) is None && inject(c.left.lines@, ap, d, text) != inject(c.right.lines@, ap, d, text) ==> chunk_text(
            Chunk::Conflict(c),
            ap,
            d,
            text,
        ) == header_line(c.left.name@) + flat(inject(c.left.lines@, ap, d, text)) + separator() + flat(
            inject(c.right.lines@, ap, d, text),
        ) + footer_line(c.right.name@),
{
}

} // verus!
