//! Writing the corrected file: the old import lines are dropped, the formatted
//! imports go in at one anchor, and the conflicts around them are kept or
//! collapsed.
use vstd::prelude::*;

use crate::bytes::{bytes_eq, copy_bytes, flat, push_bytes};
use crate::gitfile::{Chunk, Conflict, ConflictHalf, GitFile, Line, LineNumber, LineSet};

verus! {

/// Where the formatted imports go.
#[derive(Debug, Clone, Copy, PartialEq, Eq, Structural)]
pub enum InsertPoint {
    /// Nowhere in the file: before its first chunk.
    Nowhere,
    /// In place of one line.
    Once(LineNumber),
    /// In place of one line of the left version and one of the right version.
    IntoConflict(LineNumber, LineNumber),
}

impl InsertPoint {
    pub open spec fn has(self, line: usize) -> bool {
        match self {
            InsertPoint::Nowhere => false,
            InsertPoint::Once(p) => p.0 == line,
            InsertPoint::IntoConflict(l, r) => l.0 == line || r.0 == line,
        }
    }

    pub fn contains_line(&self, line: LineNumber) -> (r: bool)
        ensures
            r == self.has(line.0),
    {
        match self {
            InsertPoint::Nowhere => false,
            InsertPoint::Once(point) => point.0 == line.0,
            InsertPoint::IntoConflict(left, right) => left.0 == line.0 || right.0 == line.0,
        }
    }
}

/// The lines that are written for a run of lines: the formatted imports in
/// place of an anchor line, nothing for a discarded line, the line itself
/// otherwise.
pub open spec fn inject(ls: Seq<Line>, ap: InsertPoint, d: LineSet, b: Seq<u8>) -> Seq<Seq<u8>>
    decreases ls.len(),
{
    if ls.len() == 0 {
        seq![]
    } else {
        let l = ls.last();
        inject(ls.drop_last(), ap, d, b) + if ap.has(l.line_number.0) {
            seq![b]
        } else if d.has(l.line_number.0) {
            seq![]
        } else {
            seq![l.content@]
        }
    }
}

/// The lines that are not discarded.
pub open spec fn filtered(ls: Seq<Line>, d: LineSet) -> Seq<Seq<u8>> {
    inject(ls, InsertPoint::Nowhere, d, seq![])
}

/// The contents of the lines.
pub open spec fn raw(ls: Seq<Line>) -> Seq<Seq<u8>> {
    ls.map_values(|l: Line| l.content@)
}

pub open spec fn header_line(name: Seq<u8>) -> Seq<u8> {
    seq![60u8, 60, 60, 60, 60, 60, 60, 32] + name + seq![10u8]
}

pub open spec fn footer_line(name: Seq<u8>) -> Seq<u8> {
    seq![62u8, 62, 62, 62, 62, 62, 62, 32] + name + seq![10u8]
}

pub open spec fn separator() -> Seq<u8> {
    seq![61u8, 61, 61, 61, 61, 61, 61, 10]
}

/// A conflict as written: unmarked where both sides are the same lines,
/// between markers otherwise.
pub open spec fn conflict_text(
    left_name: Seq<u8>,
    left: Seq<Seq<u8>>,
    right_name: Seq<u8>,
    right: Seq<Seq<u8>>,
) -> Seq<u8> {
    if left == right {
        flat(left)
    } else {
        header_line(left_name) + flat(left) + separator() + flat(right) + footer_line(right_name)
    }
}

/// The index of the first line with the given number.
pub open spec fn position(ls: Seq<Line>, n: usize) -> Option<int>
    decreases ls.len(),
{
    if ls.len() == 0 {
        None
    } else {
        match position(ls.drop_last(), n) {
            Some(i) => Some(i),
            None => if ls.last().line_number.0 == n {
                Some(ls.len() - 1)
            } else {
                None
            },
        }
    }
}

/// The split points of a conflict that holds both lines of the anchor.
pub open spec fn split_points(ap: InsertPoint, c: Conflict<Line>) -> Option<(int, int)> {
    match ap {
        InsertPoint::IntoConflict(l, r) => match (
            position(c.left.lines@, l.0),
            position(c.right.lines@, r.0),
        ) {
            (Some(i), Some(j)) => Some((i, j)),
            _ => None,
        },
        _ => None,
    }
}

/// What is written for one chunk.
pub open spec fn chunk_text(c: Chunk<Line>, ap: InsertPoint, d: LineSet, b: Seq<u8>) -> Seq<u8> {
    match c {
        Chunk::Line(l) => if ap.has(l.line_number.0) {
            b
        } else if d.has(l.line_number.0) {
            seq![]
        } else {
            l.content@
        },
        Chunk::Conflict(c) => match split_points(ap, c) {
            Some((i, j)) => conflict_text(
                c.left.name@,
                raw(c.left.lines@.take(i)),
                c.right.name@,
                raw(c.right.lines@.take(j)),
            ) + b + conflict_text(
                c.left.name@,
                filtered(c.left.lines@.skip(i + 1), d),
                c.right.name@,
                filtered(c.right.lines@.skip(j + 1), d),
            ),
            None => conflict_text(
                c.left.name@,
                inject(c.left.lines@, ap, d, b),
                c.right.name@,
                inject(c.right.lines@, ap, d, b),
            ),
        },
    }
}

/// What is written for the chunks.
pub open spec fn corrected_text(
    cs: Seq<Chunk<Line>>,
    ap: InsertPoint,
    d: LineSet,
    b: Seq<u8>,
) -> Seq<u8>
    decreases cs.len(),
{
    if cs.len() == 0 {
        seq![]
    } else {
        corrected_text(cs.drop_last(), ap, d, b) + chunk_text(cs.last(), ap, d, b)
    }
}

/// The first discarded line of a run of lines.
pub open spec fn first_in(ls: Seq<Line>, d: LineSet) -> Option<LineNumber>
    decreases ls.len(),
{
    if ls.len() == 0 {
        None
    } else if d.has(ls[0].line_number.0) {
        Some(ls[0].line_number)
    } else {
        first_in(ls.drop_first(), d)
    }
}

/// The anchor for the rest of the chunks, given the first discarded line
/// found so far in a left-only and in a right-only conflict.
pub open spec fn anchor_from(
    cs: Seq<Chunk<Line>>,
    d: LineSet,
    lp: Option<LineNumber>,
    rp: Option<LineNumber>,
) -> InsertPoint
    decreases cs.len(),
{
    if cs.len() == 0 {
        match (lp, rp) {
            (Some(l), Some(r)) => InsertPoint::IntoConflict(l, r),
            (Some(p), None) => InsertPoint::Once(p),
            (None, Some(p)) => InsertPoint::Once(p),
            (None, None) => InsertPoint::Nowhere,
        }
    } else {
        match cs[0] {
            Chunk::Line(l) => if d.has(l.line_number.0) {
                InsertPoint::Once(l.line_number)
            } else {
                anchor_from(cs.drop_first(), d, lp, rp)
            },
            Chunk::Conflict(c) => match (first_in(c.left.lines@, d), first_in(c.right.lines@, d)) {
                (Some(l), Some(r)) => InsertPoint::IntoConflict(l, r),
                (Some(l), None) => anchor_from(
                    cs.drop_first(),
                    d,
                    if lp is Some {
                        lp
                    } else {
                        Some(l)
                    },
                    rp,
                ),
                (None, Some(r)) => anchor_from(
                    cs.drop_first(),
                    d,
                    lp,
                    if rp is Some {
                        rp
                    } else {
                        Some(r)
                    },
                ),
                (None, None) => anchor_from(cs.drop_first(), d, lp, rp),
            },
        }
    }
}

/// The anchor of a file: its first discarded plain line, or its first
/// conflict with discarded lines on both sides, whichever comes first; else
/// the first discarded line of a left-only conflict and of a right-only one.
pub open spec fn anchor(cs: Seq<Chunk<Line>>, d: LineSet) -> InsertPoint {
    anchor_from(cs, d, None, None)
}

/// The corrected file.
pub open spec fn corrected(cs: Seq<Chunk<Line>>, d: LineSet, b: Seq<u8>) -> Seq<u8> {
    let ap = anchor(cs, d);
    if ap == InsertPoint::Nowhere {
        b + corrected_text(cs, ap, d, b)
    } else {
        corrected_text(cs, ap, d, b)
    }
}

fn first_matching_line_number_in_conflict_half(half: &ConflictHalf<Line>, discarded_lines: &LineSet) -> (r:
    Option<LineNumber>)
    ensures
        r == first_in(half.lines@, *discarded_lines),
{
    let mut j: usize = 0;
    proof {
        assert(half.lines@.skip(0) =~= half.lines@);
    }
    while j < half.lines.len()
        invariant
            0 <= j <= half.lines@.len(),
            first_in(half.lines@, *discarded_lines) == first_in(half.lines@.skip(j as int), *discarded_lines),
        decreases half.lines.len() - j,
    {
        proof {
            assert(half.lines@.skip(j as int).drop_first() =~= half.lines@.skip(j + 1));
        }
        if discarded_lines.contains(half.lines[j].line_number) {
            return Some(half.lines[j].line_number);
        }
        j = j + 1;
    }
    None
}

fn find_insert_point(original: &GitFile, discarded_lines: &LineSet) -> (r: InsertPoint)
    ensures
        r == anchor(original.chunks@, *discarded_lines),
{
    let ghost cs = original.chunks@;
    let ghost d = *discarded_lines;
    let mut left_point: Option<LineNumber> = None;
    let mut right_point: Option<LineNumber> = None;
    let mut i: usize = 0;
    proof {
        assert(cs.skip(0) =~= cs);
    }
    while i < original.chunks.len()
        invariant
            0 <= i <= cs.len(),
            cs == original.chunks@,
            d == *discarded_lines,
            anchor(cs, d) == anchor_from(cs.skip(i as int), d, left_point, right_point),
        decreases cs.len() - i,
    {
        proof {
            assert(cs.skip(i as int).drop_first() =~= cs.skip(i + 1));
            assert(cs.skip(i as int)[0] == cs[i as int]);
        }
        match &original.chunks[i] {
            Chunk::Line(line) => {
                if discarded_lines.contains(line.line_number) {
                    return InsertPoint::Once(line.line_number);
                }
            },
            Chunk::Conflict(conflict) => {
                let local_left = first_matching_line_number_in_conflict_half(&conflict.left, discarded_lines);
                let local_right = first_matching_line_number_in_conflict_half(&conflict.right, discarded_lines);
                match (local_left, local_right) {
                    (Some(left), Some(right)) => {
                        return InsertPoint::IntoConflict(left, right);
                    },
                    (Some(left), None) => {
                        if left_point.is_none() {
                            left_point = Some(left);
                        }
                    },
                    (None, Some(right)) => {
                        if right_point.is_none() {
                            right_point = Some(right);
                        }
                    },
                    (None, None) => {},
                }
            },
        }
        i = i + 1;
    }
    match (left_point, right_point) {
        (Some(left), Some(right)) => InsertPoint::IntoConflict(left, right),
        (Some(point), None) => InsertPoint::Once(point),
        (None, Some(point)) => InsertPoint::Once(point),
        (None, None) => InsertPoint::Nowhere,
    }
}

pub open spec fn views(ps: Seq<Vec<u8>>) -> Seq<Seq<u8>> {
    ps.map_values(|p: Vec<u8>| p@)
}

/// The lines written for `lines[from..to]`.
fn inject_lines(
    lines: &[Line],
    from: usize,
    to: usize,
    ap: InsertPoint,
    discarded_lines: &LineSet,
    formatted_use_items: &[u8],
) -> (r: Vec<Vec<u8>>)
    requires
        from <= to <= lines@.len(),
    ensures
        views(r@) == inject(
            lines@.subrange(from as int, to as int),
            ap,
            *discarded_lines,
            formatted_use_items@,
        ),
{
    let ghost d = *discarded_lines;
    let ghost b = formatted_use_items@;
    let mut out: Vec<Vec<u8>> = Vec::new();
    let mut k = from;
    proof {
        assert(lines@.subrange(from as int, from as int) =~= Seq::<Line>::empty());
    }
    while k < to
        invariant
            from <= k <= to,
            to <= lines@.len(),
            d == *discarded_lines,
            b == formatted_use_items@,
            views(out@) == inject(lines@.subrange(from as int, k as int), ap, d, b),
        decreases to - k,
    {
        let ghost before = out@;
        proof {
            assert(lines@.subrange(from as int, k + 1).drop_last() =~= lines@.subrange(
                from as int,
                k as int,
            ));
        }
        let line = &lines[k];
        if ap.contains_line(line.line_number) {
            out.push(copy_bytes(formatted_use_items));
            proof {
                assert(views(out@) =~= views(before) + seq![b]);
            }
        } else if discarded_lines.contains(line.line_number) {
            proof {
                assert(views(out@) =~= views(before) + Seq::<Seq<u8>>::empty());
            }
        } else {
            out.push(copy_bytes(line.content.as_slice()));
            proof {
                assert(views(out@) =~= views(before) + seq![line.content@]);
            }
        }
        k = k + 1;
    }
    out
}

/// The lines of `lines[from..to]` that are not discarded.
fn filtered_lines(lines: &[Line], from: usize, to: usize, discarded_lines: &LineSet) -> (r: Vec<
    Vec<u8>,
>)
    requires
        from <= to <= lines@.len(),
    ensures
        views(r@) == filtered(lines@.subrange(from as int, to as int), *discarded_lines),
{
    let none: Vec<u8> = Vec::new();
    proof {
        assert(none@ =~= Seq::<u8>::empty());
    }
    inject_lines(lines, from, to, InsertPoint::Nowhere, discarded_lines, none.as_slice())
}

/// The lines written for a run of lines, with the formatted imports in place
/// of an anchor line.
fn filtered_lines_inject_content(
    lines: &[Line],
    discarded_lines: &LineSet,
    formatted_use_items: &[u8],
    insert_point: &InsertPoint,
) -> (r: Vec<Vec<u8>>)
    ensures
        views(r@) == inject(lines@, *insert_point, *discarded_lines, formatted_use_items@),
{
    proof {
        assert(lines@.subrange(0, lines@.len() as int) =~= lines@);
    }
    inject_lines(lines, 0, lines.len(), *insert_point, discarded_lines, formatted_use_items)
}

/// The contents of `lines[from..to]`.
fn raw_lines(lines: &[Line], from: usize, to: usize) -> (r: Vec<Vec<u8>>)
    requires
        from <= to <= lines@.len(),
    ensures
        views(r@) == raw(lines@.subrange(from as int, to as int)),
{
    let mut out: Vec<Vec<u8>> = Vec::new();
    let mut k = from;
    while k < to
        invariant
            from <= k <= to,
            to <= lines@.len(),
            views(out@) == raw(lines@.subrange(from as int, k as int)),
        decreases to - k,
    {
        let ghost before = out@;
        out.push(copy_bytes(lines[k].content.as_slice()));
        proof {
            assert(views(out@) =~= views(before).push(lines@[k as int].content@));
            assert(raw(lines@.subrange(from as int, k + 1)) =~= raw(
                lines@.subrange(from as int, k as int),
            ).push(lines@[k as int].content@));
        }
        k = k + 1;
    }
    out
}

/// Appends the byte strings to `dest`, one after the other.
fn write_pieces(dest: &mut Vec<u8>, pieces: &Vec<Vec<u8>>)
    ensures
        final(dest)@ == old(dest)@ + flat(views(pieces@)),
{
    let mut k: usize = 0;
    while k < pieces.len()
        invariant
            0 <= k <= pieces@.len(),
            dest@ == old(dest)@ + flat(views(pieces@).take(k as int)),
        decreases pieces.len() - k,
    {
        proof {
            assert(views(pieces@).take(k + 1).drop_last() =~= views(pieces@).take(k as int));
        }
        push_bytes(dest, pieces[k].as_slice());
        proof {
            assert(dest@ =~= old(dest)@ + flat(views(pieces@).take(k + 1)));
        }
        k = k + 1;
    }
    proof {
        assert(views(pieces@).take(k as int) =~= views(pieces@));
    }
}

fn pieces_eq(a: &Vec<Vec<u8>>, b: &Vec<Vec<u8>>) -> (r: bool)
    ensures
        r == (views(a@) == views(b@)),
{
    if a.len() != b.len() {
        proof {
            assert(views(a@).len() != views(b@).len());
        }
        return false;
    }
    let mut k: usize = 0;
    while k < a.len()
        invariant
            0 <= k <= a@.len(),
            a@.len() == b@.len(),
            forall|j: int| 0 <= j < k ==> (#[trigger] a@[j])@ == b@[j]@,
        decreases a.len() - k,
    {
        if !bytes_eq(a[k].as_slice(), b[k].as_slice()) {
            proof {
                assert(views(a@)[k as int] != views(b@)[k as int]);
            }
            return false;
        }
        k = k + 1;
    }
    proof {
        assert(views(a@) =~= views(b@));
    }
    true
}

/// One side of a conflict, ready to be written.
pub struct PrintableConflictHalf {
    pub name: Vec<u8>,
    pub lines: Vec<Vec<u8>>,
}

impl PrintableConflictHalf {
    pub fn write_lines(&self, dest: &mut Vec<u8>)
        ensures
            final(dest)@ == old(dest)@ + flat(views(self.lines@)),
    {
        write_pieces(dest, &self.lines)
    }
}

/// A conflict, ready to be written.
pub struct PrintableConflict {
    pub left: PrintableConflictHalf,
    pub right: PrintableConflictHalf,
}

impl PrintableConflict {
    /// A conflict with all of its lines.
    pub fn from_conflict(conflict: &Conflict<Line>) -> (r: PrintableConflict)
        ensures
            r.left.name@ == conflict.left.name@,
            r.right.name@ == conflict.right.name@,
            views(r.left.lines@) == raw(conflict.left.lines@),
            views(r.right.lines@) == raw(conflict.right.lines@),
    {
        proof {
            assert(conflict.left.lines@.subrange(0, conflict.left.lines@.len() as int)
                =~= conflict.left.lines@);
            assert(conflict.right.lines@.subrange(0, conflict.right.lines@.len() as int)
                =~= conflict.right.lines@);
        }
        PrintableConflict {
            left: PrintableConflictHalf {
                name: copy_bytes(conflict.left.name.as_slice()),
                lines: raw_lines(conflict.left.lines.as_slice(), 0, conflict.left.lines.len()),
            },
            right: PrintableConflictHalf {
                name: copy_bytes(conflict.right.name.as_slice()),
                lines: raw_lines(conflict.right.lines.as_slice(), 0, conflict.right.lines.len()),
            },
        }
    }
}

impl PrintableConflict {
    /// The same conflict with the lines of each side mapped by `f`.
    pub fn map_lines<F: Fn(Vec<Vec<u8>>) -> Vec<Vec<u8>>>(self, f: F) -> (r: PrintableConflict)
        requires
            forall|l: Vec<Vec<u8>>| #[trigger] f.requires((l,)),
        ensures
            r.left.name@ == self.left.name@,
            r.right.name@ == self.right.name@,
            f.ensures((self.left.lines,), r.left.lines),
            f.ensures((self.right.lines,), r.right.lines),
    {
        let PrintableConflict { left, right } = self;
        let left_lines = f(left.lines);
        let right_lines = f(right.lines);
        PrintableConflict {
            left: PrintableConflictHalf { name: left.name, lines: left_lines },
            right: PrintableConflictHalf { name: right.name, lines: right_lines },
        }
    }
}

/// Write a conflict: without markers where its two sides hold the same lines
/// (mostly because the imports that set them apart were taken out), with them
/// otherwise.
fn write_conflict(dest: &mut Vec<u8>, conflict: &PrintableConflict)
    ensures
        final(dest)@ == old(dest)@ + conflict_text(
            conflict.left.name@,
            views(conflict.left.lines@),
            conflict.right.name@,
            views(conflict.right.lines@),
        ),
{
    if pieces_eq(&conflict.left.lines, &conflict.right.lines) {
        conflict.left.write_lines(dest);
    } else {
        let ghost start = dest@;
        let header: Vec<u8> = vec![60u8, 60, 60, 60, 60, 60, 60, 32];
        let newline: Vec<u8> = vec![10u8];
        let sep: Vec<u8> = vec![61u8, 61, 61, 61, 61, 61, 61, 10];
        let footer: Vec<u8> = vec![62u8, 62, 62, 62, 62, 62, 62, 32];
        push_bytes(dest, header.as_slice());
        push_bytes(dest, conflict.left.name.as_slice());
        push_bytes(dest, newline.as_slice());
        conflict.left.write_lines(dest);
        push_bytes(dest, sep.as_slice());
        conflict.right.write_lines(dest);
        push_bytes(dest, footer.as_slice());
        push_bytes(dest, conflict.right.name.as_slice());
        push_bytes(dest, newline.as_slice());
        proof {
            assert(header@ =~= seq![60u8, 60, 60, 60, 60, 60, 60, 32]);
            assert(footer@ =~= seq![62u8, 62, 62, 62, 62, 62, 62, 32]);
            assert(sep@ =~= separator());
            assert(newline@ =~= seq![10u8]);
            assert(dest@ =~= start + conflict_text(
                conflict.left.name@,
                views(conflict.left.lines@),
                conflict.right.name@,
                views(conflict.right.lines@),
            ));
        }
    }
}

proof fn lemma_position_found(ls: Seq<Line>, n: usize, k: int)
    requires
        0 <= k <= ls.len(),
        position(ls.take(k), n) is Some,
    ensures
        position(ls, n) == position(ls.take(k), n),
    decreases ls.len() - k,
{
    if k == ls.len() {
        assert(ls.take(k) =~= ls);
    } else {
        assert(ls.take(k + 1).drop_last() =~= ls.take(k));
        lemma_position_found(ls, n, k + 1);
    }
}

/// Index of the line with the given number in one side of a conflict.
fn find_split_point(conflict_half: &ConflictHalf<Line>, line_number: LineNumber) -> (r: Option<usize>)
    ensures
        match r {
            Some(k) => position(conflict_half.lines@, line_number.0) == Some(k as int) && k
                < conflict_half.lines@.len(),
            None => position(conflict_half.lines@, line_number.0) is None,
        },
{
    let ghost ls = conflict_half.lines@;
    let mut k: usize = 0;
    proof {
        assert(ls.take(0) =~= Seq::<Line>::empty());
    }
    while k < conflict_half.lines.len()
        invariant
            0 <= k <= ls.len(),
            ls == conflict_half.lines@,
            position(ls.take(k as int), line_number.0) is None,
        decreases ls.len() - k,
    {
        proof {
            assert(ls.take(k + 1).drop_last() =~= ls.take(k as int));
        }
        if conflict_half.lines[k].line_number.0 == line_number.0 {
            proof {
                lemma_position_found(ls, line_number.0, k + 1);
            }
            return Some(k);
        }
        k = k + 1;
    }
    proof {
        assert(ls.take(k as int) =~= ls);
    }
    None
}

impl InsertPoint {
    /// Where a conflict splits around the anchor, when it holds both of its lines.
    pub fn try_split_conflict(&self, conflict: &Conflict<Line>) -> (r: Option<(usize, usize)>)
        ensures
            match r {
                Some((i, j)) => split_points(*self, *conflict) == Some((i as int, j as int)) && i
                    < conflict.left.lines@.len() && j < conflict.right.lines@.len(),
                None => split_points(*self, *conflict) is None,
            },
    {
        match self {
            InsertPoint::IntoConflict(left, right) => {
                let l = find_split_point(&conflict.left, *left);
                let r = find_split_point(&conflict.right, *right);
                match (l, r) {
                    (Some(i), Some(j)) => Some((i, j)),
                    _ => None,
                }
            },
            _ => None,
        }
    }
}

/// Write the chunks of the file: the formatted imports in place of the
/// anchor, no discarded line, and each conflict with or without markers.
pub fn write_corrected_file(
    dest: &mut Vec<u8>,
    original: &GitFile,
    discarded_lines: &LineSet,
    formatted_use_items: &[u8],
)
    ensures
        final(dest)@ == old(dest)@ + corrected(
            original.chunks@,
            *discarded_lines,
            formatted_use_items@,
        ),
{
    let ghost cs = original.chunks@;
    let ghost d = *discarded_lines;
    let ghost b = formatted_use_items@;
    let insert_point = find_insert_point(original, discarded_lines);
    let ghost start = dest@;
    let ghost lead = if insert_point == InsertPoint::Nowhere {
        b
    } else {
        Seq::<u8>::empty()
    };
    if let InsertPoint::Nowhere = insert_point {
        push_bytes(dest, formatted_use_items);
    }
    let mut i: usize = 0;
    while i < original.chunks.len()
        invariant
            0 <= i <= cs.len(),
            cs == original.chunks@,
            d == *discarded_lines,
            b == formatted_use_items@,
            insert_point == anchor(cs, d),
            dest@ == start + lead + corrected_text(cs.take(i as int), insert_point, d, b),
        decreases cs.len() - i,
    {
        proof {
            assert(cs.take(i + 1).drop_last() =~= cs.take(i as int));
        }
        let ghost before = dest@;
        match &original.chunks[i] {
            Chunk::Line(line) => {
                if insert_point.contains_line(line.line_number) {
                    push_bytes(dest, formatted_use_items);
                } else if discarded_lines.contains(line.line_number) {
                } else {
                    push_bytes(dest, line.content.as_slice());
                }
            },
            Chunk::Conflict(conflict) => {
                match insert_point.try_split_conflict(conflict) {
                    Some((ls, rs)) => {
                        let nl = conflict.left.lines.len();
                        let nr = conflict.right.lines.len();
                        let top = PrintableConflict {
                            left: PrintableConflictHalf {
                                name: copy_bytes(conflict.left.name.as_slice()),
                                lines: raw_lines(conflict.left.lines.as_slice(), 0, ls),
                            },
                            right: PrintableConflictHalf {
                                name: copy_bytes(conflict.right.name.as_slice()),
                                lines: raw_lines(conflict.right.lines.as_slice(), 0, rs),
                            },
                        };
                        let bottom = PrintableConflict {
                            left: PrintableConflictHalf {
                                name: copy_bytes(conflict.left.name.as_slice()),
                                lines: filtered_lines(
                                    conflict.left.lines.as_slice(),
                                    ls + 1,
                                    nl,
                                    discarded_lines,
                                ),
                            },
                            right: PrintableConflictHalf {
                                name: copy_bytes(conflict.right.name.as_slice()),
                                lines: filtered_lines(
                                    conflict.right.lines.as_slice(),
                                    rs + 1,
                                    nr,
                                    discarded_lines,
                                ),
                            },
                        };
                        proof {
                            assert(conflict.left.lines@.subrange(0, ls as int)
                                =~= conflict.left.lines@.take(ls as int));
                            assert(conflict.right.lines@.subrange(0, rs as int)
                                =~= conflict.right.lines@.take(rs as int));
                            assert(conflict.left.lines@.subrange(ls + 1, nl as int)
                                =~= conflict.left.lines@.skip(ls + 1));
                            assert(conflict.right.lines@.subrange(rs + 1, nr as int)
                                =~= conflict.right.lines@.skip(rs + 1));
                        }
                        write_conflict(dest, &top);
                        push_bytes(dest, formatted_use_items);
                        write_conflict(dest, &bottom);
                    },
                    None => {
                        let printable = PrintableConflict {
                            left: PrintableConflictHalf {
                                name: copy_bytes(conflict.left.name.as_slice()),
                                lines: filtered_lines_inject_content(
                                    conflict.left.lines.as_slice(),
                                    discarded_lines,
                                    formatted_use_items,
                                    &insert_point,
                                ),
                            },
                            right: PrintableConflictHalf {
                                name: copy_bytes(conflict.right.name.as_slice()),
                                lines: filtered_lines_inject_content(
                                    conflict.right.lines.as_slice(),
                                    discarded_lines,
                                    formatted_use_items,
                                    &insert_point,
                                ),
                            },
                        };
                        write_conflict(dest, &printable);
                    },
                }
            },
        }
        proof {
            assert(dest@ =~= before + chunk_text(cs[i as int], insert_point, d, b));
            assert(dest@ =~= start + lead + corrected_text(cs.take(i + 1), insert_point, d, b));
        }
        i = i + 1;
    }
    proof {
        assert(cs.take(i as int) =~= cs);
        assert(lead + corrected_text(cs, insert_point, d, b) =~= corrected(cs, d, b));
    }
}

} // verus!
