//! A file that may hold git conflicts: its lines, split into plain lines and
//! conflicts, and the left or right version of it with a map from each of its
//! lines back to the line of the conflicted file.
use vstd::prelude::*;
use vstd::string::StringSliceAdditionalSpecFns;

use crate::bytes::{copy_bytes, push_bytes, skip_spaces, trim_end, trimmed_tail, NEWLINE};

verus! {

/// A one-indexed line number.
#[derive(Debug, Clone, Copy, PartialEq, Eq, Structural, PartialOrd, Ord, Hash)]
pub struct LineNumber(pub usize);

impl LineNumber {
    /// The first line.
    pub fn one() -> (r: LineNumber)
        ensures
            r.0 == 1,
    {
        LineNumber(1)
    }

    /// A line number from a one-indexed count; there is no line zero.
    pub fn from_one_indexed(line: usize) -> (r: Option<LineNumber>)
        ensures
            r == (if line == 0 {
                None
            } else {
                Some(LineNumber(line))
            }),
    {
        if line == 0 {
            None
        } else {
            Some(LineNumber(line))
        }
    }

    /// Increment this value in place, then return the old value.
    pub fn get_incr(&mut self) -> (r: LineNumber)
        requires
            old(self).0 < usize::MAX,
        ensures
            r == *old(self),
            final(self).0 == old(self).0 + 1,
    {
        let value = *self;
        self.0 = self.0 + 1;
        value
    }

    /// The first `count` line numbers, starting at 1.
    pub fn lines_iter(count: usize) -> (r: Vec<LineNumber>)
        requires
            count < usize::MAX,
        ensures
            r@.len() == count,
            forall|i: int| 0 <= i < count ==> (#[trigger] r@[i]).0 == i + 1,
    {
        let mut r: Vec<LineNumber> = Vec::new();
        let mut line = LineNumber::one();
        while r.len() < count
            invariant
                count < usize::MAX,
                r@.len() <= count,
                line.0 == r@.len() + 1,
                forall|i: int| 0 <= i < r@.len() ==> (#[trigger] r@[i]).0 == i + 1,
            decreases count - r@.len(),
        {
            r.push(line.get_incr());
        }
        r
    }
}

/// One line of a file: its content, with its newline if it has one, and its number.
#[derive(Debug, Clone)]
pub struct Line {
    pub content: Vec<u8>,
    pub line_number: LineNumber,
}

impl View for Line {
    type V = (Seq<u8>, usize);

    open spec fn view(&self) -> (Seq<u8>, usize) {
        (self.content@, self.line_number.0)
    }
}

impl Line {
    /// A line on the given line number, which is then moved on to the next one.
    pub fn with_line_number(content: Vec<u8>, line_number: &mut LineNumber) -> (r: Line)
        requires
            old(line_number).0 < usize::MAX,
        ensures
            r.content@ == content@,
            r.line_number == *old(line_number),
            final(line_number).0 == old(line_number).0 + 1,
    {
        Line { content, line_number: line_number.get_incr() }
    }

    /// A copy of this line.
    pub fn duplicate(&self) -> (r: Line)
        ensures
            r@ == self@,
    {
        Line { content: copy_bytes(self.content.as_slice()), line_number: self.line_number }
    }
}

/// One version of a conflicted file.
#[derive(Debug, Clone, Copy, PartialEq, Eq, Structural)]
pub enum Side {
    Left,
    Right,
}

/// One side of a conflict: the branch name of its marker and its lines.
#[derive(Debug)]
pub struct ConflictHalf<L> {
    pub name: Vec<u8>,
    pub lines: Vec<L>,
}

impl<L> ConflictHalf<L> {
    pub fn name(&self) -> (r: &[u8])
        ensures
            r@ == self.name@,
    {
        self.name.as_slice()
    }

    pub fn lines(&self) -> (r: &[L])
        ensures
            r@ == self.lines@,
    {
        self.lines.as_slice()
    }
}

/// A conflict: the two sides between its markers.
#[derive(Debug)]
pub struct Conflict<L> {
    pub left: ConflictHalf<L>,
    pub right: ConflictHalf<L>,
}

/// A piece of a conflicted file: a plain line, or a whole conflict.
#[derive(Debug)]
pub enum Chunk<L> {
    Line(L),
    Conflict(Conflict<L>),
}

/// What a line of a conflicted file is, as far as conflict markers go.
pub enum LineKind {
    Plain(Seq<u8>),
    Header(Seq<u8>),
    Separator,
    Footer(Seq<u8>),
}

/// Seven copies of `c` followed by a space.
pub open spec fn is_marker(l: Seq<u8>, c: u8) -> bool {
    &&& l.len() >= 8
    &&& forall|i: int| 0 <= i < 7 ==> l[i] == c
    &&& l[7] == 32
}

/// The separator line, `=======` and a newline.
pub open spec fn separator_line() -> Seq<u8> {
    seq![61u8, 61, 61, 61, 61, 61, 61, 10]
}

/// The branch name that follows the chevrons of a marker line.
pub open spec fn marker_name(l: Seq<u8>) -> Seq<u8> {
    trim_end(skip_spaces(l.skip(8)))
}

pub open spec fn classify(l: Seq<u8>) -> LineKind {
    if is_marker(l, 60) {
        LineKind::Header(marker_name(l))
    } else if is_marker(l, 62) {
        LineKind::Footer(marker_name(l))
    } else if l == separator_line() {
        LineKind::Separator
    } else {
        LineKind::Plain(l)
    }
}

/// Where a reader of a conflicted file stands: outside of any conflict, in
/// the left half of one, or in its right half.
#[derive(PartialEq, Eq, Structural, Clone, Copy)]
pub enum Nest {
    Outside,
    InLeft,
    InRight,
}

pub open spec fn step(s: Nest, k: LineKind) -> Option<Nest> {
    match k {
        LineKind::Plain(_) => Some(s),
        LineKind::Header(_) => if s == Nest::Outside {
            Some(Nest::InLeft)
        } else {
            None
        },
        LineKind::Separator => if s == Nest::InLeft {
            Some(Nest::InRight)
        } else {
            None
        },
        LineKind::Footer(_) => if s == Nest::InRight {
            Some(Nest::Outside)
        } else {
            None
        },
    }
}

/// The state after reading the lines of the given kinds, or `None` once a
/// marker has stood where it may not.
pub open spec fn run(ks: Seq<LineKind>) -> Option<Nest>
    decreases ks.len(),
{
    if ks.len() == 0 {
        Some(Nest::Outside)
    } else {
        match run(ks.drop_last()) {
            Some(s) => step(s, ks.last()),
            None => None,
        }
    }
}

/// Every conflict marker stands where it may, and every conflict is closed.
pub open spec fn well_nested(ks: Seq<LineKind>) -> bool {
    run(ks) == Some(Nest::Outside)
}

/// The lines of a byte string, each with its newline, as a fold over its bytes:
/// the finished lines and the line still open.
pub open spec fn split_acc(s: Seq<u8>) -> (Seq<Seq<u8>>, Seq<u8>)
    decreases s.len(),
{
    if s.len() == 0 {
        (seq![], seq![])
    } else {
        let (ls, cur) = split_acc(s.drop_last());
        let cur2 = cur.push(s.last());
        if s.last() == NEWLINE {
            (ls.push(cur2), seq![])
        } else {
            (ls, cur2)
        }
    }
}

/// The lines of a byte string, each with its newline where it has one.
pub open spec fn split_lines(s: Seq<u8>) -> Seq<Seq<u8>> {
    let (ls, cur) = split_acc(s);
    if cur.len() == 0 {
        ls
    } else {
        ls.push(cur)
    }
}

pub open spec fn kinds_of(lines: Seq<Seq<u8>>) -> Seq<LineKind> {
    lines.map_values(|l: Seq<u8>| classify(l))
}

pub open spec fn plain_kinds(lines: Seq<Vec<u8>>) -> Seq<LineKind> {
    lines.map_values(|l: Vec<u8>| LineKind::Plain(l@))
}

pub open spec fn plain_line_kinds(lines: Seq<Line>) -> Seq<LineKind> {
    lines.map_values(|l: Line| LineKind::Plain(l.content@))
}

/// The kinds of the lines that a chunk stands for, markers included.
pub open spec fn raw_chunk_kinds(c: Chunk<Vec<u8>>) -> Seq<LineKind> {
    match c {
        Chunk::Line(l) => seq![LineKind::Plain(l@)],
        Chunk::Conflict(c) => seq![LineKind::Header(c.left.name@)] + plain_kinds(c.left.lines@)
            + seq![LineKind::Separator] + plain_kinds(c.right.lines@) + seq![
            LineKind::Footer(c.right.name@),
        ],
    }
}

pub open spec fn raw_kinds(cs: Seq<Chunk<Vec<u8>>>) -> Seq<LineKind>
    decreases cs.len(),
{
    if cs.len() == 0 {
        seq![]
    } else {
        raw_kinds(cs.drop_last()) + raw_chunk_kinds(cs.last())
    }
}

pub open spec fn chunk_kinds(c: Chunk<Line>) -> Seq<LineKind> {
    match c {
        Chunk::Line(l) => seq![LineKind::Plain(l.content@)],
        Chunk::Conflict(c) => seq![LineKind::Header(c.left.name@)] + plain_line_kinds(
            c.left.lines@,
        ) + seq![LineKind::Separator] + plain_line_kinds(c.right.lines@) + seq![
            LineKind::Footer(c.right.name@),
        ],
    }
}

/// The kinds of all the lines of a conflicted file, markers included.
pub open spec fn kinds(cs: Seq<Chunk<Line>>) -> Seq<LineKind>
    decreases cs.len(),
{
    if cs.len() == 0 {
        seq![]
    } else {
        kinds(cs.drop_last()) + chunk_kinds(cs.last())
    }
}

/// How many lines of the file a chunk takes, markers included.
pub open spec fn raw_width(c: Chunk<Vec<u8>>) -> nat {
    match c {
        Chunk::Line(_) => 1,
        Chunk::Conflict(c) => c.left.lines@.len() + c.right.lines@.len() + 3,
    }
}

pub open spec fn width(c: Chunk<Line>) -> nat {
    match c {
        Chunk::Line(_) => 1,
        Chunk::Conflict(c) => c.left.lines@.len() + c.right.lines@.len() + 3,
    }
}

pub open spec fn total_width(cs: Seq<Chunk<Line>>) -> nat
    decreases cs.len(),
{
    if cs.len() == 0 {
        0
    } else {
        total_width(cs.drop_last()) + width(cs.last())
    }
}

/// The lines of a chunk are numbered densely from `start`, markers included.
pub open spec fn chunk_numbered(c: Chunk<Line>, start: nat) -> bool {
    match c {
        Chunk::Line(l) => l.line_number.0 == start,
        Chunk::Conflict(c) => {
            &&& forall|j: int|
                0 <= j < c.left.lines@.len() ==> (#[trigger] c.left.lines@[j]).line_number.0
                    == start + 1 + j
            &&& forall|j: int|
                0 <= j < c.right.lines@.len() ==> (#[trigger] c.right.lines@[j]).line_number.0
                    == start + 2 + c.left.lines@.len() + j
        },
    }
}

/// The lines of the chunks are numbered densely from `start`, markers included.
pub open spec fn numbered(cs: Seq<Chunk<Line>>, start: nat) -> bool
    decreases cs.len(),
{
    if cs.len() == 0 {
        true
    } else {
        numbered(cs.drop_last(), start) && chunk_numbered(
            cs.last(),
            start + total_width(cs.drop_last()),
        )
    }
}

/// The lines of one version of the file, in order.
pub open spec fn half_of(c: Conflict<Line>, side: Side) -> Seq<Line> {
    match side {
        Side::Left => c.left.lines@,
        Side::Right => c.right.lines@,
    }
}

pub open spec fn chunk_side_lines(c: Chunk<Line>, side: Side) -> Seq<Line> {
    match c {
        Chunk::Line(l) => seq![l],
        Chunk::Conflict(c) => half_of(c, side),
    }
}

pub open spec fn side_lines(cs: Seq<Chunk<Line>>, side: Side) -> Seq<Line>
    decreases cs.len(),
{
    if cs.len() == 0 {
        seq![]
    } else {
        side_lines(cs.drop_last(), side) + chunk_side_lines(cs.last(), side)
    }
}

/// The lines of one version of the file, as (content, line number in this file).
pub open spec fn side_views(cs: Seq<Chunk<Line>>, side: Side) -> Seq<(Seq<u8>, usize)> {
    side_lines(cs, side).map_values(|l: Line| l@)
}

/// For each line of one version of the file, the line of the conflicted
/// file that it comes from.
pub open spec fn side_map(cs: Seq<Chunk<Line>>, side: Side) -> Seq<LineNumber> {
    side_views(cs, side).map_values(|v: (Seq<u8>, usize)| LineNumber(v.1))
}

/// The contents of the lines, one after the other.
pub open spec fn contents(ls: Seq<(Seq<u8>, usize)>) -> Seq<u8>
    decreases ls.len(),
{
    if ls.len() == 0 {
        seq![]
    } else {
        contents(ls.drop_last()) + ls.last().0
    }
}

/// A marker stood where it may not, or a conflict was left open.
#[derive(Debug, Clone, Copy, PartialEq, Eq, Structural)]
pub struct ConflictMarkerError {
    pub line_number: LineNumber,
}

/// The lines of a byte string, each with its newline where it has one.
pub fn split_into_lines(s: &[u8]) -> (r: Vec<Vec<u8>>)
    ensures
        r@.map_values(|l: Vec<u8>| l@) == split_lines(s@),
{
    let mut lines: Vec<Vec<u8>> = Vec::new();
    let mut cur: Vec<u8> = Vec::new();
    let mut i: usize = 0;
    while i < s.len()
        invariant
            0 <= i <= s@.len(),
            (lines@.map_values(|l: Vec<u8>| l@), cur@) == split_acc(s@.take(i as int)),
        decreases s.len() - i,
    {
        let b = s[i];
        proof {
            assert(s@.take(i + 1).drop_last() =~= s@.take(i as int));
        }
        cur.push(b);
        if b == NEWLINE {
            let ghost before = lines@;
            lines.push(cur);
            cur = Vec::new();
            proof {
                assert(lines@.map_values(|l: Vec<u8>| l@) =~= before.map_values(|l: Vec<u8>| l@).push(
                    lines@.last()@,
                ));
                assert(cur@ =~= Seq::<u8>::empty());
            }
        }
        i = i + 1;
    }
    proof {
        assert(s@.take(i as int) =~= s@);
    }
    if cur.len() > 0 {
        let ghost before = lines@;
        lines.push(cur);
        proof {
            assert(lines@.map_values(|l: Vec<u8>| l@) =~= before.map_values(|l: Vec<u8>| l@).push(
                lines@.last()@,
            ));
        }
    }
    lines
}

/// A line read for its markers.
enum MarkerLine {
    Header(Vec<u8>),
    Separator,
    Footer(Vec<u8>),
    Plain,
}

fn is_marker_exec(l: &[u8], c: u8) -> (r: bool)
    ensures
        r == is_marker(l@, c),
{
    if l.len() < 8 || l[7] != 32 {
        return false;
    }
    let mut i: usize = 0;
    while i < 7
        invariant
            0 <= i <= 7,
            l@.len() >= 8,
            forall|j: int| 0 <= j < i ==> l@[j] == c,
        decreases 7 - i,
    {
        if l[i] != c {
            return false;
        }
        i = i + 1;
    }
    true
}

fn read_marker(l: &[u8]) -> (r: MarkerLine)
    ensures
        match r {
            MarkerLine::Header(n) => classify(l@) == LineKind::Header(n@),
            MarkerLine::Separator => classify(l@) == LineKind::Separator,
            MarkerLine::Footer(n) => classify(l@) == LineKind::Footer(n@),
            MarkerLine::Plain => classify(l@) == LineKind::Plain(l@),
        },
{
    if is_marker_exec(l, 60) {
        return MarkerLine::Header(trimmed_tail(l, 8));
    }
    if is_marker_exec(l, 62) {
        return MarkerLine::Footer(trimmed_tail(l, 8));
    }
    let sep = l.len() == 8 && l[0] == 61 && l[1] == 61 && l[2] == 61 && l[3] == 61 && l[4] == 61
        && l[5] == 61 && l[6] == 61 && l[7] == 10;
    if sep {
        proof {
            assert(l@ =~= separator_line());
        }
        MarkerLine::Separator
    } else {
        proof {
            if l@ == separator_line() {
                assert(l@[7] == 10);
            }
        }
        MarkerLine::Plain
    }
}

/// The kinds of the lines read so far of a conflict that is still open.
pub open spec fn pending(
    state: Nest,
    name: Seq<u8>,
    left: Seq<Vec<u8>>,
    right: Seq<Vec<u8>>,
) -> Seq<LineKind> {
    match state {
        Nest::Outside => seq![],
        Nest::InLeft => seq![LineKind::Header(name)] + plain_kinds(left),
        Nest::InRight => seq![LineKind::Header(name)] + plain_kinds(left) + seq![
            LineKind::Separator,
        ] + plain_kinds(right),
    }
}

proof fn lemma_run_none_stays(ks: Seq<LineKind>, j: int)
    requires
        0 <= j <= ks.len(),
        run(ks.take(j)) is None,
    ensures
        run(ks) is None,
    decreases ks.len() - j,
{
    if j == ks.len() {
        assert(ks.take(j) =~= ks);
    } else {
        assert(ks.take(j + 1).drop_last() =~= ks.take(j));
        lemma_run_none_stays(ks, j + 1);
    }
}

/// Split the lines of a file into plain lines and conflicts.
pub fn parse_chunks(lines: &Vec<Vec<u8>>) -> (r: Result<Vec<Chunk<Vec<u8>>>, ConflictMarkerError>)
    ensures
        match r {
            Ok(cs) => well_nested(kinds_of(lines@.map_values(|l: Vec<u8>| l@))) && raw_kinds(cs@)
                == kinds_of(lines@.map_values(|l: Vec<u8>| l@)),
            Err(e) => !well_nested(kinds_of(lines@.map_values(|l: Vec<u8>| l@))) && 1
                <= e.line_number.0 <= lines@.len(),
        },
{
    let ghost ks = kinds_of(lines@.map_values(|l: Vec<u8>| l@));
    let mut chunks: Vec<Chunk<Vec<u8>>> = Vec::new();
    let mut state = Nest::Outside;
    let mut name: Vec<u8> = Vec::new();
    let mut left: Vec<Vec<u8>> = Vec::new();
    let mut right: Vec<Vec<u8>> = Vec::new();
    let mut header_at: usize = 0;
    let mut i: usize = 0;
    proof {
        assert(ks.take(0) =~= Seq::<LineKind>::empty());
    }
    while i < lines.len()
        invariant
            0 <= i <= lines@.len(),
            ks == kinds_of(lines@.map_values(|l: Vec<u8>| l@)),
            ks.len() == lines@.len(),
            run(ks.take(i as int)) == Some(state),
            raw_kinds(chunks@) + pending(state, name@, left@, right@) == ks.take(i as int),
            state != Nest::Outside ==> header_at < i,
            state != Nest::InRight ==> right@.len() == 0,
        decreases lines.len() - i,
    {
        let line = &lines[i];
        let marker = read_marker(line.as_slice());
        let ghost k = ks[i as int];
        proof {
            assert(k == classify(line@));
            assert(ks.take(i + 1).drop_last() =~= ks.take(i as int));
            assert(ks.take(i + 1) =~= ks.take(i as int).push(k));
        }
        let ghost old_chunks = chunks@;
        let ghost old_left = left@;
        let ghost old_right = right@;
        match marker {
            MarkerLine::Plain => {
                if state == Nest::Outside {
                    chunks.push(Chunk::Line(copy_bytes(line.as_slice())));
                    proof {
                        assert(chunks@.drop_last() =~= old_chunks);
                    }
                } else if state == Nest::InLeft {
                    left.push(copy_bytes(line.as_slice()));
                    proof {
                        assert(plain_kinds(left@) =~= plain_kinds(old_left).push(
                            LineKind::Plain(line@),
                        ));
                    }
                } else {
                    right.push(copy_bytes(line.as_slice()));
                    proof {
                        assert(plain_kinds(right@) =~= plain_kinds(old_right).push(
                            LineKind::Plain(line@),
                        ));
                    }
                }
            },
            MarkerLine::Header(n) => {
                if state != Nest::Outside {
                    proof {
                        lemma_run_none_stays(ks, i + 1);
                    }
                    return Err(ConflictMarkerError { line_number: LineNumber(i + 1) });
                }
                state = Nest::InLeft;
                name = n;
                left = Vec::new();
                right = Vec::new();
                header_at = i;
                proof {
                    assert(plain_kinds(left@) =~= Seq::<LineKind>::empty());
                }
            },
            MarkerLine::Separator => {
                if state != Nest::InLeft {
                    proof {
                        lemma_run_none_stays(ks, i + 1);
                    }
                    return Err(ConflictMarkerError { line_number: LineNumber(i + 1) });
                }
                state = Nest::InRight;
                proof {
                    assert(plain_kinds(right@) =~= Seq::<LineKind>::empty());
                }
            },
            MarkerLine::Footer(n) => {
                if state != Nest::InRight {
                    proof {
                        lemma_run_none_stays(ks, i + 1);
                    }
                    return Err(ConflictMarkerError { line_number: LineNumber(i + 1) });
                }
                let conflict = Conflict {
                    left: ConflictHalf { name: name, lines: left },
                    right: ConflictHalf { name: n, lines: right },
                };
                chunks.push(Chunk::Conflict(conflict));
                proof {
                    assert(chunks@.drop_last() =~= old_chunks);
                }
                state = Nest::Outside;
                name = Vec::new();
                left = Vec::new();
                right = Vec::new();
            },
        }
        i = i + 1;
    }
    proof {
        assert(ks.take(i as int) =~= ks);
    }
    if state != Nest::Outside {
        return Err(ConflictMarkerError { line_number: LineNumber(header_at + 1) });
    }
    proof {
        assert(raw_kinds(chunks@) + pending(state, name@, left@, right@) =~= raw_kinds(chunks@));
    }
    Ok(chunks)
}

impl ConflictHalf<Vec<u8>> {
    /// Number the lines of this half; the marker line before them takes the
    /// first number.
    pub fn with_line_number(&self, line_number: &mut LineNumber) -> (r: ConflictHalf<Line>)
        requires
            old(line_number).0 + self.lines@.len() + 1 < usize::MAX,
        ensures
            r.name@ == self.name@,
            r.lines@.len() == self.lines@.len(),
            forall|j: int|
                0 <= j < self.lines@.len() ==> (#[trigger] r.lines@[j]).content@
                    == self.lines@[j]@ && r.lines@[j].line_number.0 == old(line_number).0 + 1
                    + j,
            plain_line_kinds(r.lines@) == plain_kinds(self.lines@),
            final(line_number).0 == old(line_number).0 + 1 + self.lines@.len(),
    {
        let start = line_number.0;
        line_number.get_incr();
        let mut lines: Vec<Line> = Vec::new();
        let mut j: usize = 0;
        while j < self.lines.len()
            invariant
                0 <= j <= self.lines@.len(),
                start + self.lines@.len() + 1 < usize::MAX,
                line_number.0 == start + 1 + j,
                lines@.len() == j,
                forall|k: int|
                    0 <= k < j ==> (#[trigger] lines@[k]).content@ == self.lines@[k]@
                        && lines@[k].line_number.0 == start + 1 + k,
            decreases self.lines.len() - j,
        {
            let line = Line::with_line_number(copy_bytes(self.lines[j].as_slice()), line_number);
            lines.push(line);
            j = j + 1;
        }
        let r = ConflictHalf { name: copy_bytes(self.name.as_slice()), lines };
        proof {
            assert(plain_line_kinds(r.lines@) =~= plain_kinds(self.lines@));
        }
        r
    }
}

impl Conflict<Vec<u8>> {
    /// Number the lines of this conflict from its header on.
    pub fn with_line_number(&self, line_number: &mut LineNumber) -> (r: Conflict<Line>)
        requires
            old(line_number).0 + self.left.lines@.len() + self.right.lines@.len() + 3
                < usize::MAX,
        ensures
            chunk_numbered(Chunk::Conflict(r), old(line_number).0 as nat),
            chunk_kinds(Chunk::Conflict(r)) == raw_chunk_kinds(Chunk::Conflict(*self)),
            width(Chunk::Conflict(r)) == raw_width(Chunk::Conflict(*self)),
            final(line_number).0 == old(line_number).0 + raw_width(Chunk::Conflict(*self)),
    {
        let left = self.left.with_line_number(line_number);
        let right = self.right.with_line_number(line_number);
        line_number.get_incr();
        Conflict { left, right }
    }
}

impl Chunk<Vec<u8>> {
    /// Number the lines of this chunk, markers included.
    pub fn with_line_number(&self, line_number: &mut LineNumber) -> (r: Chunk<Line>)
        requires
            old(line_number).0 + raw_width(*self) < usize::MAX,
        ensures
            chunk_numbered(r, old(line_number).0 as nat),
            chunk_kinds(r) == raw_chunk_kinds(*self),
            width(r) == raw_width(*self),
            final(line_number).0 == old(line_number).0 + raw_width(*self),
    {
        match self {
            Chunk::Line(l) => Chunk::Line(Line::with_line_number(copy_bytes(l.as_slice()), line_number)),
            Chunk::Conflict(c) => Chunk::Conflict(c.with_line_number(line_number)),
        }
    }
}

proof fn lemma_raw_kinds_len(cs: Seq<Chunk<Vec<u8>>>, k: int)
    requires
        0 <= k <= cs.len(),
    ensures
        raw_kinds(cs.take(k)).len() <= raw_kinds(cs).len(),
    decreases cs.len(),
{
    if k < cs.len() {
        assert(cs.drop_last().take(k) =~= cs.take(k));
        lemma_raw_kinds_len(cs.drop_last(), k);
    } else {
        assert(cs.take(k) =~= cs);
    }
}

proof fn lemma_raw_chunk_width(c: Chunk<Vec<u8>>)
    ensures
        raw_chunk_kinds(c).len() == raw_width(c),
{
}

proof fn lemma_split_acc_len(s: Seq<u8>)
    ensures
        split_acc(s).0.len() + split_acc(s).1.len() <= s.len(),
    decreases s.len(),
{
    if s.len() > 0 {
        lemma_split_acc_len(s.drop_last());
    }
}

proof fn lemma_split_lines_len(s: Seq<u8>)
    ensures
        split_lines(s).len() <= s.len(),
{
    lemma_split_acc_len(s);
}

/// A parsed file that may hold git conflicts.
#[derive(Debug)]
pub struct GitFile {
    pub chunks: Vec<Chunk<Line>>,
}

impl GitFile {
    /// The lines of the file are numbered densely from 1, markers included,
    /// and the number after the last still fits.
    pub open spec fn wf(&self) -> bool {
        &&& numbered(self.chunks@, 1)
        &&& total_width(self.chunks@) < usize::MAX
    }

    /// Number the lines of a sequence of chunks from 1.
    fn from_chunks(chunks: Vec<Chunk<Vec<u8>>>) -> (r: GitFile)
        requires
            raw_kinds(chunks@).len() + 1 < usize::MAX,
        ensures
            r.wf(),
            kinds(r.chunks@) == raw_kinds(chunks@),
    {
        let mut line_number = LineNumber::one();
        let mut out: Vec<Chunk<Line>> = Vec::new();
        let mut i: usize = 0;
        while i < chunks.len()
            invariant
                0 <= i <= chunks@.len(),
                raw_kinds(chunks@).len() + 1 < usize::MAX,
                out@.len() == i,
                numbered(out@, 1),
                line_number.0 == 1 + total_width(out@),
                total_width(out@) == raw_kinds(chunks@.take(i as int)).len(),
                kinds(out@) == raw_kinds(chunks@.take(i as int)),
            decreases chunks.len() - i,
        {
            proof {
                assert(chunks@.take(i + 1).drop_last() =~= chunks@.take(i as int));
                lemma_raw_kinds_len(chunks@, i + 1);
                lemma_raw_chunk_width(chunks@[i as int]);
            }
            let c = chunks[i].with_line_number(&mut line_number);
            let ghost before = out@;
            out.push(c);
            proof {
                assert(out@.drop_last() =~= before);
            }
            i = i + 1;
        }
        proof {
            assert(chunks@.take(i as int) =~= chunks@);
        }
        GitFile { chunks: out }
    }

    /// Parse a file that may hold git conflicts.
    pub fn from_file(file: &str) -> (r: Result<GitFile, ConflictMarkerError>)
        requires
            file.spec_bytes().len() + 1 < usize::MAX,
        ensures
            match r {
                Ok(g) => well_nested(kinds_of(split_lines(file.spec_bytes()))) && g.wf() && kinds(
                    g.chunks@,
                ) == kinds_of(split_lines(file.spec_bytes())),
                Err(_) => !well_nested(kinds_of(split_lines(file.spec_bytes()))),
            },
    {
        let bytes = file.as_bytes();
        let lines = split_into_lines(bytes);
        proof {
            lemma_split_lines_len(bytes@);
        }
        match parse_chunks(&lines) {
            Ok(chunks) => Ok(GitFile::from_chunks(chunks)),
            Err(e) => Err(e),
        }
    }

    pub fn chunks(&self) -> (r: &[Chunk<Line>])
        ensures
            r@ == self.chunks@,
    {
        self.chunks.as_slice()
    }

    /// Whether the file holds at least one conflict.
    pub fn contains_conflict(&self) -> (r: bool)
        ensures
            r == exists|i: int| 0 <= i < self.chunks@.len() && #[trigger] self.chunks@[i] is Conflict,
    {
        let mut i: usize = 0;
        while i < self.chunks.len()
            invariant
                0 <= i <= self.chunks@.len(),
                forall|j: int| 0 <= j < i ==> !(#[trigger] self.chunks@[j] is Conflict),
            decreases self.chunks.len() - i,
        {
            if let Chunk::Conflict(_) = &self.chunks[i] {
                return true;
            }
            i = i + 1;
        }
        false
    }

    /// The lines of one version of the file, with their line numbers in this file.
    pub fn get_lines(&self, side: Side) -> (r: Vec<Line>)
        ensures
            r@.map_values(|l: Line| l@) == side_lines(self.chunks@, side).map_values(|l: Line| l@),
    {
        let mut out: Vec<Line> = Vec::new();
        let mut i: usize = 0;
        while i < self.chunks.len()
            invariant
                0 <= i <= self.chunks@.len(),
                out@.map_values(|l: Line| l@) == side_lines(self.chunks@.take(i as int), side).map_values(
                    |l: Line| l@,
                ),
            decreases self.chunks.len() - i,
        {
            proof {
                assert(self.chunks@.take(i + 1).drop_last() =~= self.chunks@.take(i as int));
            }
            let ghost before = out@;
            let ghost acc = side_lines(self.chunks@.take(i as int), side);
            match &self.chunks[i] {
                Chunk::Line(l) => {
                    out.push(l.duplicate());
                    proof {
                        assert(out@.map_values(|l: Line| l@) =~= before.map_values(|l: Line| l@).push(
                            l@,
                        ));
                        assert((acc + seq![*l]).map_values(|l: Line| l@) =~= acc.map_values(
                            |l: Line| l@,
                        ).push(l@));
                    }
                },
                Chunk::Conflict(c) => {
                    let half = match side {
                        Side::Left => &c.left,
                        Side::Right => &c.right,
                    };
                    let ghost hl = half.lines@;
                    assert(hl == half_of(*c, side));
                    let mut j: usize = 0;
                    while j < half.lines.len()
                        invariant
                            0 <= j <= hl.len(),
                            hl == half.lines@,
                            out@.map_values(|l: Line| l@) == (acc + hl.take(j as int)).map_values(
                                |l: Line| l@,
                            ),
                        decreases hl.len() - j,
                    {
                        let ghost prev = out@;
                        out.push(half.lines[j].duplicate());
                        proof {
                            assert(acc + hl.take(j + 1) =~= (acc + hl.take(j as int)).push(hl[j as int]));
                            assert(out@.map_values(|l: Line| l@) =~= prev.map_values(|l: Line| l@).push(
                                hl[j as int]@,
                            ));
                            assert((acc + hl.take(j + 1)).map_values(|l: Line| l@) =~= (acc
                                + hl.take(j as int)).map_values(|l: Line| l@).push(hl[j as int]@));
                        }
                        j = j + 1;
                    }
                    proof {
                        assert(hl.take(j as int) =~= hl);
                    }
                },
            }
            i = i + 1;
        }
        proof {
            assert(self.chunks@.take(i as int) =~= self.chunks@);
        }
        out
    }
}

impl GitFile {
    /// The text of one version of the file, with the line of this file that
    /// each of its lines comes from.
    pub fn build_derived_file(&self, side: Side) -> (r: DerivedFile)
        ensures
            r.content@ == contents(side_views(self.chunks@, side)),
            r.line_mappings@ == side_map(self.chunks@, side),
    {
        let lines = self.get_lines(side);
        let ghost views = side_views(self.chunks@, side);
        let mut content: Vec<u8> = Vec::new();
        let mut line_mappings: Vec<LineNumber> = Vec::new();
        let mut k: usize = 0;
        while k < lines.len()
            invariant
                0 <= k <= lines@.len(),
                lines@.map_values(|l: Line| l@) == views,
                content@ == contents(views.take(k as int)),
                line_mappings@.len() == k,
                forall|j: int| 0 <= j < k ==> (#[trigger] line_mappings@[j]).0 == views[j].1,
            decreases lines.len() - k,
        {
            proof {
                assert(views.take(k + 1).drop_last() =~= views.take(k as int));
                assert(views[k as int] == lines@[k as int]@);
            }
            push_bytes(&mut content, lines[k].content.as_slice());
            line_mappings.push(lines[k].line_number);
            k = k + 1;
        }
        proof {
            assert(views.take(k as int) =~= views);
            assert(line_mappings@ =~= side_map(self.chunks@, side));
        }
        DerivedFile { content, line_mappings }
    }
}

/// One version of a conflicted file: its text, and for each of its lines the
/// line of the conflicted file that it comes from.
#[derive(Debug, Clone)]
pub struct DerivedFile {
    pub content: Vec<u8>,
    /// Entry `i` is the line of the conflicted file that line `i + 1` comes from.
    pub line_mappings: Vec<LineNumber>,
}

impl DerivedFile {
    pub fn content(&self) -> (r: &[u8])
        ensures
            r@ == self.content@,
    {
        self.content.as_slice()
    }

    /// The line of the conflicted file that a line of this version comes from.
    pub fn get_original_line(&self, derived_line: LineNumber) -> (r: Option<LineNumber>)
        ensures
            r == (if 1 <= derived_line.0 <= self.line_mappings@.len() {
                Some(self.line_mappings@[derived_line.0 - 1])
            } else {
                None
            }),
    {
        if 1 <= derived_line.0 && derived_line.0 <= self.line_mappings.len() {
            Some(self.line_mappings[derived_line.0 - 1])
        } else {
            None
        }
    }
}

/// A set of line numbers, kept as one flag per number.
#[derive(Debug, Clone)]
pub struct LineSet {
    pub flags: Vec<bool>,
}

impl LineSet {
    pub open spec fn has(&self, n: usize) -> bool {
        n < self.flags@.len() && self.flags@[n as int]
    }

    /// The empty set.
    pub fn new() -> (r: LineSet)
        ensures
            forall|n: usize| !r.has(n),
    {
        LineSet { flags: Vec::new() }
    }

    /// Adds a line number to the set.
    pub fn insert(&mut self, line: LineNumber)
        requires
            line.0 < usize::MAX,
        ensures
            forall|n: usize| final(self).has(n) == (old(self).has(n) || n == line.0),
    {
        while self.flags.len() <= line.0
            invariant
                line.0 < usize::MAX,
                forall|n: usize| self.has(n) == old(self).has(n),
            decreases line.0 + 1 - self.flags@.len(),
        {
            self.flags.push(false);
        }
        self.flags.set(line.0, true);
    }

    pub fn contains(&self, line: LineNumber) -> (r: bool)
        ensures
            r == self.has(line.0),
    {
        line.0 < self.flags.len() && self.flags[line.0]
    }
}

} // verus!
