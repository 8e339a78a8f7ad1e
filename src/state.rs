//! State for reading a file line by line: lines held back until they are
//! kept or dropped, and the stack of what a `use` parser has read so far.
use vstd::prelude::*;
use vstd::string::StrSliceExecFns;

use crate::bytes::{is_blank, is_blank_exec};
use crate::parsers::{starts_raw, Identifier};
use crate::tree::{UseItem, Visibility};

verus! {

/// Lines of the file as they go by, until they are written out or dropped.
#[derive(Debug)]
pub struct LinesBuffer {
    pub lines: Vec<Vec<u8>>,
}

pub open spec fn line_views(ls: Seq<Vec<u8>>) -> Seq<Seq<u8>> {
    ls.map_values(|l: Vec<u8>| l@)
}

/// Where the trailing run of blank lines starts.
pub open spec fn blank_suffix_start(ls: Seq<Seq<u8>>) -> int
    decreases ls.len(),
{
    if ls.len() == 0 {
        0
    } else if is_blank(ls.last()) {
        blank_suffix_start(ls.drop_last())
    } else {
        ls.len() as int
    }
}

impl LinesBuffer {
    pub fn new() -> (r: LinesBuffer)
        ensures
            r.lines@.len() == 0,
    {
        LinesBuffer { lines: Vec::new() }
    }

    pub fn push(&mut self, line: Vec<u8>)
        ensures
            line_views(final(self).lines@) == line_views(old(self).lines@).push(line@),
    {
        self.lines.push(line);
        proof {
            assert(line_views(self.lines@) =~= line_views(old(self).lines@).push(line@));
        }
    }

    /// Move every line to the end of `dest`.
    pub fn flush_to(&mut self, dest: &mut Vec<Vec<u8>>)
        ensures
            line_views(final(dest)@) == line_views(old(dest)@) + line_views(old(self).lines@),
            final(self).lines@.len() == 0,
    {
        let ghost start = line_views(dest@);
        let ghost ls = line_views(self.lines@);
        let mut held: Vec<Vec<u8>> = Vec::new();
        std::mem::swap(&mut held, &mut self.lines);
        let mut i: usize = 0;
        proof {
            assert(line_views(held@) == ls);
            assert(start + ls.take(0) =~= start);
        }
        while i < held.len()
            invariant
                0 <= i <= held@.len(),
                line_views(held@) == ls,
                line_views(dest@) == start + ls.take(i as int),
            decreases held@.len() - i,
        {
            let ghost before = line_views(dest@);
            dest.push(crate::bytes::copy_bytes(held[i].as_slice()));
            proof {
                assert(line_views(dest@) =~= before.push(ls[i as int]));
                assert(start + ls.take(i + 1) =~= (start + ls.take(i as int)).push(ls[i as int]));
            }
            i = i + 1;
        }
        proof {
            assert(ls.take(i as int) =~= ls);
        }
    }

    /// Drop every line.
    pub fn discard(&mut self)
        ensures
            final(self).lines@.len() == 0,
    {
        self.lines.clear();
    }

    /// Drop every line except the trailing run of blank (whitespace-only) lines.
    pub fn discard_block(&mut self)
        ensures
            line_views(final(self).lines@) == line_views(old(self).lines@).skip(
                blank_suffix_start(line_views(old(self).lines@)),
            ),
    {
        let ghost ls = line_views(self.lines@);
        let mut point = self.lines.len();
        proof {
            assert(ls.take(point as int) =~= ls);
        }
        while point > 0 && is_blank_exec(self.lines[point - 1].as_slice())
            invariant
                0 <= point <= ls.len(),
                ls == line_views(self.lines@),
                blank_suffix_start(ls) == blank_suffix_start(ls.take(point as int)),
            decreases point,
        {
            proof {
                assert(ls.take(point as int).drop_last() =~= ls.take(point - 1));
                assert(ls.take(point as int).last() == ls[point - 1]);
            }
            point = point - 1;
        }
        proof {
            if point > 0 {
                assert(ls.take(point as int).last() == ls[point - 1]);
            }
        }
        let mut kept: Vec<Vec<u8>> = Vec::new();
        let mut i = point;
        while i < self.lines.len()
            invariant
                point <= i <= ls.len(),
                ls == line_views(self.lines@),
                line_views(kept@) == ls.subrange(point as int, i as int),
            decreases ls.len() - i,
        {
            let ghost before = line_views(kept@);
            kept.push(crate::bytes::copy_bytes(self.lines[i].as_slice()));
            proof {
                assert(line_views(kept@) =~= before.push(ls[i as int]));
                assert(ls.subrange(point as int, i + 1) =~= ls.subrange(point as int, i as int).push(ls[i as int]));
            }
            i = i + 1;
        }
        self.lines = kept;
        proof {
            assert(ls.subrange(point as int, ls.len() as int) =~= ls.skip(point as int));
        }
    }
}

/// What a parser of `use` declarations has most recently read and still
/// expects more after.
#[derive(Debug)]
pub enum ParseFrame {
    /// At the top level, looking for `use` items.
    Top,
    /// Just read `use` (with any visibility before it).
    Use,
    /// Just read `::`.
    PathSeparator,
    /// Just read an identifier.
    Identifier(Identifier),
    /// Just read `*`.
    Wildcard,
    /// Just read `{`.
    BlockStart,
    /// Just read a whole `{...}` block.
    Block,
}

impl ParseFrame {
    pub fn duplicate(&self) -> (r: ParseFrame)
        ensures
            frame_kind(r) == frame_kind(*self),
            self is Identifier ==> r is Identifier && r->Identifier_0.raw@ == self->Identifier_0.raw@,
    {
        match self {
            ParseFrame::Top => ParseFrame::Top,
            ParseFrame::Use => ParseFrame::Use,
            ParseFrame::PathSeparator => ParseFrame::PathSeparator,
            ParseFrame::Identifier(i) => ParseFrame::Identifier(Identifier { raw: i.raw.clone() }),
            ParseFrame::Wildcard => ParseFrame::Wildcard,
            ParseFrame::BlockStart => ParseFrame::BlockStart,
            ParseFrame::Block => ParseFrame::Block,
        }
    }
}

/// Which frame it is: 0 `Top`, 1 `Use`, 2 `PathSeparator`, 3 `Identifier`,
/// 4 `Wildcard`, 5 `BlockStart`, 6 `Block`.
pub open spec fn frame_kind(f: ParseFrame) -> int {
    match f {
        ParseFrame::Top => 0,
        ParseFrame::Use => 1,
        ParseFrame::PathSeparator => 2,
        ParseFrame::Identifier(_) => 3,
        ParseFrame::Wildcard => 4,
        ParseFrame::BlockStart => 5,
        ParseFrame::Block => 6,
    }
}

/// The stack of frames of an ongoing parse.
#[derive(Debug)]
pub struct ParseStack {
    pub stack: Vec<ParseFrame>,
}

/// The first frame that says whether the path is rooted: `::` first means
/// rooted, an identifier first means not.
pub open spec fn rooted_from(fs: Seq<ParseFrame>, i: int) -> bool
    decreases fs.len() - i,
{
    if i >= fs.len() || i < 0 {
        false
    } else if fs[i] is PathSeparator {
        true
    } else if fs[i] is Identifier {
        false
    } else {
        rooted_from(fs, i + 1)
    }
}

/// The index just after the last `BlockStart` frame, or 0.
pub open spec fn after_last_block_start(fs: Seq<ParseFrame>) -> int
    decreases fs.len(),
{
    if fs.len() == 0 {
        0
    } else if fs.last() is BlockStart {
        fs.len() as int
    } else {
        after_last_block_start(fs.drop_last())
    }
}

/// The identifier is `self`.
pub open spec fn names_self(i: Identifier) -> bool {
    (if starts_raw(i.raw@) {
        i.raw@.skip(2)
    } else {
        i.raw@
    }) == seq!['s', 'e', 'l', 'f']
}

fn is_self_ident(i: &Identifier) -> (r: bool)
    ensures
        r == names_self(*i),
{
    let s = i.get();
    let n = s.unicode_len();
    let r = n == 4 && s.get_char(0) == 's' && s.get_char(1) == 'e' && s.get_char(2) == 'l' && s.get_char(3) == 'f';
    proof {
        if r {
            assert(s@ =~= seq!['s', 'e', 'l', 'f']);
        }
        if s@ == seq!['s', 'e', 'l', 'f'] {
            assert(s@[0] == 's');
        }
    }
    r
}

/// The identifiers of the path read so far, `self` left out.
pub open spec fn path_of_frames(fs: Seq<ParseFrame>) -> Seq<Seq<char>>
    decreases fs.len(),
{
    if fs.len() == 0 {
        seq![]
    } else {
        path_of_frames(fs.drop_last()) + match fs.last() {
            ParseFrame::Identifier(i) => if names_self(i) {
                seq![]
            } else {
                seq![i.raw@]
            },
            _ => seq![],
        }
    }
}

impl ParseStack {
    pub fn new() -> (r: ParseStack)
        ensures
            r.stack@.len() == 0,
    {
        ParseStack { stack: Vec::new() }
    }

    /// The frame on top, or `Top` on an empty stack.
    pub fn top(&self) -> (r: ParseFrame)
        ensures
            frame_kind(r) == (if self.stack@.len() == 0 {
                0
            } else {
                frame_kind(self.stack@.last())
            }),
            self.stack@.len() > 0 && self.stack@.last() is Identifier ==> r->Identifier_0.raw@
                == self.stack@.last()->Identifier_0.raw@,
    {
        if self.stack.len() == 0 {
            ParseFrame::Top
        } else {
            self.stack[self.stack.len() - 1].duplicate()
        }
    }

    /// Add a new frame to the stack.
    pub fn push(&mut self, state: ParseFrame)
        ensures
            final(self).stack@ == old(self).stack@.push(state),
    {
        self.stack.push(state)
    }

    /// Whether a `{` is open.
    pub fn in_block(&self) -> (r: bool)
        ensures
            r == exists|i: int| 0 <= i < self.stack@.len() && #[trigger] self.stack@[i] is BlockStart,
    {
        let mut i: usize = 0;
        while i < self.stack.len()
            invariant
                0 <= i <= self.stack@.len(),
                forall|j: int| 0 <= j < i ==> !(#[trigger] self.stack@[j] is BlockStart),
            decreases self.stack@.len() - i,
        {
            if let ParseFrame::BlockStart = &self.stack[i] {
                return true;
            }
            i = i + 1;
        }
        false
    }

    /// Whether the current path starts with `::`; false where there is no path.
    pub fn rooted(&self) -> (r: bool)
        ensures
            r == rooted_from(self.stack@, 0),
    {
        let mut i: usize = 0;
        while i < self.stack.len()
            invariant
                0 <= i <= self.stack@.len(),
                rooted_from(self.stack@, 0) == rooted_from(self.stack@, i as int),
            decreases self.stack@.len() - i,
        {
            match &self.stack[i] {
                ParseFrame::PathSeparator => {
                    return true;
                },
                ParseFrame::Identifier(_) => {
                    return false;
                },
                _ => {},
            }
            i = i + 1;
        }
        false
    }

    /// The identifiers of the current path, without `self`.
    pub fn path(&self) -> (r: Vec<Identifier>)
        ensures
            r@.map_values(|i: Identifier| i.raw@) == path_of_frames(self.stack@),
    {
        let ghost fs = self.stack@;
        let mut r: Vec<Identifier> = Vec::new();
        let mut i: usize = 0;
        proof {
            assert(fs.take(0) =~= Seq::<ParseFrame>::empty());
            assert(r@.map_values(|i: Identifier| i.raw@) =~= Seq::<Seq<char>>::empty());
        }
        while i < self.stack.len()
            invariant
                0 <= i <= fs.len(),
                fs == self.stack@,
                r@.map_values(|i: Identifier| i.raw@) == path_of_frames(fs.take(i as int)),
            decreases fs.len() - i,
        {
            proof {
                assert(fs.take(i + 1).drop_last() =~= fs.take(i as int));
            }
            let ghost before = r@;
            if let ParseFrame::Identifier(ident) = &self.stack[i] {
                if !is_self_ident(ident) {
                    r.push(Identifier { raw: ident.raw.clone() });
                    proof {
                        assert(r@.map_values(|i: Identifier| i.raw@) =~= before.map_values(|i: Identifier| i.raw@).push(ident.raw@));
                    }
                } else {
                    proof {
                        assert(path_of_frames(fs.take(i + 1)) =~= path_of_frames(fs.take(i as int)));
                    }
                }
            } else {
                proof {
                    assert(path_of_frames(fs.take(i + 1)) =~= path_of_frames(fs.take(i as int)));
                }
            }
            i = i + 1;
        }
        proof {
            assert(fs.take(i as int) =~= fs);
        }
        r
    }

    /// Whether the current path has at least one identifier.
    pub fn in_path(&self) -> (r: bool)
        ensures
            r == (path_of_frames(self.stack@).len() > 0),
    {
        let p = self.path();
        proof {
            assert(p@.map_values(|i: Identifier| i.raw@).len() == p@.len());
        }
        p.len() > 0
    }

    /// Pop the frames after the last `BlockStart`, or all of them outside a block.
    pub fn pop_to_block_start(&mut self)
        ensures
            final(self).stack@ == old(self).stack@.take(after_last_block_start(old(self).stack@)),
    {
        let point = self.block_start_point();
        self.stack.truncate(point);
    }

    /// Pop the frames from the last `BlockStart` on, or all of them outside a block.
    pub fn end_block(&mut self)
        ensures
            final(self).stack@ == old(self).stack@.take(
                if after_last_block_start(old(self).stack@) > 0 {
                    after_last_block_start(old(self).stack@) - 1
                } else {
                    0
                },
            ),
    {
        let point = self.block_start_point();
        let point = if point > 0 {
            point - 1
        } else {
            0
        };
        self.stack.truncate(point);
    }

    fn block_start_point(&self) -> (r: usize)
        ensures
            r == after_last_block_start(self.stack@),
            r <= self.stack@.len(),
    {
        let ghost fs = self.stack@;
        let mut k = self.stack.len();
        proof {
            assert(fs.take(k as int) =~= fs);
        }
        while k > 0
            invariant
                0 <= k <= fs.len(),
                fs == self.stack@,
                after_last_block_start(fs) == after_last_block_start(fs.take(k as int)),
            decreases k,
        {
            proof {
                assert(fs.take(k as int).drop_last() =~= fs.take(k - 1));
                assert(fs.take(k as int).last() == fs[k - 1]);
            }
            if let ParseFrame::BlockStart = &self.stack[k - 1] {
                return k;
            }
            k = k - 1;
        }
        0
    }
}

/// The whole state of an ongoing parse: the declarations read, the one
/// being read, and the stack of frames.
#[derive(Debug)]
pub struct ParseState {
    pub uses: Vec<UseItem>,
    pub current_use_item: Option<UseItem>,
    pub stack: ParseStack,
}

impl ParseState {
    pub fn new() -> (r: ParseState)
        ensures
            r.uses@.len() == 0,
            r.current_use_item is None,
            r.stack.stack@.len() == 0,
    {
        ParseState { uses: Vec::new(), current_use_item: None, stack: ParseStack::new() }
    }

    /// Finish the declaration being read, if any, and start a new one.
    pub fn start_use_item(&mut self, visibility: Option<Visibility>)
        ensures
            final(self).uses@ == (match old(self).current_use_item {
                Some(u) => old(self).uses@.push(u),
                None => old(self).uses@,
            }),
            final(self).current_use_item is Some,
            final(self).stack.stack@ == old(self).stack.stack@,
    {
        self.finish_use_item();
        self.current_use_item = Some(UseItem::new(visibility));
    }

    /// Add the declaration being read, if any, to those read.
    pub fn finish_use_item(&mut self)
        ensures
            final(self).uses@ == (match old(self).current_use_item {
                Some(u) => old(self).uses@.push(u),
                None => old(self).uses@,
            }),
            final(self).current_use_item is None,
            final(self).stack.stack@ == old(self).stack.stack@,
    {
        let mut current: Option<UseItem> = None;
        std::mem::swap(&mut current, &mut self.current_use_item);
        if let Some(use_item) = current {
            self.uses.push(use_item);
        }
    }
}

} // verus!
