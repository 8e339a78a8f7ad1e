//! Finding the top-level `use` declarations of one version of a conflicted
//! file, with the lines of the conflicted file that each of them takes.
use vstd::prelude::*;

use crate::bridge::{parse_error, parses, raw_opt_views, read_use_items, use_syntax, PARSE_LIMIT};
use crate::syntax::RawView;
use crate::bytes::{is_blank, is_blank_exec};
use crate::gitfile::{contents, side_map, side_views, split_into_lines, split_lines, GitFile, LineNumber, Side};
use crate::tree::{seg_views, use_item_of, use_item_ok, use_item_view, UseItem, UseItemView};

verus! {

/// A `use` declaration with the lines of the conflicted file that it takes.
#[derive(Debug)]
pub struct AnnotatedUseItem {
    pub use_item: UseItem,
    pub touched_original_lines: Vec<LineNumber>,
}

/// The last line a declaration ending on line `end` takes: the line after it
/// too, where that line exists and is blank.
pub open spec fn extended_end(lines: Seq<Seq<u8>>, end: usize) -> int {
    if end < lines.len() && is_blank(lines[end as int]) {
        end + 1
    } else {
        end as int
    }
}

/// The lines of the conflicted file that derived lines `start..=extended_end` come from, where they exist.
pub open spec fn touched(map: Seq<LineNumber>, lines: Seq<Seq<u8>>, start: usize, end: usize) -> Seq<LineNumber> {
    let lo = if start >= 1 {
        start as int
    } else {
        1
    };
    let e = extended_end(lines, end);
    let hi = if e < map.len() {
        e
    } else {
        map.len() as int
    };
    if lo <= hi {
        map.subrange(lo - 1, hi)
    } else {
        seq![]
    }
}

/// The lines of the conflicted file that a declaration on derived lines `start..=end`
/// takes, with the blank line after it if there is one.
pub fn touched_lines(line_mappings: &Vec<LineNumber>, lines: &Vec<Vec<u8>>, start: usize, end: usize) -> (r: Vec<
    LineNumber,
>)
    ensures
        r@ == touched(line_mappings@, seg_views(lines@), start, end),
{
    let ghost ls = seg_views(lines@);
    let e = if end < lines.len() && is_blank_exec(lines[end].as_slice()) {
        end + 1
    } else {
        end
    };
    proof {
        assert(e == extended_end(ls, end));
    }
    let lo = if start >= 1 {
        start
    } else {
        1
    };
    let hi = if e < line_mappings.len() {
        e
    } else {
        line_mappings.len()
    };
    let mut r: Vec<LineNumber> = Vec::new();
    if lo > hi {
        return r;
    }
    let mut k = lo - 1;
    while k < hi
        invariant
            1 <= lo,
            lo - 1 <= k <= hi,
            hi <= line_mappings@.len(),
            r@ == line_mappings@.subrange(lo - 1, k as int),
        decreases hi - k,
    {
        r.push(line_mappings[k]);
        proof {
            assert(r@ =~= line_mappings@.subrange(lo - 1, k + 1));
        }
        k = k + 1;
    }
    r
}

/// The source text of one version of the file is not Rust that the parser
/// takes, at this line and column.
#[derive(Debug, Clone, Copy, PartialEq, Eq, Structural)]
pub struct SyntaxError {
    pub side: Side,
    pub line: usize,
    pub column: usize,
}

/// The text of one version of the file.
pub open spec fn side_text(file: GitFile, side: Side) -> Seq<u8> {
    contents(side_views(file.chunks@, side))
}

/// A declaration with the lines it takes, as plain values.
pub type AnnotatedView = (UseItemView, Seq<LineNumber>);

pub open spec fn annotated_views(items: Seq<AnnotatedUseItem>) -> Seq<AnnotatedView> {
    items.map_values(|a: AnnotatedUseItem| (use_item_view(a.use_item), a.touched_original_lines@))
}

/// The handled `use` declarations among the parsed items, in order, each
/// with the lines of the conflicted file it takes.
pub open spec fn extracted(raws: Seq<Option<RawView>>, map: Seq<LineNumber>, lines: Seq<Seq<u8>>) -> Seq<AnnotatedView>
    decreases raws.len(),
{
    if raws.len() == 0 {
        seq![]
    } else {
        extracted(raws.drop_last(), map, lines) + match raws.last() {
            Some(r) => if use_item_ok(r) {
                seq![(use_item_of(r), touched(map, lines, r.4, r.5))]
            } else {
                seq![]
            },
            None => seq![],
        }
    }
}

/// The declarations of one version of the file: those that `parse_syntax`
/// reads off its text.
pub open spec fn side_items(file: GitFile, side: Side) -> Seq<AnnotatedView> {
    extracted(
        use_syntax(side_text(file, side)),
        side_map(file.chunks@, side),
        split_lines(side_text(file, side)),
    )
}

/// Parse one version of the file and read its top-level `use` declarations,
/// leaving out those it cannot handle, each with the lines it takes.
pub fn extract_use_items(file: &GitFile, side: Side) -> (r: Result<Vec<AnnotatedUseItem>, SyntaxError>)
    requires
        side_text(*file, side).len() <= PARSE_LIMIT,
    ensures
        r is Ok <==> parses(side_text(*file, side)),
        match r {
            Ok(items) => annotated_views(items@) == side_items(*file, side) && forall|i: int|
                0 <= i < items@.len() ==> (#[trigger] items@[i]).use_item.configs.wf(),
            Err(e) => e == SyntaxError {
                side,
                line: parse_error(side_text(*file, side)).0,
                column: parse_error(side_text(*file, side)).1,
            },
        },
{
    let derived = file.build_derived_file(side);
    let lines = split_into_lines(derived.content());
    proof {
        assert(seg_views(lines@) =~= lines@.map_values(|l: Vec<u8>| l@));
    }
    let raws = match read_use_items(derived.content()) {
        Ok(raws) => raws,
        Err((line, column)) => {
            return Err(SyntaxError { side, line, column });
        },
    };
    let ghost rv = raw_opt_views(raws@);
    let mut out: Vec<AnnotatedUseItem> = Vec::new();
    let mut i: usize = 0;
    proof {
        assert(rv.take(0) =~= Seq::<Option<RawView>>::empty());
        assert(annotated_views(out@) =~= Seq::<AnnotatedView>::empty());
    }
    while i < raws.len()
        invariant
            0 <= i <= raws@.len(),
            rv == raw_opt_views(raws@),
            rv == use_syntax(side_text(*file, side)),
            derived.line_mappings@ == side_map(file.chunks@, side),
            seg_views(lines@) == split_lines(side_text(*file, side)),
            annotated_views(out@) == extracted(rv.take(i as int), side_map(file.chunks@, side), split_lines(side_text(*file, side))),
            forall|j: int| 0 <= j < out@.len() ==> (#[trigger] out@[j]).use_item.configs.wf(),
        decreases raws@.len() - i,
    {
        proof {
            assert(rv.take(i + 1).drop_last() =~= rv.take(i as int));
            assert(rv.take(i + 1).last() == rv[i as int]);
        }
        let ghost before = annotated_views(out@);
        if let Some(raw) = &raws[i] {
            proof {
                assert(rv[i as int] == Some(raw@));
            }
            match UseItem::from_syn_use_item(raw) {
                Ok(use_item) => {
                    let touched_original_lines = touched_lines(
                        &derived.line_mappings,
                        &lines,
                        use_item.start_line,
                        use_item.end_line,
                    );
                    out.push(AnnotatedUseItem { use_item, touched_original_lines });
                    proof {
                        assert(annotated_views(out@) =~= before.push(annotated_views(out@).last()));
                    }
                },
                Err(_) => {
                    proof {
                        assert(annotated_views(out@) =~= before + Seq::<AnnotatedView>::empty());
                    }
                },
            }
        } else {
            proof {
                assert(annotated_views(out@) =~= before + Seq::<AnnotatedView>::empty());
            }
        }
        i = i + 1;
    }
    proof {
        assert(rv.take(i as int) =~= rv);
    }
    Ok(out)
}

} // verus!
