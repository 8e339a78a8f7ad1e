//! The whole merge: read the conflicted file, take the imports of both of
//! its versions, normalize them into one canonical set, render it, and write
//! the file back with that set in place of the old imports.
use vstd::prelude::*;
use vstd::string::StringSliceAdditionalSpecFns;

use crate::extract::{annotated_views, extract_use_items, side_items, side_text, AnnotatedUseItem, SyntaxError};
use crate::bridge::{parse_error, parses, PARSE_LIMIT};
use crate::flattened::{add_paths, canonical, group_flattened_items_normalize_wildcards, item_views, NormalizedUsedItems, NormalizedView};
use crate::gitfile::{kinds, kinds_of, split_lines, well_nested, GitFile, LineNumber, LineSet, Side};
use crate::pretty::{prettified, prettifies, prettify_with_prettyplease, FormatError};
use crate::printable::{entries_have, forest_text, KeyView, PrintableUseItems};
use crate::flattened::LeafView;
use crate::tree::opt_vis_view;
use crate::write_file::{corrected, write_corrected_file};

verus! {

/// Why a file could not be merged.
#[derive(Debug, Clone, Copy, PartialEq, Eq, Structural)]
pub enum FixError {
    /// A conflict marker stands where it may not, or a conflict is not closed.
    ConflictParse(LineNumber),
    /// One version of the file is not Rust that the parser takes.
    SyntaxParse(SyntaxError),
    /// The rendered imports could not be formatted.
    Format(FormatError),
    /// One version of the file is longer than the parser takes.
    TooLarge(Side),
}

/// The normalized entries once the imports of the declarations are added, in order.
pub open spec fn add_items(ns: Seq<NormalizedView>, items: Seq<AnnotatedUseItem>) -> Seq<NormalizedView>
    decreases items.len(),
{
    if items.len() == 0 {
        ns
    } else {
        let u = items.last().use_item;
        add_paths(add_items(ns, items.drop_last()), item_views(u.children@), u.configs@, opt_vis_view(u.visibility), u.docs@)
    }
}

/// The normalized entries of the imports of both versions, left first.
pub open spec fn both_sides(left: Seq<AnnotatedUseItem>, right: Seq<AnnotatedUseItem>) -> Seq<NormalizedView> {
    add_items(add_items(seq![], left), right)
}

/// Add the imports of the declarations, in order.
pub fn add_use_items(flattened_items: &mut NormalizedUsedItems, items: &Vec<AnnotatedUseItem>)
    ensures
        final(flattened_items)@ == add_items(old(flattened_items)@, items@),
{
    let mut i: usize = 0;
    proof {
        assert(items@.take(0) =~= Seq::<AnnotatedUseItem>::empty());
    }
    while i < items.len()
        invariant
            0 <= i <= items@.len(),
            flattened_items@ == add_items(old(flattened_items)@, items@.take(i as int)),
        decreases items@.len() - i,
    {
        proof {
            assert(items@.take(i + 1).drop_last() =~= items@.take(i as int));
        }
        flattened_items.add_tree(&items[i].use_item);
        i = i + 1;
    }
    proof {
        assert(items@.take(i as int) =~= items@);
    }
}

/// `text` is the rendering of the canonical set of the imports of both
/// versions: sorted, grouped declarations that hold each canonical import
/// under its key and nothing else.
pub open spec fn rendered_from(text: Seq<u8>, left: Seq<AnnotatedUseItem>, right: Seq<AnnotatedUseItem>) -> bool {
    exists|f: PrintableUseItems|
        #![trigger forest_text(f.items@)]
        f.wf() && text == forest_text(f.items@) && forall|k: KeyView, p: Seq<Seq<u8>>, l: LeafView|
            #[trigger] f.has(k, p, l) == entries_have(canonical(both_sides(left, right)), k, p, l)
}

/// Render the canonical set of the imports of both versions: the text of
/// sorted, grouped declarations that hold each canonical import under its key
/// and nothing else.
pub fn render_use_items(left: &Vec<AnnotatedUseItem>, right: &Vec<AnnotatedUseItem>) -> (r: Vec<u8>)
    ensures
        rendered_from(r@, left@, right@),
{
    let mut flattened_items = NormalizedUsedItems::new();
    add_use_items(&mut flattened_items, left);
    add_use_items(&mut flattened_items, right);
    let grouped = group_flattened_items_normalize_wildcards(&flattened_items);
    let printable_items = PrintableUseItems::build_from_use_items(&grouped);
    let r = printable_items.to_text();
    proof {
        assert(forest_text(printable_items.items@) == r@);
    }
    r
}

/// Some declaration takes line `n` of the conflicted file.
pub open spec fn touched_in(items: Seq<AnnotatedUseItem>, n: usize) -> bool {
    exists|i: int, j: int|
        0 <= i < items.len() && 0 <= j < items[i].touched_original_lines@.len()
            && (#[trigger] items[i].touched_original_lines@[j]).0 == n
}

/// Add the lines that the declarations take to a set.
pub fn add_touched_lines(set: &mut LineSet, items: &Vec<AnnotatedUseItem>)
    ensures
        forall|n: usize| #[trigger] final(set).has(n) == (old(set).has(n) || (touched_in(items@, n) && n < usize::MAX)),
{
    let mut i: usize = 0;
    while i < items.len()
        invariant
            0 <= i <= items@.len(),
            forall|n: usize| #[trigger] set.has(n) == (old(set).has(n) || (touched_in(items@.take(i as int), n) && n < usize::MAX)),
        decreases items@.len() - i,
    {
        let lines = &items[i].touched_original_lines;
        let ghost before = *set;
        let mut j: usize = 0;
        while j < lines.len()
            invariant
                0 <= j <= lines@.len(),
                i < items@.len(),
                *lines == items@[i as int].touched_original_lines,
                forall|n: usize| #[trigger] set.has(n) == (before.has(n) || (exists|k: int| 0 <= k < j && (#[trigger] lines@[k]).0 == n && n < usize::MAX)),
            decreases lines@.len() - j,
        {
            let line = lines[j];
            if line.0 < usize::MAX {
                set.insert(line);
            }
            proof {
                assert forall|n: usize| #[trigger] set.has(n) == (before.has(n) || (exists|k: int| 0 <= k < j + 1 && (#[trigger] lines@[k]).0 == n && n < usize::MAX)) by {
                    if n == line.0 && n < usize::MAX {
                        assert(lines@[j as int].0 == n);
                    }
                }
            }
            j = j + 1;
        }
        proof {
            let t = items@.take(i + 1);
            assert forall|n: usize| #[trigger] set.has(n) == (old(set).has(n) || (touched_in(t, n) && n < usize::MAX)) by {
                if touched_in(t, n) && n < usize::MAX {
                    let (a, b) = choose|a: int, b: int| 0 <= a < t.len() && 0 <= b < t[a].touched_original_lines@.len() && (#[trigger] t[a].touched_original_lines@[b]).0 == n;
                    if a < i {
                        assert(items@.take(i as int)[a] == t[a]);
                        assert(touched_in(items@.take(i as int), n));
                    } else {
                        assert(lines@[b].0 == n);
                    }
                }
                if touched_in(items@.take(i as int), n) {
                    let (a, b) = choose|a: int, b: int| 0 <= a < items@.take(i as int).len() && 0 <= b < items@.take(i as int)[a].touched_original_lines@.len() && (#[trigger] items@.take(i as int)[a].touched_original_lines@[b]).0 == n;
                    assert(t[a] == items@.take(i as int)[a]);
                    assert(touched_in(t, n));
                }
                if exists|k: int| 0 <= k < j && (#[trigger] lines@[k]).0 == n && n < usize::MAX {
                    let k = choose|k: int| 0 <= k < j && (#[trigger] lines@[k]).0 == n && n < usize::MAX;
                    assert(t[i as int] == items@[i as int]);
                    assert(t[i as int].touched_original_lines@[k].0 == n);
                    assert(touched_in(t, n));
                }
            }
        }
        i = i + 1;
    }
    proof {
        assert(items@.take(i as int) =~= items@);
    }
}

/// A conflicted file read and planned: the file, the lines its imports take,
/// and the canonical imports rendered but not yet formatted.
#[derive(Debug)]
pub struct Prepared {
    pub file: GitFile,
    pub discarded_lines: LineSet,
    pub formatted_use_items: Vec<u8>,
}

/// Both versions of the file fit the parser.
pub open spec fn sides_fit(file: GitFile) -> bool {
    side_text(file, Side::Left).len() <= PARSE_LIMIT && side_text(file, Side::Right).len() <= PARSE_LIMIT
}

/// `p` is the plan of the merge of `file`: both versions parse; the rendered
/// text is the canonical set of the declarations that the parser reads off
/// them; the discarded lines are exactly the lines those declarations take.
pub open spec fn planned(file: GitFile, p: Prepared) -> bool {
    &&& parses(side_text(file, Side::Left))
    &&& parses(side_text(file, Side::Right))
    &&& exists|left: Seq<AnnotatedUseItem>, right: Seq<AnnotatedUseItem>|
        #![trigger rendered_from(p.formatted_use_items@, left, right)]
        {
            &&& annotated_views(left) == side_items(file, Side::Left)
            &&& annotated_views(right) == side_items(file, Side::Right)
            &&& rendered_from(p.formatted_use_items@, left, right)
            &&& forall|n: usize|
                #[trigger] p.discarded_lines.has(n) == ((touched_in(left, n) || touched_in(right, n)) && n
                    < usize::MAX)
        }
}

/// The first version of the file that does not parse makes the error.
pub open spec fn syntax_error_of(file: GitFile, e: SyntaxError) -> bool {
    if !parses(side_text(file, Side::Left)) {
        e == SyntaxError {
            side: Side::Left,
            line: parse_error(side_text(file, Side::Left)).0,
            column: parse_error(side_text(file, Side::Left)).1,
        }
    } else {
        !parses(side_text(file, Side::Right)) && e == SyntaxError {
            side: Side::Right,
            line: parse_error(side_text(file, Side::Right)).0,
            column: parse_error(side_text(file, Side::Right)).1,
        }
    }
}

/// Plan the merge of a parsed conflicted file.
pub fn prepare_file(file: GitFile) -> (r: Result<Prepared, FixError>)
    ensures
        match r {
            Ok(p) => sides_fit(file) && p.file == file && planned(file, p),
            Err(FixError::TooLarge(side)) => side_text(file, side).len() > PARSE_LIMIT,
            Err(FixError::SyntaxParse(e)) => sides_fit(file) && syntax_error_of(file, e),
            Err(_) => false,
        },
{
    let left_len = file.build_derived_file(Side::Left).content.len();
    if left_len > PARSE_LIMIT {
        return Err(FixError::TooLarge(Side::Left));
    }
    let right_len = file.build_derived_file(Side::Right).content.len();
    if right_len > PARSE_LIMIT {
        return Err(FixError::TooLarge(Side::Right));
    }
    let left = match extract_use_items(&file, Side::Left) {
        Ok(items) => items,
        Err(e) => {
            return Err(FixError::SyntaxParse(e));
        },
    };
    let right = match extract_use_items(&file, Side::Right) {
        Ok(items) => items,
        Err(e) => {
            return Err(FixError::SyntaxParse(e));
        },
    };
    let formatted_use_items = render_use_items(&left, &right);
    let mut discarded_lines = LineSet::new();
    add_touched_lines(&mut discarded_lines, &left);
    add_touched_lines(&mut discarded_lines, &right);
    let r = Prepared { file, discarded_lines, formatted_use_items };
    proof {
        assert(rendered_from(r.formatted_use_items@, left@, right@));
        assert forall|n: usize|
            #[trigger] r.discarded_lines.has(n) == ((touched_in(left@, n) || touched_in(right@, n)) && n < usize::MAX) by {}
        assert(planned(r.file, r));
    }
    Ok(r)
}

/// The file that a text parses into.
pub open spec fn parsed_from(input: &str, file: GitFile) -> bool {
    file.wf() && kinds(file.chunks@) == kinds_of(split_lines(input.spec_bytes()))
}

/// Read a conflicted file and plan its merge.
pub fn prepare(input: &str) -> (r: Result<Prepared, FixError>)
    requires
        input.spec_bytes().len() + 1 < usize::MAX,
    ensures
        r matches Err(FixError::ConflictParse(_)) <==> !well_nested(kinds_of(split_lines(input.spec_bytes()))),
        match r {
            Ok(p) => parsed_from(input, p.file) && sides_fit(p.file) && planned(p.file, p),
            Err(FixError::TooLarge(side)) => exists|f: GitFile| #[trigger] parsed_from(input, f) && side_text(f, side).len() > PARSE_LIMIT,
            Err(FixError::SyntaxParse(e)) => exists|f: GitFile| #[trigger] parsed_from(input, f) && sides_fit(f) && syntax_error_of(f, e),
            Err(FixError::ConflictParse(_)) => true,
            Err(FixError::Format(_)) => false,
        },
{
    let file = match GitFile::from_file(input) {
        Ok(f) => f,
        Err(e) => {
            return Err(FixError::ConflictParse(e.line_number));
        },
    };
    let ghost f = file;
    let r = prepare_file(file);
    proof {
        assert(parsed_from(input, f));
    }
    r
}

/// Write the merged file, with the formatted imports in place of the old ones.
pub fn finish(prepared: &Prepared, prettified_use_items: &[u8]) -> (r: Vec<u8>)
    ensures
        r@ == corrected(prepared.file.chunks@, prepared.discarded_lines, prettified_use_items@),
{
    let mut out: Vec<u8> = Vec::new();
    write_corrected_file(&mut out, &prepared.file, &prepared.discarded_lines, prettified_use_items);
    proof {
        assert(Seq::<u8>::empty() + corrected(prepared.file.chunks@, prepared.discarded_lines, prettified_use_items@)
            =~= corrected(prepared.file.chunks@, prepared.discarded_lines, prettified_use_items@));
    }
    out
}

/// Merge the imports of a conflicted file, formatting them in process.
/// Succeeds exactly where the markers nest, both versions fit the parser and
/// parse, and the rendered imports format.
pub fn fix_with_prettyplease(input: &str) -> (r: Result<Vec<u8>, FixError>)
    requires
        input.spec_bytes().len() + 1 < usize::MAX,
    ensures
        r matches Err(FixError::ConflictParse(_)) <==> !well_nested(kinds_of(split_lines(input.spec_bytes()))),
        match r {
            Ok(out) => exists|p: Prepared|
                #[trigger] planned(p.file, p) && parsed_from(input, p.file) && sides_fit(p.file) && prettifies(
                    p.formatted_use_items@,
                ) && out@ == corrected(p.file.chunks@, p.discarded_lines, prettified(p.formatted_use_items@)),
            Err(FixError::Format(e)) => exists|p: Prepared|
                #[trigger] planned(p.file, p) && parsed_from(input, p.file) && sides_fit(p.file) && !prettifies(
                    p.formatted_use_items@,
                ),
            Err(FixError::TooLarge(side)) => exists|f: GitFile| #[trigger] parsed_from(input, f) && side_text(f, side).len() > PARSE_LIMIT,
            Err(FixError::SyntaxParse(e)) => exists|f: GitFile| #[trigger] parsed_from(input, f) && sides_fit(f) && syntax_error_of(f, e),
            Err(FixError::ConflictParse(_)) => true,
        },
{
    let prepared = prepare(input)?;
    let prettified = match prettify_with_prettyplease(prepared.formatted_use_items.as_slice()) {
        Ok(p) => p,
        Err(e) => {
            return Err(FixError::Format(e));
        },
    };
    let out = finish(&prepared, prettified.as_slice());
    proof {
        assert(planned(prepared.file, prepared));
    }
    Ok(out)
}

} // verus!
