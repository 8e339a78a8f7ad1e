//! Formatting the rendered declarations in process: each blank-line
//! separated group is parsed and printed back on its own, so that the
//! groups survive a printer that drops blank lines between items.
use vstd::prelude::*;

use crate::bridge::{format_group, formats, pretty, PARSE_LIMIT};
use crate::bytes::{push_bytes, trim_end, trimmed_end};

verus! {

/// The pieces of `s` between occurrences of a blank line (`\n\n`), read
/// from the left, with `cur` already read into the first piece.
pub open spec fn split_from(s: Seq<u8>, cur: Seq<u8>) -> Seq<Seq<u8>>
    decreases s.len(),
{
    if s.len() == 0 {
        seq![cur]
    } else if s.len() >= 2 && s[0] == 10 && s[1] == 10 {
        seq![cur] + split_from(s.skip(2), seq![])
    } else {
        split_from(s.skip(1), cur.push(s[0]))
    }
}

/// The groups of `s`: the pieces between blank lines, as `str::split("\n\n")` gives them.
pub open spec fn groups_of(s: Seq<u8>) -> Seq<Seq<u8>> {
    split_from(s, seq![])
}

pub open spec fn byte_views(v: Seq<Vec<u8>>) -> Seq<Seq<u8>> {
    v.map_values(|x: Vec<u8>| x@)
}

/// Split text into its blank-line separated groups.
pub fn split_groups(text: &[u8]) -> (r: Vec<Vec<u8>>)
    ensures
        byte_views(r@) == groups_of(text@),
{
    let mut done: Vec<Vec<u8>> = Vec::new();
    let mut cur: Vec<u8> = Vec::new();
    let mut i: usize = 0;
    proof {
        assert(text@.skip(0) =~= text@);
        assert(byte_views(done@) + split_from(text@.skip(0), cur@) =~= groups_of(text@));
    }
    while i < text.len()
        invariant
            0 <= i <= text@.len(),
            byte_views(done@) + split_from(text@.skip(i as int), cur@) == groups_of(text@),
        decreases text.len() - i,
    {
        let ghost rest = text@.skip(i as int);
        if i + 1 < text.len() && text[i] == 10 && text[i + 1] == 10 {
            let ghost before = byte_views(done@);
            let ghost c = cur@;
            done.push(cur);
            cur = Vec::new();
            proof {
                assert(rest.skip(2) =~= text@.skip(i + 2));
                assert(byte_views(done@) =~= before.push(c));
                assert(cur@ =~= Seq::<u8>::empty());
                assert(byte_views(done@) + split_from(text@.skip(i + 2), cur@) =~= before + (seq![c]
                    + split_from(rest.skip(2), seq![])));
            }
            i = i + 2;
        } else {
            proof {
                assert(rest.skip(1) =~= text@.skip(i + 1));
            }
            cur.push(text[i]);
            i = i + 1;
        }
    }
    let ghost before = byte_views(done@);
    proof {
        assert(text@.skip(i as int) =~= Seq::<u8>::empty());
    }
    let ghost c = cur@;
    done.push(cur);
    proof {
        assert(byte_views(done@) =~= before.push(c));
    }
    done
}

/// The formatted groups put back together: each without its trailing
/// whitespace and followed by one blank line.
pub open spec fn assembled(gs: Seq<Seq<u8>>) -> Seq<u8>
    decreases gs.len(),
{
    if gs.len() == 0 {
        seq![]
    } else {
        assembled(gs.drop_last()) + trim_end(gs.last()) + seq![10u8, 10]
    }
}

/// Put formatted groups back together.
pub fn assemble_groups(groups: &Vec<Vec<u8>>) -> (r: Vec<u8>)
    ensures
        r@ == assembled(byte_views(groups@)),
{
    let ghost gs = byte_views(groups@);
    let mut r: Vec<u8> = Vec::new();
    let mut i: usize = 0;
    proof {
        assert(gs.take(0) =~= Seq::<Seq<u8>>::empty());
    }
    while i < groups.len()
        invariant
            0 <= i <= gs.len(),
            gs == byte_views(groups@),
            r@ == assembled(gs.take(i as int)),
        decreases gs.len() - i,
    {
        proof {
            assert(gs.take(i + 1).drop_last() =~= gs.take(i as int));
        }
        let t = trimmed_end(groups[i].as_slice());
        push_bytes(&mut r, t.as_slice());
        r.push(10u8);
        r.push(10u8);
        proof {
            assert(r@ =~= assembled(gs.take(i + 1)));
        }
        i = i + 1;
    }
    proof {
        assert(gs.take(i as int) =~= gs);
    }
    r
}

/// A group of the rendered declarations, at this index, is not text that
/// the printer takes.
#[derive(Debug, Clone, Copy, PartialEq, Eq, Structural)]
pub struct FormatError {
    pub group: usize,
}

/// Every group fits the parser and is text that the printer takes.
pub open spec fn all_format(gs: Seq<Seq<u8>>) -> bool {
    forall|i: int| 0 <= i < gs.len() ==> (#[trigger] gs[i]).len() <= PARSE_LIMIT && formats(gs[i])
}

/// Each group as the printer writes it back.
pub open spec fn pretty_groups(gs: Seq<Seq<u8>>) -> Seq<Seq<u8>> {
    gs.map_values(|g: Seq<u8>| pretty(g))
}

/// The formatted text of rendered declarations: none for no declarations,
/// else each group formatted, trimmed and followed by a blank line.
pub open spec fn prettified(text: Seq<u8>) -> Seq<u8> {
    if text.len() == 0 {
        seq![]
    } else {
        assembled(pretty_groups(groups_of(text)))
    }
}

/// The rendered declarations can be formatted.
pub open spec fn prettifies(text: Seq<u8>) -> bool {
    text.len() == 0 || all_format(groups_of(text))
}

/// Format rendered declarations in process, group by group. No declarations
/// give no text.
pub fn prettify_with_prettyplease(formatted_use_items: &[u8]) -> (r: Result<Vec<u8>, FormatError>)
    ensures
        r is Ok <==> prettifies(formatted_use_items@),
        r is Ok ==> r->Ok_0@ == prettified(formatted_use_items@),
        r is Err ==> r->Err_0.group < groups_of(formatted_use_items@).len() && !(groups_of(
            formatted_use_items@,
        )[r->Err_0.group as int].len() <= PARSE_LIMIT && formats(
            groups_of(formatted_use_items@)[r->Err_0.group as int],
        )),
{
    if formatted_use_items.len() == 0 {
        let r: Vec<u8> = Vec::new();
        proof {
            assert(r@ =~= Seq::<u8>::empty());
        }
        return Ok(r);
    }
    let groups = split_groups(formatted_use_items);
    let ghost gs = groups_of(formatted_use_items@);
    let mut outs: Vec<Vec<u8>> = Vec::new();
    let mut i: usize = 0;
    while i < groups.len()
        invariant
            0 <= i <= groups@.len(),
            formatted_use_items@.len() > 0,
            byte_views(groups@) == gs,
            gs == groups_of(formatted_use_items@),
            outs@.len() == i,
            forall|k: int| 0 <= k < i ==> (#[trigger] gs[k]).len() <= PARSE_LIMIT && formats(gs[k]) && outs@[k]@ == pretty(gs[k]),
        decreases groups@.len() - i,
    {
        proof {
            assert(groups@[i as int]@ == gs[i as int]);
        }
        if groups[i].len() > PARSE_LIMIT {
            return Err(FormatError { group: i });
        }
        match format_group(groups[i].as_slice()) {
            Some(out) => {
                outs.push(out);
            },
            None => {
                return Err(FormatError { group: i });
            },
        }
        i = i + 1;
    }
    let r = assemble_groups(&outs);
    proof {
        assert(byte_views(outs@) =~= pretty_groups(gs));
    }
    Ok(r)
}

} // verus!
