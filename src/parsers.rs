//! Small parsers for the pieces of a `use` declaration: identifiers, raw
//! identifiers, `_`, `as` aliases and leading whitespace.
use vstd::prelude::*;
use vstd::string::StrSliceExecFns;

verus! {

/// The character has the Unicode `XID_Start` property.
pub uninterp spec fn xid_start(c: char) -> bool;

/// The character has the Unicode `XID_Continue` property.
pub uninterp spec fn xid_continue(c: char) -> bool;

/// Relies on `unicode_xid::UnicodeXID::is_xid_start`: whether the character
/// has the `XID_Start` property.
#[verifier::external_body]
fn is_xid_start(c: char) -> (r: bool)
    ensures
        r == xid_start(c),
{
    unicode_xid::UnicodeXID::is_xid_start(c)
}

/// Relies on `unicode_xid::UnicodeXID::is_xid_continue`: whether the
/// character has the `XID_Continue` property.
#[verifier::external_body]
fn is_xid_continue(c: char) -> (r: bool)
    ensures
        r == xid_continue(c),
{
    unicode_xid::UnicodeXID::is_xid_continue(c)
}

/// Why a parser did not match.
#[derive(Debug, Clone, Copy, PartialEq, Eq, Structural)]
pub enum ParseErrorKind {
    /// No identifier starts here.
    Alpha,
    /// `_` stands alone where an identifier was expected.
    AlphaNumeric,
    /// The expected text is not here.
    Tag,
}

/// Where the run of `XID_Continue` characters that starts at `i` ends.
pub open spec fn ident_end(s: Seq<char>, i: int) -> int
    decreases s.len() - i,
{
    if i >= s.len() || i < 0 {
        s.len() as int
    } else if !xid_continue(s[i]) {
        i
    } else {
        ident_end(s, i + 1)
    }
}

/// The text starts with an identifier: an `XID_Start` character and then
/// `XID_Continue` characters, or `_` and at least one `XID_Continue` character.
pub open spec fn starts_with_ident(s: Seq<char>) -> bool {
    let k = ident_end(s, 0);
    k > 0 && (xid_start(s[0]) || (s[0] == '_' && k > 1))
}

proof fn lemma_ident_end_bounds(s: Seq<char>, i: int)
    requires
        0 <= i <= s.len(),
    ensures
        i <= ident_end(s, i) <= s.len(),
    decreases s.len() - i,
{
    if i < s.len() && xid_continue(s[i]) {
        lemma_ident_end_bounds(s, i + 1);
    }
}

/// Parse a plain identifier; returns the rest of the text and the identifier.
pub fn parse_normal_identifier(input: &str) -> (r: Result<(&str, &str), ParseErrorKind>)
    ensures
        match r {
            Ok((tail, ident)) => starts_with_ident(input@) && ident@ == input@.take(ident_end(input@, 0))
                && tail@ == input@.skip(ident_end(input@, 0)),
            Err(_) => !starts_with_ident(input@),
        },
{
    let n = input.unicode_len();
    let mut i: usize = 0;
    proof {
        lemma_ident_end_bounds(input@, 0);
    }
    while i < n && is_xid_continue(input.get_char(i))
        invariant
            0 <= i <= n,
            n == input@.len(),
            ident_end(input@, i as int) == ident_end(input@, 0),
        decreases n - i,
    {
        i = i + 1;
    }
    proof {
        assert(ident_end(input@, i as int) == i);
    }
    if i == 0 {
        return Err(ParseErrorKind::Alpha);
    }
    let c = input.get_char(0);
    let ident = input.substring_char(0, i);
    let tail = input.substring_char(i, n);
    proof {
        assert(ident@ =~= input@.take(i as int));
        assert(tail@ =~= input@.skip(i as int));
    }
    if is_xid_start(c) {
        Ok((tail, ident))
    } else if c == '_' {
        if i == 1 {
            Err(ParseErrorKind::AlphaNumeric)
        } else {
            Ok((tail, ident))
        }
    } else {
        Err(ParseErrorKind::Alpha)
    }
}

/// A single identifier of a `use` declaration, as written (with its `r#`
/// prefix, if it is a raw identifier).
#[derive(Debug, Clone)]
pub struct Identifier {
    pub raw: String,
}

/// The text starts with `r#`.
pub open spec fn starts_raw(s: Seq<char>) -> bool {
    s.len() >= 2 && s[0] == 'r' && s[1] == '#'
}

fn has_raw_prefix(s: &str) -> (r: bool)
    ensures
        r == starts_raw(s@),
{
    let n = s.unicode_len();
    n >= 2 && s.get_char(0) == 'r' && s.get_char(1) == '#'
}

impl Identifier {
    /// The identifier as written.
    pub fn get_raw(&self) -> (r: &str)
        ensures
            r@ == self.raw@,
    {
        self.raw.as_str()
    }

    /// The identifier without its `r#` prefix.
    pub fn get(&self) -> (r: &str)
        ensures
            r@ == (if starts_raw(self.raw@) {
                self.raw@.skip(2)
            } else {
                self.raw@
            }),
    {
        let s = self.raw.as_str();
        if has_raw_prefix(s) {
            let n = s.unicode_len();
            let r = s.substring_char(2, n);
            proof {
                assert(r@ =~= self.raw@.skip(2));
            }
            r
        } else {
            s
        }
    }
}

/// The length of the identifier at the start of the text, `r#` included, if
/// one is there: after `r#` an identifier must follow.
pub open spec fn identifier_len(s: Seq<char>) -> Option<int> {
    if starts_raw(s) {
        if starts_with_ident(s.skip(2)) {
            Some(2 + ident_end(s.skip(2), 0))
        } else {
            None
        }
    } else if starts_with_ident(s) {
        Some(ident_end(s, 0))
    } else {
        None
    }
}

/// Parse an identifier, optionally preceded by `r#`; returns the rest of
/// the text and the identifier as written.
pub fn parse_identifier(input: &str) -> (r: Result<(&str, Identifier), ParseErrorKind>)
    ensures
        match r {
            Ok((tail, ident)) => identifier_len(input@) is Some && ident.raw@ == input@.take(
                identifier_len(input@)->Some_0,
            ) && tail@ == input@.skip(identifier_len(input@)->Some_0),
            Err(_) => identifier_len(input@) is None,
        },
{
    let n = input.unicode_len();
    let start: usize = if has_raw_prefix(input) {
        2
    } else {
        0
    };
    let rest = input.substring_char(start, n);
    match parse_normal_identifier(rest) {
        Ok((tail, _)) => {
            proof {
                assert(rest@ =~= input@.skip(start as int));
                lemma_ident_end_bounds(rest@, 0);
            }
            let k = tail.unicode_len();
            let len = n - k;
            let ident = input.substring_char(0, len);
            let tail2 = input.substring_char(len, n);
            proof {
                assert(ident@ =~= input@.take(len as int));
                assert(tail2@ =~= input@.skip(len as int));
                if start == 0 {
                    assert(rest@ =~= input@);
                }
            }
            Ok((tail2, Identifier { raw: ident.to_owned() }))
        },
        Err(e) => {
            proof {
                assert(rest@ =~= input@.skip(start as int));
                if start == 0 {
                    assert(rest@ =~= input@);
                }
            }
            Err(e)
        },
    }
}

/// An identifier or `_`.
#[derive(Debug, Clone)]
pub enum IdentifierLike {
    Identifier(Identifier),
    Underscore,
}

/// Parse an identifier or, failing that, `_`.
pub fn parse_identifier_like(input: &str) -> (r: Result<(&str, IdentifierLike), ParseErrorKind>)
    ensures
        match r {
            Ok((tail, IdentifierLike::Identifier(ident))) => identifier_len(input@) is Some && ident.raw@
                == input@.take(identifier_len(input@)->Some_0) && tail@ == input@.skip(identifier_len(input@)->Some_0),
            Ok((tail, IdentifierLike::Underscore)) => identifier_len(input@) is None && input@.len() > 0
                && input@[0] == '_' && tail@ == input@.skip(1),
            Err(_) => identifier_len(input@) is None && !(input@.len() > 0 && input@[0] == '_'),
        },
{
    match parse_identifier(input) {
        Ok((tail, ident)) => Ok((tail, IdentifierLike::Identifier(ident))),
        Err(_) => {
            let n = input.unicode_len();
            if n > 0 && input.get_char(0) == '_' {
                let tail = input.substring_char(1, n);
                proof {
                    assert(tail@ =~= input@.skip(1));
                }
                Ok((tail, IdentifierLike::Underscore))
            } else {
                Err(ParseErrorKind::Tag)
            }
        },
    }
}

/// Parse `as ` and then an identifier, the alias.
pub fn parse_as_alias(input: &str) -> (r: Result<(&str, Identifier), ParseErrorKind>)
    ensures
        match r {
            Ok((tail, ident)) => input@.len() >= 3 && input@.take(3) == seq!['a', 's', ' ']
                && identifier_len(input@.skip(3)) is Some && ident.raw@ == input@.skip(3).take(
                identifier_len(input@.skip(3))->Some_0,
            ) && tail@ == input@.skip(3).skip(identifier_len(input@.skip(3))->Some_0),
            Err(_) => !(input@.len() >= 3 && input@.take(3) == seq!['a', 's', ' '])
                || identifier_len(input@.skip(3)) is None,
        },
{
    let n = input.unicode_len();
    if n < 3 || input.get_char(0) != 'a' || input.get_char(1) != 's' || input.get_char(2) != ' ' {
        proof {
            if input@.len() >= 3 && input@.take(3) == seq!['a', 's', ' '] {
                assert(input@.take(3)[0] == 'a');
                assert(input@.take(3)[1] == 's');
                assert(input@.take(3)[2] == ' ');
            }
        }
        return Err(ParseErrorKind::Tag);
    }
    proof {
        assert(input@.take(3) =~= seq!['a', 's', ' ']);
    }
    let rest = input.substring_char(3, n);
    proof {
        assert(rest@ =~= input@.skip(3));
    }
    parse_identifier(rest)
}

/// Unicode whitespace, as `char::is_whitespace` has it.
pub open spec fn is_whitespace(c: char) -> bool {
    ('\u{9}' <= c <= '\u{d}') || c == ' ' || c == '\u{85}' || c == '\u{a0}' || c == '\u{1680}'
        || ('\u{2000}' <= c <= '\u{200a}') || c == '\u{2028}' || c == '\u{2029}' || c == '\u{202f}'
        || c == '\u{205f}' || c == '\u{3000}'
}

fn is_whitespace_exec(c: char) -> (r: bool)
    ensures
        r == is_whitespace(c),
{
    ('\u{9}' <= c && c <= '\u{d}') || c == ' ' || c == '\u{85}' || c == '\u{a0}' || c == '\u{1680}'
        || ('\u{2000}' <= c && c <= '\u{200a}') || c == '\u{2028}' || c == '\u{2029}' || c == '\u{202f}'
        || c == '\u{205f}' || c == '\u{3000}'
}

/// Split off the whitespace that starts the text: returns it and the rest.
pub fn snip_whitespace(input: &str) -> (r: (&str, &str))
    ensures
        r.0@ + r.1@ == input@,
        forall|i: int| 0 <= i < r.0@.len() ==> is_whitespace(#[trigger] r.0@[i]),
        r.1@.len() > 0 ==> !is_whitespace(r.1@[0]),
{
    let n = input.unicode_len();
    let mut i: usize = 0;
    while i < n && is_whitespace_exec(input.get_char(i))
        invariant
            0 <= i <= n,
            n == input@.len(),
            forall|j: int| 0 <= j < i ==> is_whitespace(#[trigger] input@[j]),
        decreases n - i,
    {
        i = i + 1;
    }
    let head = input.substring_char(0, i);
    let tail = input.substring_char(i, n);
    proof {
        assert(head@ + tail@ =~= input@);
    }
    (head, tail)
}

/// The text has `t` at position `pos`.
pub open spec fn has_tag_at(s: Seq<char>, pos: int, t: Seq<char>) -> bool {
    0 <= pos && pos + t.len() <= s.len() && s.subrange(pos, pos + t.len()) == t
}

fn tag_at(s: &str, n: usize, pos: usize, t: &str) -> (r: bool)
    requires
        n == s@.len(),
        pos <= n,
    ensures
        r == has_tag_at(s@, pos as int, t@),
{
    let m = t.unicode_len();
    if m > n - pos {
        return false;
    }
    let mut i: usize = 0;
    while i < m
        invariant
            0 <= i <= m,
            m == t@.len(),
            n == s@.len(),
            pos + m <= n,
            forall|j: int| 0 <= j < i ==> s@[pos + j] == t@[j],
        decreases m - i,
    {
        if s.get_char(pos + i) != t.get_char(i) {
            proof {
                if has_tag_at(s@, pos as int, t@) {
                    assert(s@.subrange(pos as int, pos + m)[i as int] == t@[i as int]);
                }
            }
            return false;
        }
        i = i + 1;
    }
    proof {
        assert(s@.subrange(pos as int, pos + m) =~= t@);
    }
    true
}

/// The identifiers after `::` separators from position `pos` on, and where
/// they end; `None` where a `::` is not followed by an identifier.
pub open spec fn path_tail(s: Seq<char>, pos: int) -> Option<(Seq<Seq<char>>, int)>
    decreases s.len() - pos,
{
    if pos < 0 || pos > s.len() {
        None
    } else if has_tag_at(s, pos, seq![':', ':']) {
        match identifier_len(s.skip(pos + 2)) {
            Some(k) => if k >= 0 && pos + 2 + k <= s.len() {
                match path_tail(s, pos + 2 + k) {
                    Some((rest, end)) => Some((seq![s.subrange(pos + 2, pos + 2 + k)] + rest, end)),
                    None => None,
                }
            } else {
                None
            },
            None => None,
        }
    } else {
        Some((seq![], pos))
    }
}

/// A path such as `a::b` or `::a::b`.
#[derive(Debug, Clone)]
pub struct SimplePath {
    pub rooted: bool,
    pub root: Identifier,
    pub children: Vec<Identifier>,
}

pub open spec fn ident_views(v: Seq<Identifier>) -> Seq<Seq<char>> {
    v.map_values(|i: Identifier| i.raw@)
}

/// What `parse_simple_path` reads: whether the path is rooted, its root,
/// the rest of its identifiers, and where it ends.
pub open spec fn simple_path(s: Seq<char>) -> Option<(bool, Seq<char>, Seq<Seq<char>>, int)> {
    let rooted = has_tag_at(s, 0, seq![':', ':']);
    let start: int = if rooted {
        2
    } else {
        0
    };
    match identifier_len(s.skip(start)) {
        Some(k) => match path_tail(s, start + k) {
            Some((rest, end)) => Some((rooted, s.subrange(start, start + k), rest, end)),
            None => None,
        },
        None => None,
    }
}

proof fn lemma_identifier_len_bounds(s: Seq<char>)
    ensures
        identifier_len(s) is Some ==> 0 < identifier_len(s)->Some_0 <= s.len(),
{
    lemma_ident_end_bounds(s, 0);
    if starts_raw(s) {
        lemma_ident_end_bounds(s.skip(2), 0);
    }
}

/// Parse a path such as `a::b` or `::a::b`. Once a `::` has been read, an
/// identifier must follow.
pub fn parse_simple_path(input: &str) -> (r: Result<(&str, SimplePath), ParseErrorKind>)
    ensures
        match r {
            Ok((tail, p)) => simple_path(input@) == Some(
                (p.rooted, p.root.raw@, ident_views(p.children@), input@.len() - tail@.len()),
            ) && tail@.len() <= input@.len() && tail@ == input@.skip(input@.len() - tail@.len()),
            Err(_) => simple_path(input@) is None,
        },
{
    let n = input.unicode_len();
    let rooted = tag_at(input, n, 0, "::");
    proof {
        reveal_strlit("::");
        assert("::"@ =~= seq![':', ':']);
    }
    let start: usize = if rooted {
        2
    } else {
        0
    };
    let rest = input.substring_char(start, n);
    proof {
        assert(rest@ =~= input@.skip(start as int));
    }
    let (tail, root) = match parse_identifier(rest) {
        Ok(x) => x,
        Err(e) => {
            return Err(e);
        },
    };
    proof {
        lemma_identifier_len_bounds(rest@);
    }
    let mut pos: usize = n - tail.unicode_len();
    let ghost first = pos as int;
    proof {
        assert(root.raw@ =~= input@.subrange(start as int, first));
    }
    let mut children: Vec<Identifier> = Vec::new();
    proof {
        assert(ident_views(children@) =~= Seq::<Seq<char>>::empty());
    }
    loop
        invariant
            n == input@.len(),
            "::"@ == seq![':', ':'],
            rooted == has_tag_at(input@, 0, seq![':', ':']),
            start == (if rooted { 2usize } else { 0usize }),
            start <= first,
            identifier_len(input@.skip(start as int)) == Some(first - start),
            root.raw@ == input@.subrange(start as int, first),
            first <= pos <= n,
            path_tail(input@, first) == match path_tail(input@, pos as int) {
                Some((more, end)) => Some((ident_views(children@) + more, end)),
                None => None::<(Seq<Seq<char>>, int)>,
            },
        ensures
            path_tail(input@, pos as int) == Some((Seq::<Seq<char>>::empty(), pos as int)),
        decreases n - pos,
    {
        if !tag_at(input, n, pos, "::") {
            proof {
                assert(ident_views(children@) + Seq::<Seq<char>>::empty() =~= ident_views(children@));
            }
            break;
        }
        let after = input.substring_char(pos + 2, n);
        proof {
            assert(after@ =~= input@.skip(pos + 2));
        }
        match parse_identifier(after) {
            Ok((t, ident)) => {
                proof {
                    lemma_identifier_len_bounds(after@);
                }
                let k = after.unicode_len() - t.unicode_len();
                let ghost before = ident_views(children@);
                proof {
                    assert(ident.raw@ =~= input@.subrange(pos + 2, pos + 2 + k));
                }
                children.push(ident);
                proof {
                    assert(ident_views(children@) =~= before.push(input@.subrange(pos + 2, pos + 2 + k)));
                    match path_tail(input@, pos + 2 + k) {
                        Some((more, end)) => {
                            assert(ident_views(children@) + more =~= before + (seq![input@.subrange(pos + 2, pos + 2 + k)] + more));
                        },
                        None => {},
                    }
                }
                pos = pos + 2 + k;
            },
            Err(e) => {
                return Err(e);
            },
        }
    }
    let tail = input.substring_char(pos, n);
    proof {
        assert(tail@ =~= input@.skip(pos as int));
    }
    Ok((tail, SimplePath { rooted, root, children }))
}

/// A `pub` visibility marker.
#[derive(Debug, Clone)]
pub enum Visibility {
    Public,
    Crate,
    This,
    Super,
    In(SimplePath),
}

/// 0 for `pub`, 1 `pub(crate)`, 2 `pub(self)`, 3 `pub(super)`, 4 `pub(in PATH)`.
pub open spec fn vis_kind(v: Visibility) -> int {
    match v {
        Visibility::Public => 0,
        Visibility::Crate => 1,
        Visibility::This => 2,
        Visibility::Super => 3,
        Visibility::In(_) => 4,
    }
}

/// What `parse_pub_visibility` reads: the kind of visibility and where it ends.
pub open spec fn pub_visibility(s: Seq<char>) -> Option<(int, int)> {
    if !has_tag_at(s, 0, seq!['p', 'u', 'b']) {
        None
    } else if !has_tag_at(s, 3, seq!['(']) {
        Some((0, 3))
    } else if has_tag_at(s, 4, seq!['c', 'r', 'a', 't', 'e']) {
        if has_tag_at(s, 9, seq![')']) {
            Some((1, 10))
        } else {
            None
        }
    } else if has_tag_at(s, 4, seq!['s', 'u', 'p', 'e', 'r']) {
        if has_tag_at(s, 9, seq![')']) {
            Some((3, 10))
        } else {
            None
        }
    } else if has_tag_at(s, 4, seq!['s', 'e', 'l', 'f']) {
        if has_tag_at(s, 8, seq![')']) {
            Some((2, 9))
        } else {
            None
        }
    } else if has_tag_at(s, 4, seq!['i', 'n', ' ']) {
        match simple_path(s.skip(7)) {
            Some((_, _, _, e)) => if has_tag_at(s, 7 + e, seq![')']) {
                Some((4, 8 + e))
            } else {
                None
            },
            None => None,
        }
    } else {
        None
    }
}

/// Parse a `pub` visibility marker: `pub`, `pub(crate)`, `pub(self)`,
/// `pub(super)` or `pub(in PATH)`. Once `(` follows `pub`, what is inside
/// must be one of these.
pub fn parse_pub_visibility(input: &str) -> (r: Result<(&str, Visibility), ParseErrorKind>)
    ensures
        match r {
            Ok((tail, v)) => pub_visibility(input@) == Some((vis_kind(v), input@.len() - tail@.len()))
                && tail@.len() <= input@.len() && tail@ == input@.skip(input@.len() - tail@.len()) && (v is In ==> simple_path(
                input@.skip(7),
            ) is Some && v->In_0.root.raw@ == simple_path(input@.skip(7))->Some_0.1),
            Err(_) => pub_visibility(input@) is None,
        },
{
    proof {
        reveal_strlit("pub");
        reveal_strlit("(");
        reveal_strlit(")");
        reveal_strlit("crate");
        reveal_strlit("super");
        reveal_strlit("self");
        reveal_strlit("in ");
        assert("pub"@ =~= seq!['p', 'u', 'b']);
        assert("("@ =~= seq!['(']);
        assert(")"@ =~= seq![')']);
        assert("crate"@ =~= seq!['c', 'r', 'a', 't', 'e']);
        assert("super"@ =~= seq!['s', 'u', 'p', 'e', 'r']);
        assert("self"@ =~= seq!['s', 'e', 'l', 'f']);
        assert("in "@ =~= seq!['i', 'n', ' ']);
    }
    let n = input.unicode_len();
    if !tag_at(input, n, 0, "pub") {
        return Err(ParseErrorKind::Tag);
    }
    if !tag_at(input, n, 3, "(") {
        let tail = input.substring_char(3, n);
        proof {
            assert(tail@ =~= input@.skip(3));
        }
        return Ok((tail, Visibility::Public));
    }
    let (v, end): (Visibility, usize) = if tag_at(input, n, 4, "crate") {
        if !tag_at(input, n, 9, ")") {
            return Err(ParseErrorKind::Tag);
        }
        (Visibility::Crate, 10)
    } else if tag_at(input, n, 4, "super") {
        if !tag_at(input, n, 9, ")") {
            return Err(ParseErrorKind::Tag);
        }
        (Visibility::Super, 10)
    } else if tag_at(input, n, 4, "self") {
        if !tag_at(input, n, 8, ")") {
            return Err(ParseErrorKind::Tag);
        }
        (Visibility::This, 9)
    } else if tag_at(input, n, 4, "in ") {
        let rest = input.substring_char(7, n);
        proof {
            assert(rest@ =~= input@.skip(7));
        }
        match parse_simple_path(rest) {
            Ok((tail, path)) => {
                let e = rest.unicode_len() - tail.unicode_len();
                if !tag_at(input, n, 7 + e, ")") {
                    return Err(ParseErrorKind::Tag);
                }
                (Visibility::In(path), 8 + e)
            },
            Err(err) => {
                return Err(err);
            },
        }
    } else {
        return Err(ParseErrorKind::Tag);
    };
    let tail = input.substring_char(end, n);
    proof {
        assert(tail@ =~= input@.skip(end as int));
    }
    Ok((tail, v))
}

/// The text opens with `pub(` but no visibility that this parser takes.
pub open spec fn bad_visibility(s: Seq<char>) -> bool {
    has_tag_at(s, 0, seq!['p', 'u', 'b']) && has_tag_at(s, 3, seq!['(']) && pub_visibility(s) is None
}

/// What `parse_use_prefix` reads: the kind of visibility, if there is one,
/// and where `use` ends.
pub open spec fn use_prefix(s: Seq<char>) -> Option<(Option<int>, int)> {
    if bad_visibility(s) {
        None
    } else {
        match pub_visibility(s) {
            Some((k, e)) => if has_tag_at(s, e, seq![' ']) {
                if has_tag_at(s, e + 1, seq!['u', 's', 'e']) {
                    Some((Some(k), e + 4))
                } else {
                    None
                }
            } else if has_tag_at(s, 0, seq!['u', 's', 'e']) {
                Some((None, 3))
            } else {
                None
            },
            None => if has_tag_at(s, 0, seq!['u', 's', 'e']) {
                Some((None, 3))
            } else {
                None
            },
        }
    }
}

/// Parse `use`, optionally preceded by a visibility and a space; returns the
/// visibility, if any.
pub fn parse_use_prefix(input: &str) -> (r: Result<(&str, Option<Visibility>), ParseErrorKind>)
    ensures
        match r {
            Ok((tail, v)) => use_prefix(input@) == Some(
                (
                    match v {
                        Some(v) => Some(vis_kind(v)),
                        None => None,
                    },
                    input@.len() - tail@.len(),
                ),
            ) && tail@ == input@.skip(input@.len() - tail@.len()),
            Err(_) => use_prefix(input@) is None,
        },
{
    proof {
        reveal_strlit("pub");
        reveal_strlit("(");
        reveal_strlit(" ");
        reveal_strlit("use");
        assert("pub"@ =~= seq!['p', 'u', 'b']);
        assert("("@ =~= seq!['(']);
        assert(" "@ =~= seq![' ']);
        assert("use"@ =~= seq!['u', 's', 'e']);
    }
    let n = input.unicode_len();
    let fatal = tag_at(input, n, 0, "pub") && tag_at(input, n, 3, "(");
    match parse_pub_visibility(input) {
        Ok((tail, v)) => {
            let e = n - tail.unicode_len();
            if tag_at(input, n, e, " ") {
                if tag_at(input, n, e + 1, "use") {
                    let rest = input.substring_char(e + 4, n);
                    proof {
                        assert(rest@ =~= input@.skip(e + 4));
                    }
                    return Ok((rest, Some(v)));
                }
                return Err(ParseErrorKind::Tag);
            }
        },
        Err(err) => {
            if fatal {
                return Err(err);
            }
        },
    }
    if tag_at(input, n, 0, "use") {
        let rest = input.substring_char(3, n);
        proof {
            assert(rest@ =~= input@.skip(3));
        }
        Ok((rest, None))
    } else {
        Err(ParseErrorKind::Tag)
    }
}

} // verus!
