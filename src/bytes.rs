//! Byte-string helpers shared by the parsers and printers.
use vstd::prelude::*;

verus! {

pub const NEWLINE: u8 = 10;

/// The byte strings, one after the other.
pub open spec fn flat(ps: Seq<Seq<u8>>) -> Seq<u8>
    decreases ps.len(),
{
    if ps.len() == 0 {
        seq![]
    } else {
        flat(ps.drop_last()) + ps.last()
    }
}

/// Lexicographic order on byte strings, as `[u8]`'s `Ord` orders them.
pub open spec fn seq_lt(a: Seq<u8>, b: Seq<u8>) -> bool
    decreases a.len(),
{
    if b.len() == 0 {
        false
    } else if a.len() == 0 {
        true
    } else if a[0] != b[0] {
        a[0] < b[0]
    } else {
        seq_lt(a.drop_first(), b.drop_first())
    }
}

pub proof fn lemma_seq_lt_irreflexive(a: Seq<u8>)
    ensures
        !seq_lt(a, a),
    decreases a.len(),
{
    if a.len() > 0 {
        lemma_seq_lt_irreflexive(a.drop_first());
    }
}

pub proof fn lemma_seq_lt_total(a: Seq<u8>, b: Seq<u8>)
    ensures
        a == b || seq_lt(a, b) || seq_lt(b, a),
        !(seq_lt(a, b) && seq_lt(b, a)),
    decreases a.len(),
{
    if a.len() > 0 && b.len() > 0 && a[0] == b[0] {
        lemma_seq_lt_total(a.drop_first(), b.drop_first());
        if a.drop_first() == b.drop_first() {
            assert(a =~= seq![a[0]] + a.drop_first());
            assert(b =~= seq![b[0]] + b.drop_first());
        }
    } else if a.len() == 0 && b.len() == 0 {
        assert(a =~= b);
    }
}

pub proof fn lemma_seq_lt_transitive(a: Seq<u8>, b: Seq<u8>, c: Seq<u8>)
    requires
        seq_lt(a, b),
        seq_lt(b, c),
    ensures
        seq_lt(a, c),
    decreases a.len(),
{
    if a.len() > 0 && b.len() > 0 && c.len() > 0 && a[0] == b[0] && b[0] == c[0] {
        lemma_seq_lt_transitive(a.drop_first(), b.drop_first(), c.drop_first());
    }
}

/// Three-way comparison of byte strings: -1, 0 or 1.
pub fn compare_bytes(a: &[u8], b: &[u8]) -> (r: i8)
    ensures
        r == 0 <==> a@ == b@,
        r < 0 <==> seq_lt(a@, b@),
        r > 0 <==> seq_lt(b@, a@),
{
    let mut i: usize = 0;
    proof {
        assert(a@.skip(0) =~= a@);
        assert(b@.skip(0) =~= b@);
    }
    while i < a.len() && i < b.len()
        invariant
            0 <= i <= a@.len(),
            i <= b@.len(),
            a@.subrange(0, i as int) == b@.subrange(0, i as int),
            seq_lt(a@, b@) == seq_lt(a@.skip(i as int), b@.skip(i as int)),
            seq_lt(b@, a@) == seq_lt(b@.skip(i as int), a@.skip(i as int)),
            a@ == b@ <==> a@.skip(i as int) == b@.skip(i as int),
        decreases a.len() - i,
    {
        if a[i] != b[i] {
            proof {
                assert(a@.skip(i as int)[0] == a@[i as int]);
                assert(b@.skip(i as int)[0] == b@[i as int]);
            }
            if a[i] < b[i] {
                return -1;
            } else {
                return 1;
            }
        }
        proof {
            assert(a@.skip(i as int).drop_first() =~= a@.skip(i + 1));
            assert(b@.skip(i as int).drop_first() =~= b@.skip(i + 1));
            assert(a@.subrange(0, i + 1) =~= a@.subrange(0, i as int).push(a@[i as int]));
            assert(b@.subrange(0, i + 1) =~= b@.subrange(0, i as int).push(b@[i as int]));
            if a@.skip(i + 1) == b@.skip(i + 1) {
                assert(a@.skip(i as int) =~= seq![a@[i as int]] + a@.skip(i + 1));
                assert(b@.skip(i as int) =~= seq![b@[i as int]] + b@.skip(i + 1));
            }
        }
        i = i + 1;
    }
    if a.len() == b.len() {
        proof {
            assert(a@ =~= a@.subrange(0, i as int));
            assert(b@ =~= b@.subrange(0, i as int));
        }
        0
    } else if a.len() < b.len() {
        proof {
            assert(a@.skip(i as int).len() == 0);
        }
        -1
    } else {
        proof {
            assert(b@.skip(i as int).len() == 0);
        }
        1
    }
}

/// Byte-string equality.
pub fn bytes_eq(a: &[u8], b: &[u8]) -> (r: bool)
    ensures
        r == (a@ == b@),
{
    compare_bytes(a, b) == 0
}

/// Appends `src` to the end of `dest`.
pub fn push_bytes(dest: &mut Vec<u8>, src: &[u8])
    ensures
        final(dest)@ == old(dest)@ + src@,
{
    let mut i: usize = 0;
    while i < src.len()
        invariant
            0 <= i <= src@.len(),
            dest@ == old(dest)@ + src@.subrange(0, i as int),
        decreases src.len() - i,
    {
        dest.push(src[i]);
        proof {
            assert(src@.subrange(0, i + 1) =~= src@.subrange(0, i as int).push(src@[i as int]));
        }
        i = i + 1;
    }
    proof {
        assert(src@.subrange(0, i as int) =~= src@);
    }
}

/// A fresh copy of a byte string.
pub fn copy_bytes(src: &[u8]) -> (r: Vec<u8>)
    ensures
        r@ == src@,
{
    let mut r: Vec<u8> = Vec::new();
    push_bytes(&mut r, src);
    proof {
        assert(Seq::<u8>::empty() + src@ =~= src@);
    }
    r
}

/// ASCII whitespace, as `u8::is_ascii_whitespace` and `char::is_whitespace` agree on it.
pub open spec fn is_space(b: u8) -> bool {
    b == 32 || b == 9 || b == 10 || b == 11 || b == 12 || b == 13
}

/// The length of the UTF-8 encoding of a Unicode whitespace character
/// (`char::is_whitespace`) that starts at `i`, or 0 where none does.
pub open spec fn space_len(s: Seq<u8>, i: int) -> int {
    if 0 <= i < s.len() && is_space(s[i]) {
        1
    } else if 0 <= i && i + 1 < s.len() && s[i] == 0xC2 && (s[i + 1] == 0x85 || s[i + 1] == 0xA0) {
        2
    } else if 0 <= i && i + 2 < s.len() && s[i] == 0xE1 && s[i + 1] == 0x9A && s[i + 2] == 0x80 {
        3
    } else if 0 <= i && i + 2 < s.len() && s[i] == 0xE2 && s[i + 1] == 0x80 && ((0x80 <= s[i + 2]
        && s[i + 2] <= 0x8A) || s[i + 2] == 0xA8 || s[i + 2] == 0xA9 || s[i + 2] == 0xAF) {
        3
    } else if 0 <= i && i + 2 < s.len() && s[i] == 0xE2 && s[i + 1] == 0x81 && s[i + 2] == 0x9F {
        3
    } else if 0 <= i && i + 2 < s.len() && s[i] == 0xE3 && s[i + 1] == 0x80 && s[i + 2] == 0x80 {
        3
    } else {
        0
    }
}

/// The bytes from `i` on encode Unicode whitespace alone.
pub open spec fn blank_from(s: Seq<u8>, i: int) -> bool
    decreases s.len() - i,
{
    if i >= s.len() {
        true
    } else if space_len(s, i) == 0 {
        false
    } else {
        blank_from(s, i + space_len(s, i))
    }
}

/// A byte string holds whitespace alone (Unicode whitespace, as `str::trim` has it).
pub open spec fn is_blank(s: Seq<u8>) -> bool {
    blank_from(s, 0)
}

fn space_len_exec(s: &[u8], i: usize) -> (r: usize)
    requires
        i < s@.len(),
    ensures
        r as int == space_len(s@, i as int),
{
    let n = s.len();
    let b = s[i];
    if b == 32 || b == 9 || b == 10 || b == 11 || b == 12 || b == 13 {
        1
    } else if n - i > 1 && b == 0xC2 && (s[i + 1] == 0x85 || s[i + 1] == 0xA0) {
        2
    } else if n - i > 2 && b == 0xE1 && s[i + 1] == 0x9A && s[i + 2] == 0x80 {
        3
    } else if n - i > 2 && b == 0xE2 && s[i + 1] == 0x80 && ((0x80 <= s[i + 2] && s[i + 2] <= 0x8A)
        || s[i + 2] == 0xA8 || s[i + 2] == 0xA9 || s[i + 2] == 0xAF) {
        3
    } else if n - i > 2 && b == 0xE2 && s[i + 1] == 0x81 && s[i + 2] == 0x9F {
        3
    } else if n - i > 2 && b == 0xE3 && s[i + 1] == 0x80 && s[i + 2] == 0x80 {
        3
    } else {
        0
    }
}

pub fn is_blank_exec(s: &[u8]) -> (r: bool)
    ensures
        r == is_blank(s@),
{
    let mut i: usize = 0;
    while i < s.len()
        invariant
            0 <= i <= s@.len(),
            blank_from(s@, 0) == blank_from(s@, i as int),
        decreases s.len() - i,
    {
        let k = space_len_exec(s, i);
        if k == 0 {
            return false;
        }
        i = i + k;
    }
    true
}

/// The length of the UTF-8 encoding of a Unicode whitespace character that
/// ends the byte string, or 0 where none does.
pub open spec fn end_space_len(s: Seq<u8>) -> int {
    let n = s.len() as int;
    if n >= 1 && is_space(s[n - 1]) {
        1
    } else if n >= 2 && s[n - 2] == 0xC2 && (s[n - 1] == 0x85 || s[n - 1] == 0xA0) {
        2
    } else if n >= 3 && s[n - 3] == 0xE1 && s[n - 2] == 0x9A && s[n - 1] == 0x80 {
        3
    } else if n >= 3 && s[n - 3] == 0xE2 && s[n - 2] == 0x80 && ((0x80 <= s[n - 1] && s[n - 1] <= 0x8A)
        || s[n - 1] == 0xA8 || s[n - 1] == 0xA9 || s[n - 1] == 0xAF) {
        3
    } else if n >= 3 && s[n - 3] == 0xE2 && s[n - 2] == 0x81 && s[n - 1] == 0x9F {
        3
    } else if n >= 3 && s[n - 3] == 0xE3 && s[n - 2] == 0x80 && s[n - 1] == 0x80 {
        3
    } else {
        0
    }
}

/// The byte string without its trailing (Unicode) whitespace, as `str::trim_end` has it.
pub open spec fn trim_end(s: Seq<u8>) -> Seq<u8>
    decreases s.len(),
{
    if end_space_len(s) > 0 {
        trim_end(s.subrange(0, s.len() - end_space_len(s)))
    } else {
        s
    }
}

/// The byte string without its leading spaces and tabs.
pub open spec fn skip_spaces(s: Seq<u8>) -> Seq<u8>
    decreases s.len(),
{
    if s.len() > 0 && (s[0] == 32 || s[0] == 9) {
        skip_spaces(s.drop_first())
    } else {
        s
    }
}

/// Position of the first byte of `s` that is neither a space nor a tab, at or after `from`.
fn skip_spaces_from(s: &[u8], from: usize) -> (r: usize)
    requires
        from <= s@.len(),
    ensures
        from <= r <= s@.len(),
        s@.skip(r as int) == skip_spaces(s@.skip(from as int)),
{
    let mut i = from;
    while i < s.len() && (s[i] == 32 || s[i] == 9)
        invariant
            from <= i <= s@.len(),
            skip_spaces(s@.skip(i as int)) == skip_spaces(s@.skip(from as int)),
        decreases s.len() - i,
    {
        proof {
            assert(s@.skip(i as int).drop_first() =~= s@.skip(i + 1));
        }
        i = i + 1;
    }
    i
}

/// End of the part of `s[..to]` that precedes its trailing whitespace.
fn end_space_len_exec(s: &[u8], from: usize, to: usize) -> (r: usize)
    requires
        from <= to <= s@.len(),
    ensures
        r as int == end_space_len(s@.subrange(from as int, to as int)),
{
    let ghost t = s@.subrange(from as int, to as int);
    let n = to - from;
    if n >= 1 {
        let b = s[to - 1];
        proof {
            assert(t[n - 1] == b);
        }
        if b == 32 || b == 9 || b == 10 || b == 11 || b == 12 || b == 13 {
            return 1;
        }
    }
    if n >= 2 {
        proof {
            assert(t[n - 2] == s@[to - 2]);
            assert(t[n - 1] == s@[to - 1]);
        }
        if s[to - 2] == 0xC2 && (s[to - 1] == 0x85 || s[to - 1] == 0xA0) {
            return 2;
        }
    }
    if n >= 3 {
        let (a, b, c) = (s[to - 3], s[to - 2], s[to - 1]);
        proof {
            assert(t[n - 3] == a);
            assert(t[n - 2] == b);
            assert(t[n - 1] == c);
        }
        if a == 0xE1 && b == 0x9A && c == 0x80 {
            return 3;
        }
        if a == 0xE2 && b == 0x80 && ((0x80 <= c && c <= 0x8A) || c == 0xA8 || c == 0xA9 || c == 0xAF) {
            return 3;
        }
        if a == 0xE2 && b == 0x81 && c == 0x9F {
            return 3;
        }
        if a == 0xE3 && b == 0x80 && c == 0x80 {
            return 3;
        }
    }
    0
}

/// End of the part of `s[from..to]` that precedes its trailing whitespace.
fn trim_end_to(s: &[u8], from: usize, to: usize) -> (r: usize)
    requires
        from <= to <= s@.len(),
    ensures
        from <= r <= to,
        s@.subrange(from as int, r as int) == trim_end(s@.subrange(from as int, to as int)),
{
    let mut j = to;
    loop
        invariant
            from <= j <= to,
            to <= s@.len(),
            trim_end(s@.subrange(from as int, j as int)) == trim_end(s@.subrange(from as int, to as int)),
        ensures
            from <= j <= to,
            s@.subrange(from as int, j as int) == trim_end(s@.subrange(from as int, to as int)),
        decreases j,
    {
        let k = end_space_len_exec(s, from, j);
        if k == 0 {
            break;
        }
        proof {
            assert(s@.subrange(from as int, j as int).subrange(0, j - from - k) =~= s@.subrange(
                from as int,
                j - k,
            ));
        }
        j = j - k;
    }
    j
}

/// `s` without its trailing whitespace.
pub fn trimmed_end(s: &[u8]) -> (r: Vec<u8>)
    ensures
        r@ == trim_end(s@),
{
    let end = trim_end_to(s, 0, s.len());
    proof {
        assert(s@.subrange(0, s@.len() as int) =~= s@);
    }
    let mut r: Vec<u8> = Vec::new();
    let mut i: usize = 0;
    while i < end
        invariant
            0 <= i <= end,
            end <= s@.len(),
            r@ == s@.subrange(0, i as int),
        decreases end - i,
    {
        r.push(s[i]);
        proof {
            assert(s@.subrange(0, i + 1) =~= s@.subrange(0, i as int).push(s@[i as int]));
        }
        i = i + 1;
    }
    r
}

/// `s` with leading spaces and tabs skipped from `from` on, then trailing whitespace trimmed.
pub fn trimmed_tail(s: &[u8], from: usize) -> (r: Vec<u8>)
    requires
        from <= s@.len(),
    ensures
        r@ == trim_end(skip_spaces(s@.skip(from as int))),
{
    let start = skip_spaces_from(s, from);
    let end = trim_end_to(s, start, s.len());
    proof {
        assert(s@.subrange(start as int, s@.len() as int) =~= s@.skip(start as int));
    }
    let mut r: Vec<u8> = Vec::new();
    let mut i = start;
    while i < end
        invariant
            start <= i <= end,
            end <= s@.len(),
            r@ == s@.subrange(start as int, i as int),
        decreases end - i,
    {
        r.push(s[i]);
        proof {
            assert(s@.subrange(start as int, i + 1) =~= s@.subrange(start as int, i as int).push(
                s@[i as int],
            ));
        }
        i = i + 1;
    }
    r
}

} // verus!
