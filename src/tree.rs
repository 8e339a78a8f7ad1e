//! A `use` declaration as plain values: its docs, its `cfg` conditions, its
//! visibility, and the paths that it imports.
use vstd::prelude::*;

use crate::flattened::{build_use_item_children_root, flat_root, item_views, self_word, PathView, SingleUsedItem};
use crate::common::Rooted;
use crate::syntax::{attr_views, AttrMeta, AttrSyntax, AttrValue, AttrView, MetaView, RawUseItem, RawView, RawVisView, RawVisibility, ValueView};
use crate::bytes::{bytes_eq, compare_bytes, copy_bytes, flat, push_bytes, seq_lt, lemma_seq_lt_total, lemma_seq_lt_transitive, lemma_seq_lt_irreflexive};

verus! {

/// A path as written in `pub(in PATH)`.
#[derive(Debug)]
pub struct PathText {
    pub leading_colon: bool,
    pub segments: Vec<Vec<u8>>,
}

pub open spec fn seg_views(ss: Seq<Vec<u8>>) -> Seq<Seq<u8>> {
    ss.map_values(|s: Vec<u8>| s@)
}

impl View for PathText {
    type V = (bool, Seq<Seq<u8>>);

    open spec fn view(&self) -> (bool, Seq<Seq<u8>>) {
        (self.leading_colon, seg_views(self.segments@))
    }
}

/// A copy of a list of byte strings.
pub fn copy_all(ss: &Vec<Vec<u8>>) -> (r: Vec<Vec<u8>>)
    ensures
        seg_views(r@) == seg_views(ss@),
{
    let mut r: Vec<Vec<u8>> = Vec::new();
    let mut i: usize = 0;
    while i < ss.len()
        invariant
            0 <= i <= ss@.len(),
            r@.len() == i,
            forall|j: int| 0 <= j < i ==> (#[trigger] r@[j])@ == ss@[j]@,
        decreases ss.len() - i,
    {
        r.push(copy_bytes(ss[i].as_slice()));
        i = i + 1;
    }
    proof {
        assert(seg_views(r@) =~= seg_views(ss@));
    }
    r
}

/// Equality of two lists of byte strings.
pub fn all_eq(a: &Vec<Vec<u8>>, b: &Vec<Vec<u8>>) -> (r: bool)
    ensures
        r == (seg_views(a@) == seg_views(b@)),
{
    if a.len() != b.len() {
        proof {
            assert(seg_views(a@).len() != seg_views(b@).len());
        }
        return false;
    }
    let mut i: usize = 0;
    while i < a.len()
        invariant
            0 <= i <= a@.len(),
            a@.len() == b@.len(),
            forall|j: int| 0 <= j < i ==> (#[trigger] a@[j])@ == b@[j]@,
        decreases a.len() - i,
    {
        if !bytes_eq(a[i].as_slice(), b[i].as_slice()) {
            proof {
                assert(seg_views(a@)[i as int] != seg_views(b@)[i as int]);
            }
            return false;
        }
        i = i + 1;
    }
    proof {
        assert(seg_views(a@) =~= seg_views(b@));
    }
    true
}

impl PathText {
    pub fn duplicate(&self) -> (r: PathText)
        ensures
            r@ == self@,
    {
        PathText { leading_colon: self.leading_colon, segments: copy_all(&self.segments) }
    }
}

/// The visibility of a `use` declaration.
#[derive(Debug)]
pub enum Visibility {
    /// `pub`
    Public,
    /// `pub(crate)`
    Crate,
    /// `pub(self)`
    This,
    /// `pub(super)`
    Super,
    /// `pub(in PATH)`
    In(PathText),
}

pub enum VisibilityView {
    Public,
    Crate,
    This,
    Super,
    In(bool, Seq<Seq<u8>>),
}

impl View for Visibility {
    type V = VisibilityView;

    open spec fn view(&self) -> VisibilityView {
        match self {
            Visibility::Public => VisibilityView::Public,
            Visibility::Crate => VisibilityView::Crate,
            Visibility::This => VisibilityView::This,
            Visibility::Super => VisibilityView::Super,
            Visibility::In(p) => VisibilityView::In(p.leading_colon, seg_views(p.segments@)),
        }
    }
}

pub open spec fn opt_vis_view(v: Option<Visibility>) -> Option<VisibilityView> {
    match v {
        Some(v) => Some(v@),
        None => None,
    }
}

impl Visibility {
    pub fn duplicate(&self) -> (r: Visibility)
        ensures
            r@ == self@,
    {
        match self {
            Visibility::Public => Visibility::Public,
            Visibility::Crate => Visibility::Crate,
            Visibility::This => Visibility::This,
            Visibility::Super => Visibility::Super,
            Visibility::In(p) => Visibility::In(p.duplicate()),
        }
    }

    pub fn same_as(&self, other: &Visibility) -> (r: bool)
        ensures
            r == (self@ == other@),
    {
        match (self, other) {
            (Visibility::Public, Visibility::Public) => true,
            (Visibility::Crate, Visibility::Crate) => true,
            (Visibility::This, Visibility::This) => true,
            (Visibility::Super, Visibility::Super) => true,
            (Visibility::In(a), Visibility::In(b)) => a.leading_colon == b.leading_colon && all_eq(
                &a.segments,
                &b.segments,
            ),
            _ => false,
        }
    }
}

pub fn duplicate_visibility(v: &Option<Visibility>) -> (r: Option<Visibility>)
    ensures
        opt_vis_view(r) == opt_vis_view(*v),
{
    match v {
        Some(v) => Some(v.duplicate()),
        None => None,
    }
}

pub fn same_visibility(a: &Option<Visibility>, b: &Option<Visibility>) -> (r: bool)
    ensures
        r == (opt_vis_view(*a) == opt_vis_view(*b)),
{
    match (a, b) {
        (Some(a), Some(b)) => a.same_as(b),
        (None, None) => true,
        _ => false,
    }
}

/// The more public of two visibilities: `pub` over `pub(crate)` over
/// `pub(in PATH)` over `pub(super)` over `pub(self)`, and of two `pub(in PATH)`
/// the one with the shorter path (taken to name an enclosing module).
pub open spec fn merge_vis(a: Option<VisibilityView>, b: Option<VisibilityView>) -> Option<
    VisibilityView,
> {
    match (a, b) {
        (None, v) => v,
        (v, None) => v,
        (Some(x), Some(y)) => Some(
            if x is This {
                y
            } else if y is This {
                x
            } else if x is Super {
                y
            } else if y is Super {
                x
            } else if x is In && y is In {
                match (x, y) {
                    (VisibilityView::In(_, p1), VisibilityView::In(_, p2)) => if p1.len() < p2.len() {
                        x
                    } else {
                        y
                    },
                    _ => x,
                }
            } else if x is In {
                y
            } else if y is In {
                x
            } else if x is Crate {
                y
            } else {
                x
            },
        ),
    }
}

/// Merge a pair of visibilities: the more public one wins.
pub fn merge_visibilities(vis1: &Option<Visibility>, vis2: &Option<Visibility>) -> (r: Option<
    Visibility,
>)
    ensures
        opt_vis_view(r) == merge_vis(opt_vis_view(*vis1), opt_vis_view(*vis2)),
{
    match (vis1, vis2) {
        (None, v) => duplicate_visibility(v),
        (v, None) => duplicate_visibility(v),
        (Some(x), Some(y)) => {
            let pick_first = match (x, y) {
                (Visibility::This, _) => false,
                (_, Visibility::This) => true,
                (Visibility::Super, _) => false,
                (_, Visibility::Super) => true,
                (Visibility::In(p1), Visibility::In(p2)) => p1.segments.len() < p2.segments.len(),
                (Visibility::In(_), _) => false,
                (_, Visibility::In(_)) => true,
                (Visibility::Crate, _) => false,
                _ => true,
            };
            if pick_first {
                Some(x.duplicate())
            } else {
                Some(y.duplicate())
            }
        },
    }
}

/// The docs of an item: one block per `///` comment, `/** */` comment or
/// `#[doc = ...]` attribute.
#[derive(Debug)]
pub struct DocsList {
    pub blocks: Vec<Vec<u8>>,
}

pub open spec fn is_prefix(a: Seq<u8>, b: Seq<u8>) -> bool {
    a.len() <= b.len() && b.take(a.len() as int) == a
}

/// The bytes `j` places before the end of each agree.
pub open spec fn tail_match(a: Seq<u8>, b: Seq<u8>, j: int) -> bool {
    a[a.len() - 1 - j] == b[b.len() - 1 - j]
}

pub open spec fn is_suffix(a: Seq<u8>, b: Seq<u8>) -> bool {
    a.len() <= b.len() && b.skip(b.len() - a.len()) == a
}

/// The docs that stand for two sets of docs: the longer one where one is a
/// prefix or a suffix of the other (as bytes), both one after the other
/// otherwise.
pub open spec fn combine_docs(a: Seq<Seq<u8>>, b: Seq<Seq<u8>>) -> Seq<Seq<u8>> {
    let (x, y) = (flat(a), flat(b));
    if is_prefix(x, y) || is_prefix(y, x) || is_suffix(x, y) || is_suffix(y, x) {
        if x.len() < y.len() {
            b
        } else {
            a
        }
    } else {
        a + b
    }
}

impl View for DocsList {
    type V = Seq<Seq<u8>>;

    open spec fn view(&self) -> Seq<Seq<u8>> {
        seg_views(self.blocks@)
    }
}

impl DocsList {
    pub fn new() -> (r: DocsList)
        ensures
            r@ == Seq::<Seq<u8>>::empty(),
    {
        let r = DocsList { blocks: Vec::new() };
        proof {
            assert(r@ =~= Seq::<Seq<u8>>::empty());
        }
        r
    }

    pub fn duplicate(&self) -> (r: DocsList)
        ensures
            r@ == self@,
    {
        DocsList { blocks: copy_all(&self.blocks) }
    }

    pub fn same_as(&self, other: &DocsList) -> (r: bool)
        ensures
            r == (self@ == other@),
    {
        all_eq(&self.blocks, &other.blocks)
    }

    /// The blocks of these docs.
    pub fn blocks(&self) -> (r: &[Vec<u8>])
        ensures
            r@ == self.blocks@,
    {
        self.blocks.as_slice()
    }

    /// All of the content of these docs, one block after the other.
    pub fn bytes(&self) -> (r: Vec<u8>)
        ensures
            r@ == flat(self@),
    {
        let mut r: Vec<u8> = Vec::new();
        let mut i: usize = 0;
        while i < self.blocks.len()
            invariant
                0 <= i <= self.blocks@.len(),
                r@ == flat(self@.take(i as int)),
            decreases self.blocks.len() - i,
        {
            proof {
                assert(self@.take(i + 1).drop_last() =~= self@.take(i as int));
            }
            push_bytes(&mut r, self.blocks[i].as_slice());
            i = i + 1;
        }
        proof {
            assert(self@.take(i as int) =~= self@);
        }
        r
    }

    /// Whether any block has content.
    pub fn is_not_empty(&self) -> (r: bool)
        ensures
            r == exists|i: int| 0 <= i < self@.len() && (#[trigger] self@[i]).len() > 0,
    {
        let mut i: usize = 0;
        while i < self.blocks.len()
            invariant
                0 <= i <= self.blocks@.len(),
                forall|j: int| 0 <= j < i ==> (#[trigger] self@[j]).len() == 0,
            decreases self.blocks.len() - i,
        {
            if self.blocks[i].len() > 0 {
                proof {
                    assert(self@[i as int].len() > 0);
                }
                return true;
            }
            i = i + 1;
        }
        false
    }

    /// The total length of these docs, in bytes.
    pub fn len(&self) -> (r: usize)
        ensures
            r == flat(self@).len(),
    {
        self.bytes().len()
    }

    /// Whether either of the two docs is a prefix of the other.
    pub fn either_prefix(&self, other: &Self) -> (r: bool)
        ensures
            r == (is_prefix(flat(self@), flat(other@)) || is_prefix(flat(other@), flat(self@))),
    {
        let a = self.bytes();
        let b = other.bytes();
        let n = if a.len() < b.len() {
            a.len()
        } else {
            b.len()
        };
        let mut i: usize = 0;
        while i < n
            invariant
                0 <= i <= n,
                a@ == flat(self@),
                b@ == flat(other@),
                n <= a@.len(),
                n <= b@.len(),
                n == a@.len() || n == b@.len(),
                forall|j: int| 0 <= j < i ==> a@[j] == b@[j],
            decreases n - i,
        {
            if a[i] != b[i] {
                proof {
                    assert(a@[i as int] != b@[i as int]);
                    if is_prefix(a@, b@) {
                        assert(b@.take(a@.len() as int)[i as int] == b@[i as int]);
                        assert(false);
                    }
                    if is_prefix(b@, a@) {
                        assert(a@.take(b@.len() as int)[i as int] == a@[i as int]);
                        assert(false);
                    }

                }
                return false;
            }
            i = i + 1;
        }
        proof {
            if n == a@.len() {
                assert(b@.take(a@.len() as int) =~= a@);
            } else {
                assert(a@.take(b@.len() as int) =~= b@);
            }
        }
        true
    }

    /// Whether either of the two docs is a suffix of the other.
    pub fn either_suffix(&self, other: &Self) -> (r: bool)
        ensures
            r == (is_suffix(flat(self@), flat(other@)) || is_suffix(flat(other@), flat(self@))),
    {
        let a = self.bytes();
        let b = other.bytes();
        let la = a.len();
        let lb = b.len();
        let n = if la < lb {
            la
        } else {
            lb
        };
        let mut i: usize = 0;
        while i < n
            invariant
                0 <= i <= n,
                a@ == flat(self@),
                b@ == flat(other@),
                la == a@.len(),
                lb == b@.len(),
                n <= la,
                n <= lb,
                n == la || n == lb,
                forall|j: int| 0 <= j < i ==> #[trigger] tail_match(a@, b@, j),
            decreases n - i,
        {
            if a[la - 1 - i] != b[lb - 1 - i] {
                proof {
                    assert(a@[la - 1 - i] != b@[lb - 1 - i]);
                    if is_suffix(a@, b@) {
                        assert(b@.skip(lb - la)[la - 1 - i] == b@[lb - 1 - i]);
                        assert(false);
                    }
                    if is_suffix(b@, a@) {
                        assert(a@.skip(la - lb)[lb - 1 - i] == a@[la - 1 - i]);
                        assert(false);
                    }
                }
                return false;
            }
            i = i + 1;
        }
        proof {
            if n == la {
                assert forall|k: int| 0 <= k < la implies b@.skip(lb - la)[k] == a@[k] by {
                    let j = la - 1 - k;
                    assert(tail_match(a@, b@, j));
                }
                assert(b@.skip(lb - la) =~= a@);
            } else {
                assert forall|k: int| 0 <= k < lb implies a@.skip(la - lb)[k] == b@[k] by {
                    let j = lb - 1 - k;
                    assert(tail_match(a@, b@, j));
                }
                assert(a@.skip(la - lb) =~= b@);
            }
        }
        true
    }

    /// Combine two docs: if either is a prefix or suffix of the other, keep
    /// the longer one; otherwise, put them one after the other.
    pub fn combine(&mut self, other: &Self)
        ensures
            final(self)@ == combine_docs(old(self)@, other@),
    {
        if self.either_prefix(other) || self.either_suffix(other) {
            if self.len() < other.len() {
                *self = other.duplicate();
            }
        } else {
            let mut i: usize = 0;
            let ghost start = self@;
            while i < other.blocks.len()
                invariant
                    0 <= i <= other.blocks@.len(),
                    self@ == start + other@.take(i as int),
                decreases other.blocks.len() - i,
            {
                let ghost before = self.blocks@;
                self.blocks.push(copy_bytes(other.blocks[i].as_slice()));
                proof {
                    assert(seg_views(before) == start + other@.take(i as int));
                    assert(seg_views(self.blocks@) =~= seg_views(before).push(other@[i as int]));
                    assert(self@ =~= start + other@.take(i + 1));
                }
                i = i + 1;
            }
            proof {
                assert(other@.take(i as int) =~= other@);
            }
        }
    }
}

/// Lexicographic order on lists of byte strings.
pub open spec fn list_lt(a: Seq<Seq<u8>>, b: Seq<Seq<u8>>) -> bool
    decreases a.len(),
{
    if b.len() == 0 {
        false
    } else if a.len() == 0 {
        true
    } else if a[0] != b[0] {
        seq_lt(a[0], b[0])
    } else {
        list_lt(a.drop_first(), b.drop_first())
    }
}

pub proof fn lemma_list_lt_total(a: Seq<Seq<u8>>, b: Seq<Seq<u8>>)
    ensures
        a == b || list_lt(a, b) || list_lt(b, a),
        !(list_lt(a, b) && list_lt(b, a)),
        !list_lt(a, a),
    decreases a.len(),
{
    if a.len() > 0 && b.len() > 0 {
        lemma_seq_lt_total(a[0], b[0]);
        if a[0] == b[0] {
            lemma_list_lt_total(a.drop_first(), b.drop_first());
            if a.drop_first() == b.drop_first() {
                assert(a =~= seq![a[0]] + a.drop_first());
                assert(b =~= seq![b[0]] + b.drop_first());
            }
        }
    } else if a.len() == 0 && b.len() == 0 {
        assert(a =~= b);
    }
    if a.len() > 0 {
        lemma_seq_lt_irreflexive(a[0]);
        lemma_list_lt_total(a.drop_first(), a.drop_first());
    }
}

pub proof fn lemma_list_lt_transitive(a: Seq<Seq<u8>>, b: Seq<Seq<u8>>, c: Seq<Seq<u8>>)
    requires
        list_lt(a, b),
        list_lt(b, c),
    ensures
        list_lt(a, c),
    decreases a.len(),
{
    if a.len() > 0 && b.len() > 0 && c.len() > 0 {
        if a[0] == b[0] && b[0] == c[0] {
            lemma_list_lt_transitive(a.drop_first(), b.drop_first(), c.drop_first());
        } else if a[0] == b[0] {
        } else if b[0] == c[0] {
        } else {
            lemma_seq_lt_transitive(a[0], b[0], c[0]);
            lemma_seq_lt_total(a[0], c[0]);
        }
        if a[0] != b[0] && b[0] != c[0] {
            lemma_seq_lt_total(a[0], c[0]);
            if a[0] == c[0] {
                lemma_seq_lt_total(a[0], b[0]);
            }
        }
    }
}

/// Three-way comparison of lists of byte strings: -1, 0 or 1.
pub fn compare_lists(a: &Vec<Vec<u8>>, b: &Vec<Vec<u8>>) -> (r: i8)
    ensures
        r == 0 <==> seg_views(a@) == seg_views(b@),
        r < 0 <==> list_lt(seg_views(a@), seg_views(b@)),
        r > 0 <==> list_lt(seg_views(b@), seg_views(a@)),
{
    let ghost x = seg_views(a@);
    let ghost y = seg_views(b@);
    let mut i: usize = 0;
    proof {
        assert(x.skip(0) =~= x);
        assert(y.skip(0) =~= y);
    }
    while i < a.len() && i < b.len()
        invariant
            0 <= i <= a@.len(),
            i <= b@.len(),
            x == seg_views(a@),
            y == seg_views(b@),
            list_lt(x, y) == list_lt(x.skip(i as int), y.skip(i as int)),
            list_lt(y, x) == list_lt(y.skip(i as int), x.skip(i as int)),
            x == y <==> x.skip(i as int) == y.skip(i as int),
        decreases a.len() - i,
    {
        let c = compare_bytes(a[i].as_slice(), b[i].as_slice());
        proof {
            assert(x.skip(i as int)[0] == x[i as int]);
            assert(y.skip(i as int)[0] == y[i as int]);
            lemma_seq_lt_total(x[i as int], y[i as int]);
        }
        if c != 0 {
            proof {
                if x == y {
                    assert(x.skip(i as int)[0] == y.skip(i as int)[0]);
                }
            }
            if c < 0 {
                return -1;
            } else {
                return 1;
            }
        }
        proof {
            assert(x.skip(i as int).drop_first() =~= x.skip(i + 1));
            assert(y.skip(i as int).drop_first() =~= y.skip(i + 1));
            if x.skip(i + 1) == y.skip(i + 1) {
                assert(x.skip(i as int) =~= seq![x[i as int]] + x.skip(i + 1));
                assert(y.skip(i as int) =~= seq![y[i as int]] + y.skip(i + 1));
            }
        }
        i = i + 1;
    }
    if a.len() == b.len() {
        proof {
            assert(x.skip(i as int) =~= Seq::<Seq<u8>>::empty());
            assert(y.skip(i as int) =~= Seq::<Seq<u8>>::empty());
        }
        0
    } else if a.len() < b.len() {
        proof {
            assert(x.skip(i as int).len() == 0);
        }
        -1
    } else {
        proof {
            assert(y.skip(i as int).len() == 0);
        }
        1
    }
}

/// The contents of a single `#[cfg(...)]`.
#[derive(Debug)]
pub struct Config(pub Vec<u8>);

/// A condition as an attribute: `#[cfg(` and `)]` around it.
pub open spec fn cfg_text(c: Seq<u8>) -> Seq<u8> {
    seq![35u8, 91, 99, 102, 103, 40] + c + seq![41u8, 93]
}

impl Config {
    /// The condition as an attribute, `#[cfg(...)]`.
    pub fn to_text(&self) -> (r: Vec<u8>)
        ensures
            r@ == cfg_text(self.0@),
    {
        let mut r: Vec<u8> = vec![35u8, 91, 99, 102, 103, 40];
        let ghost open_w = r@;
        push_bytes(&mut r, self.0.as_slice());
        r.push(41u8);
        r.push(93u8);
        proof {
            assert(open_w =~= seq![35u8, 91, 99, 102, 103, 40]);
            assert(r@ =~= cfg_text(self.0@));
        }
        r
    }
}

/// The `cfg` conditions of an item, each the text inside `#[cfg(...)]`,
/// kept sorted and without duplicates.
#[derive(Debug)]
pub struct ConfigsList {
    pub configs: Vec<Vec<u8>>,
}

impl View for ConfigsList {
    type V = Seq<Seq<u8>>;

    open spec fn view(&self) -> Seq<Seq<u8>> {
        seg_views(self.configs@)
    }
}

pub open spec fn sorted_strictly(s: Seq<Seq<u8>>) -> bool {
    forall|i: int, j: int| 0 <= i < j < s.len() ==> seq_lt(#[trigger] s[i], #[trigger] s[j])
}

impl ConfigsList {
    pub open spec fn wf(&self) -> bool {
        sorted_strictly(self@)
    }

    /// No conditions at all.
    pub fn empty() -> (r: ConfigsList)
        ensures
            r.wf(),
            r@ == Seq::<Seq<u8>>::empty(),
    {
        let r = ConfigsList { configs: Vec::new() };
        proof {
            assert(r@ =~= Seq::<Seq<u8>>::empty());
        }
        r
    }

    pub fn duplicate(&self) -> (r: ConfigsList)
        ensures
            r@ == self@,
    {
        ConfigsList { configs: copy_all(&self.configs) }
    }

    pub fn is_empty(&self) -> (r: bool)
        ensures
            r == (self@.len() == 0),
    {
        self.configs.len() == 0
    }

    pub fn configs(&self) -> (r: &[Vec<u8>])
        ensures
            r@ == self.configs@,
    {
        self.configs.as_slice()
    }

    /// Adds a condition, keeping the list sorted and free of duplicates.
    pub fn insert(&mut self, config: Vec<u8>)
        requires
            old(self).wf(),
        ensures
            final(self).wf(),
            final(self)@.to_set() == old(self)@.to_set().insert(config@),
    {
        let ghost c = config@;
        let ghost s = self@;
        let mut i: usize = 0;
        while i < self.configs.len() && compare_bytes(self.configs[i].as_slice(), config.as_slice()) < 0
            invariant
                0 <= i <= s.len(),
                s == self@,
                c == config@,
                forall|j: int| 0 <= j < i ==> seq_lt(#[trigger] s[j], c),
            decreases s.len() - i,
        {
            i = i + 1;
        }
        if i < self.configs.len() && bytes_eq(self.configs[i].as_slice(), config.as_slice()) {
            proof {
                assert(s[i as int] == c);
                assert(s.contains(c));
                assert(s.to_set().insert(c) =~= s.to_set());
            }
            return;
        }
        proof {
            if i < s.len() {
                lemma_seq_lt_total(s[i as int], c);
            }
        }
        self.configs.insert(i, config);
        proof {
            let t = self@;
            assert(t =~= s.insert(i as int, c));
            assert forall|p: int, q: int| 0 <= p < q < t.len() implies seq_lt(
                #[trigger] t[p],
                #[trigger] t[q],
            ) by {
                if p < i && q == i {
                } else if p < i && q > i {
                    assert(t[q] == s[q - 1]);
                    if q - 1 > i {
                        lemma_seq_lt_transitive(s[p], c, s[i as int]);
                        lemma_seq_lt_transitive(s[p], s[i as int], s[q - 1]);
                    } else {
                        lemma_seq_lt_transitive(s[p], c, s[i as int]);
                    }
                } else if p == i && q > i {
                    assert(t[q] == s[q - 1]);
                    if q - 1 > i {
                        lemma_seq_lt_transitive(c, s[i as int], s[q - 1]);
                    }
                } else if p > i {
                    assert(t[p] == s[p - 1]);
                    assert(t[q] == s[q - 1]);
                }
            }
            assert(t.to_set() =~= s.to_set().insert(c)) by {
                assert forall|x: Seq<u8>| t.to_set().contains(x) <==> s.to_set().insert(c).contains(x) by {
                    if t.contains(x) {
                        let k = choose|k: int| 0 <= k < t.len() && t[k] == x;
                        if k < i {
                            assert(s[k] == x);
                        } else if k > i {
                            assert(s[k - 1] == x);
                        }
                    }
                    if s.contains(x) {
                        let k = choose|k: int| 0 <= k < s.len() && s[k] == x;
                        if k < i {
                            assert(t[k] == x);
                        } else {
                            assert(t[k + 1] == x);
                        }
                    }
                    if x == c {
                        assert(t[i as int] == c);
                    }
                }
            }
        }
    }

    /// Order of condition sets: lexicographic over their sorted conditions.
    pub fn compare(&self, other: &ConfigsList) -> (r: i8)
        ensures
            r == 0 <==> self@ == other@,
            r < 0 <==> list_lt(self@, other@),
            r > 0 <==> list_lt(other@, self@),
    {
        compare_lists(&self.configs, &other.configs)
    }
}

/// Why a `use` declaration is left as it stands.
#[derive(Debug, Clone, Copy, PartialEq, Eq, Structural)]
pub enum CreateUseItemError {
    /// It has an inner attribute.
    InnerAttributes,
    /// It has an attribute other than `cfg` and `doc`.
    UnrecognizedAttribute,
    /// It has a `doc` attribute whose value is not a plain string literal.
    MalformedDocAttribute,
    /// Its visibility is `pub(path)` with a path other than `crate`, `self`, `super`.
    MalformedVisibility,
    /// It imports `*` at its root.
    UseStar,
}

pub open spec fn cfg_word() -> Seq<u8> {
    seq![99u8, 102, 103]
}

pub open spec fn doc_word() -> Seq<u8> {
    seq![100u8, 111, 99]
}

pub open spec fn crate_word() -> Seq<u8> {
    seq![99u8, 114, 97, 116, 101]
}

pub open spec fn super_word() -> Seq<u8> {
    seq![115u8, 117, 112, 101, 114]
}

/// The path is the single identifier `w`.
pub open spec fn path_is(p: (bool, Seq<Seq<u8>>), w: Seq<u8>) -> bool {
    !p.0 && p.1.len() == 1 && p.1[0] == w
}

/// Why an attribute keeps its declaration from being handled, if it does.
pub open spec fn attr_error(a: AttrView) -> Option<CreateUseItemError> {
    if a.0 {
        Some(CreateUseItemError::InnerAttributes)
    } else {
        match a.1 {
            MetaView::Path => Some(CreateUseItemError::UnrecognizedAttribute),
            MetaView::List(path, paren, tokens) => if paren && path_is(path, cfg_word()) {
                None
            } else {
                Some(CreateUseItemError::UnrecognizedAttribute)
            },
            MetaView::NameValue(path, value) => if !path_is(path, doc_word()) {
                Some(CreateUseItemError::UnrecognizedAttribute)
            } else {
                match value {
                    ValueView::Str(attr_count, value) => if attr_count != 0 {
                        Some(CreateUseItemError::MalformedDocAttribute)
                    } else {
                        None
                    },
                    ValueView::Other => Some(CreateUseItemError::MalformedDocAttribute),
                }
            },
        }
    }
}

/// The first attribute error, in order.
pub open spec fn first_attr_error(attrs: Seq<AttrView>) -> Option<CreateUseItemError>
    decreases attrs.len(),
{
    if attrs.len() == 0 {
        None
    } else {
        match first_attr_error(attrs.drop_last()) {
            Some(e) => Some(e),
            None => attr_error(attrs.last()),
        }
    }
}

/// The doc blocks of the attributes, in order.
pub open spec fn attrs_docs(attrs: Seq<AttrView>) -> Seq<Seq<u8>>
    decreases attrs.len(),
{
    if attrs.len() == 0 {
        seq![]
    } else {
        attrs_docs(attrs.drop_last()) + match attrs.last().1 {
            MetaView::NameValue(path, value) => match value {
                ValueView::Str(attr_count, value) => seq![value],
                ValueView::Other => seq![],
            },
            _ => seq![],
        }
    }
}

/// The `cfg` conditions of the attributes.
pub open spec fn attrs_cfgs(attrs: Seq<AttrView>) -> Set<Seq<u8>>
    decreases attrs.len(),
{
    if attrs.len() == 0 {
        Set::empty()
    } else {
        let rest = attrs_cfgs(attrs.drop_last());
        match attrs.last().1 {
            MetaView::List(path, paren, tokens) => rest.insert(tokens),
            _ => rest,
        }
    }
}

/// The visibility that a declaration has.
pub open spec fn vis_result(v: RawVisView) -> Result<Option<VisibilityView>, CreateUseItemError> {
    match v {
        RawVisView::Inherited => Ok(None),
        RawVisView::Public => Ok(Some(VisibilityView::Public)),
        RawVisView::Restricted(in_token, path) => if in_token {
            Ok(Some(VisibilityView::In(path.0, path.1)))
        } else if path_is(path, crate_word()) {
            Ok(Some(VisibilityView::Crate))
        } else if path_is(path, self_word()) {
            Ok(Some(VisibilityView::This))
        } else if path_is(path, super_word()) {
            Ok(Some(VisibilityView::Super))
        } else {
            Err(CreateUseItemError::MalformedVisibility)
        },
    }
}

/// The syntax makes a declaration that is handled.
pub open spec fn use_item_ok(raw: RawView) -> bool {
    &&& first_attr_error(raw.0) is None
    &&& vis_result(raw.1) is Ok
    &&& flat_root(raw.2, raw.3) is Some
}

/// A declaration as plain values: docs, set of conditions, visibility,
/// flattened imports, first and last line.
pub type UseItemView = (Seq<Seq<u8>>, Set<Seq<u8>>, Option<VisibilityView>, Seq<PathView>, usize, usize);

/// The declaration that handled syntax makes.
pub open spec fn use_item_of(raw: RawView) -> UseItemView {
    (attrs_docs(raw.0), attrs_cfgs(raw.0), vis_result(raw.1)->Ok_0, flat_root(raw.2, raw.3)->Some_0, raw.4, raw.5)
}

fn path_is_word(p: &PathText, w: &Vec<u8>) -> (r: bool)
    ensures
        r == path_is(p@, w@),
{
    !p.leading_colon && p.segments.len() == 1 && bytes_eq(p.segments[0].as_slice(), w.as_slice())
}

impl Visibility {
    /// The visibility of a declaration, from its syntax.
    pub fn from_syn_vis(vis: &RawVisibility) -> (r: Result<Option<Visibility>, CreateUseItemError>)
        ensures
            match r {
                Ok(v) => vis_result(vis@) == Ok::<Option<VisibilityView>, CreateUseItemError>(
                    opt_vis_view(v),
                ),
                Err(e) => vis_result(vis@) == Err::<Option<VisibilityView>, CreateUseItemError>(e),
            },
    {
        match vis {
            RawVisibility::Inherited => Ok(None),
            RawVisibility::Public => Ok(Some(Visibility::Public)),
            RawVisibility::Restricted { in_token, path } => {
                if *in_token {
                    return Ok(Some(Visibility::In(path.duplicate())));
                }
                let crate_w: Vec<u8> = vec![99u8, 114, 97, 116, 101];
                let self_w: Vec<u8> = vec![115u8, 101, 108, 102];
                let super_w: Vec<u8> = vec![115u8, 117, 112, 101, 114];
                proof {
                    assert(crate_w@ =~= crate_word());
                    assert(self_w@ =~= self_word());
                    assert(super_w@ =~= super_word());
                }
                if path_is_word(path, &crate_w) {
                    Ok(Some(Visibility::Crate))
                } else if path_is_word(path, &self_w) {
                    Ok(Some(Visibility::This))
                } else if path_is_word(path, &super_w) {
                    Ok(Some(Visibility::Super))
                } else {
                    Err(CreateUseItemError::MalformedVisibility)
                }
            },
        }
    }
}

/// A declaration as plain values.
pub open spec fn use_item_view(u: UseItem) -> UseItemView {
    (u.docs@, u.configs@.to_set(), opt_vis_view(u.visibility), item_views(u.children@), u.start_line, u.end_line)
}

/// A `use` declaration: its docs, its conditions, its visibility, the
/// imports of its tree (flattened, in the order of the tree) and the lines it
/// spans.
#[derive(Debug)]
pub struct UseItem {
    pub docs: DocsList,
    pub configs: ConfigsList,
    pub visibility: Option<Visibility>,
    pub children: Vec<SingleUsedItem>,
    pub start_line: usize,
    pub end_line: usize,
}

impl UseItem {
    /// A declaration with the given visibility and nothing else yet.
    pub fn new(visibility: Option<Visibility>) -> (r: UseItem)
        ensures
            r.docs@.len() == 0,
            r.configs.wf(),
            r.configs@.len() == 0,
            opt_vis_view(r.visibility) == opt_vis_view(visibility),
            r.children@.len() == 0,
    {
        UseItem {
            docs: DocsList::new(),
            configs: ConfigsList::empty(),
            visibility,
            children: Vec::new(),
            start_line: 0,
            end_line: 0,
        }
    }

    /// The declaration that the syntax stands for, or why it is left alone:
    /// the first attribute other than an outer `cfg(...)` or `doc = "..."`,
    /// a visibility `pub(path)` other than `crate`, `self`, `super`, or `*`
    /// imported at the root.
    pub fn from_syn_use_item(item: &RawUseItem) -> (r: Result<UseItem, CreateUseItemError>)
        ensures
            match r {
                Ok(u) => {
                    &&& use_item_ok(item@)
                    &&& u.configs.wf()
                    &&& use_item_view(u) == use_item_of(item@)
                    &&& u.docs@ == attrs_docs(item@.0)
                    &&& opt_vis_view(u.visibility) == vis_result(item@.1)->Ok_0
                    &&& item_views(u.children@) == flat_root(item@.2, item@.3)->Some_0
                },
                Err(e) => !use_item_ok(item@) && e == (if first_attr_error(item@.0) is Some {
                    first_attr_error(item@.0)->Some_0
                } else if vis_result(item@.1) is Err {
                    vis_result(item@.1)->Err_0
                } else {
                    CreateUseItemError::UseStar
                }),
            },
    {
        let ghost attrs = attr_views(item.attrs@);
        let cfg_w: Vec<u8> = vec![99u8, 102, 103];
        let doc_w: Vec<u8> = vec![100u8, 111, 99];
        proof {
            assert(cfg_w@ =~= cfg_word());
            assert(doc_w@ =~= doc_word());
        }
        let mut docs = DocsList::new();
        let mut configs = ConfigsList::empty();
        let mut i: usize = 0;
        proof {
            assert(attrs.take(0) =~= Seq::<AttrView>::empty());
            assert(configs@.to_set() =~= Set::<Seq<u8>>::empty());
        }
        while i < item.attrs.len()
            invariant
                0 <= i <= attrs.len(),
                attrs == attr_views(item.attrs@),
                cfg_w@ == cfg_word(),
                doc_w@ == doc_word(),
                first_attr_error(attrs.take(i as int)) is None,
                docs@ == attrs_docs(attrs.take(i as int)),
                configs.wf(),
                configs@.to_set() == attrs_cfgs(attrs.take(i as int)),
            decreases attrs.len() - i,
        {
            proof {
                assert(attrs.take(i + 1).drop_last() =~= attrs.take(i as int));
                assert(attrs.take(i + 1).last() == attrs[i as int]);
            }
            let attr = &item.attrs[i];
            proof {
                assert(attrs[i as int] == attr@);
            }
            if attr.inner {
                proof {
                    lemma_first_error_stays(attrs, i as int + 1);
                }
                return Err(CreateUseItemError::InnerAttributes);
            }
            match &attr.meta {
                AttrMeta::List { path, paren, tokens } => {
                    if !*paren || !path_is_word(path, &cfg_w) {
                        proof {
                            lemma_first_error_stays(attrs, i as int + 1);
                        }
                        return Err(CreateUseItemError::UnrecognizedAttribute);
                    }
                    configs.insert(copy_bytes(tokens.as_slice()));
                    proof {
                        assert(docs@ =~= attrs_docs(attrs.take(i + 1)));
                    }
                },
                AttrMeta::NameValue { path, value } => {
                    if !path_is_word(path, &doc_w) {
                        proof {
                            lemma_first_error_stays(attrs, i as int + 1);
                        }
                        return Err(CreateUseItemError::UnrecognizedAttribute);
                    }
                    match value {
                        AttrValue::Str { attr_count, value } => {
                            if *attr_count != 0 {
                                proof {
                                    lemma_first_error_stays(attrs, i as int + 1);
                                }
                                return Err(CreateUseItemError::MalformedDocAttribute);
                            }
                            let ghost before = docs.blocks@;
                            docs.blocks.push(copy_bytes(value.as_slice()));
                            proof {
                                assert(seg_views(docs.blocks@) =~= seg_views(before).push(value@));
                                assert(docs@ =~= attrs_docs(attrs.take(i + 1)));
                            }
                        },
                        AttrValue::Other => {
                            proof {
                                lemma_first_error_stays(attrs, i as int + 1);
                            }
                            return Err(CreateUseItemError::MalformedDocAttribute);
                        },
                    }
                },
                AttrMeta::Path => {
                    proof {
                        lemma_first_error_stays(attrs, i as int + 1);
                    }
                    return Err(CreateUseItemError::UnrecognizedAttribute);
                },
            }
            i = i + 1;
        }
        proof {
            assert(attrs.take(i as int) =~= attrs);
        }
        let visibility = match Visibility::from_syn_vis(&item.vis) {
            Ok(v) => v,
            Err(e) => {
                return Err(e);
            },
        };
        let rooted = if item.leading_colon {
            Rooted::Rooted
        } else {
            Rooted::Unrooted
        };
        let mut children: Vec<SingleUsedItem> = Vec::new();
        if !build_use_item_children_root(&item.tree, rooted, &mut children) {
            return Err(CreateUseItemError::UseStar);
        }
        proof {
            assert(item_views(Seq::<SingleUsedItem>::empty()) =~= Seq::<crate::flattened::PathView>::empty());
            assert(Seq::<crate::flattened::PathView>::empty() + flat_root(item.leading_colon, item.tree@)->Some_0
                =~= flat_root(item.leading_colon, item.tree@)->Some_0);
        }
        Ok(UseItem {
            docs,
            configs,
            visibility,
            children,
            start_line: item.start_line,
            end_line: item.end_line,
        })
    }
}

proof fn lemma_first_error_stays(attrs: Seq<AttrView>, k: int)
    requires
        0 <= k <= attrs.len(),
        first_attr_error(attrs.take(k)) is Some,
    ensures
        first_attr_error(attrs) == first_attr_error(attrs.take(k)),
    decreases attrs.len() - k,
{
    if k == attrs.len() {
        assert(attrs.take(k) =~= attrs);
    } else {
        assert(attrs.take(k + 1).drop_last() =~= attrs.take(k));
        lemma_first_error_stays(attrs, k + 1);
    }
}

} // verus!
