use vstd::prelude::*;
use crate::id::{Id, id_cmp, key_cmp};
use crate::merge::{merge_with, sorted_by, agree};
use crate::style::{Style, StyleView, Expand, styles_view};

verus! {

/// Most elements a replica holds, so that widths counted in UTF-16 units fit
/// in `usize`.
pub const MAX_ELEMS: usize = usize::MAX / 4;

/// The unit in which positions are counted at the interface.
#[derive(PartialEq, Eq, Structural, Clone, Copy, Debug)]
pub enum IndexType {
    Codepoint,
    Utf16,
}

#[derive(PartialEq, Eq, Structural, Clone, Copy, Debug)]
pub enum RichTextError {
    IndexOutOfRange { target_index: usize, highest_index: usize },
}

/// One inserted character, kept after deletion as a tombstone.
pub struct Elem {
    pub key: Vec<Id>,
    pub ch: char,
    pub deleted: bool,
}

pub ghost struct ElemView {
    pub key: Seq<Id>,
    pub ch: char,
    pub deleted: bool,
}

impl View for Elem {
    type V = ElemView;

    open spec fn view(&self) -> ElemView {
        ElemView { key: self.key@, ch: self.ch, deleted: self.deleted }
    }
}

/// One end of an annotated range, bound to an element's key. An empty key is
/// the start of the document; `unbounded` is its end.
pub struct Anchor {
    pub key: Vec<Id>,
    pub inclusive: bool,
    pub unbounded: bool,
}

pub ghost struct AnchorView {
    pub key: Seq<Id>,
    pub inclusive: bool,
    pub unbounded: bool,
}

impl View for Anchor {
    type V = AnchorView;

    open spec fn view(&self) -> AnchorView {
        AnchorView { key: self.key@, inclusive: self.inclusive, unbounded: self.unbounded }
    }
}

/// One annotation: a style over the elements between two anchors.
pub struct Mark {
    pub id: Id,
    pub start: Anchor,
    pub end: Anchor,
    pub style: Style,
}

pub ghost struct MarkView {
    pub id: Id,
    pub start: AnchorView,
    pub end: AnchorView,
    pub style: StyleView,
}

impl View for Mark {
    type V = MarkView;

    open spec fn view(&self) -> MarkView {
        MarkView { id: self.id, start: self.start@, end: self.end@, style: self.style@ }
    }
}

/// A maximal run of visible text that carries one list of styles.
#[derive(Debug)]
pub struct Span {
    pub text: String,
    pub styles: Vec<Style>,
}

pub ghost struct SpanView {
    pub text: Seq<char>,
    pub styles: Seq<StyleView>,
}

impl View for Span {
    type V = SpanView;

    open spec fn view(&self) -> SpanView {
        SpanView { text: self.text@, styles: styles_view(self.styles@) }
    }
}

pub open spec fn spans_view(s: Seq<Span>) -> Seq<SpanView> {
    s.map_values(|x: Span| x@)
}

/// What a replica knows: every element in document order, and every
/// annotation in order of its id.
pub ghost struct TextState {
    pub elems: Seq<ElemView>,
    pub marks: Seq<MarkView>,
}

pub open spec fn elems_view(s: Seq<Elem>) -> Seq<ElemView> {
    s.map_values(|x: Elem| x@)
}

pub open spec fn marks_view(s: Seq<Mark>) -> Seq<MarkView> {
    s.map_values(|x: Mark| x@)
}

// ---------------------------------------------------------------------------
// Order and merge of replica states
pub open spec fn elem_cmp() -> spec_fn(ElemView, ElemView) -> int {
    |x: ElemView, y: ElemView| key_cmp(x.key, y.key)
}

/// An element deleted on either side stays deleted.
pub open spec fn elem_join() -> spec_fn(ElemView, ElemView) -> ElemView {
    |x: ElemView, y: ElemView| ElemView { key: x.key, ch: x.ch, deleted: x.deleted || y.deleted }
}

pub open spec fn mark_cmp() -> spec_fn(MarkView, MarkView) -> int {
    |x: MarkView, y: MarkView| id_cmp(x.id, y.id)
}

pub open spec fn mark_join() -> spec_fn(MarkView, MarkView) -> MarkView {
    |x: MarkView, y: MarkView| x
}

/// The state that holds what either replica knows.
pub open spec fn merged(a: TextState, b: TextState) -> TextState {
    TextState {
        elems: merge_with(a.elems, b.elems, elem_cmp(), elem_join()),
        marks: merge_with(a.marks, b.marks, mark_cmp(), mark_join()),
    }
}

/// Two replicas agree on every element and annotation they both know: an id
/// names the same character, and the same annotation, on both sides.
pub open spec fn compatible(a: TextState, b: TextState) -> bool {
    &&& agree(a.elems, b.elems, elem_cmp(), elem_join())
    &&& agree(a.marks, b.marks, mark_cmp(), mark_join())
}

/// Elements strictly in document order with non-empty keys; annotations
/// strictly in id order.
pub open spec fn state_wf(s: TextState) -> bool {
    &&& sorted_by(s.elems, elem_cmp())
    &&& sorted_by(s.marks, mark_cmp())
    &&& forall|i: int| 0 <= i < s.elems.len() ==> (#[trigger] s.elems[i]).key.len() > 0
}

// ---------------------------------------------------------------------------
// Visible text and index spaces
/// The characters of the elements that are not deleted, in order.
pub open spec fn visible(s: Seq<ElemView>) -> Seq<char>
    decreases s.len(),
{
    if s.len() == 0 {
        Seq::empty()
    } else if s.last().deleted {
        visible(s.drop_last())
    } else {
        visible(s.drop_last()).push(s.last().ch)
    }
}

pub open spec fn text_of(s: TextState) -> Seq<char> {
    visible(s.elems)
}

/// Units one character takes: UTF-16 counts a character outside the basic
/// plane as two.
pub open spec fn unit(c: char, kind: IndexType) -> int {
    if kind == IndexType::Utf16 && c as u32 >= 0x10000 {
        2
    } else {
        1
    }
}

pub open spec fn width(t: Seq<char>, kind: IndexType) -> int
    decreases t.len(),
{
    if t.len() == 0 {
        0
    } else {
        width(t.drop_last(), kind) + unit(t.last(), kind)
    }
}

/// `pos` falls between two characters of `t` (or at either end).
pub open spec fn is_boundary(t: Seq<char>, kind: IndexType, pos: int) -> bool {
    exists|n: int| 0 <= n <= t.len() && #[trigger] width(t.take(n), kind) == pos
}

/// `x` elements hold the first `n` visible characters, the last element among
/// them being live.
pub open spec fn at_boundary(s: Seq<ElemView>, n: int, x: int) -> bool {
    &&& 0 <= x <= s.len()
    &&& visible(s.take(x)).len() == n
    &&& (n == 0 ==> x == 0)
    &&& (n > 0 ==> x > 0 && !s[x - 1].deleted)
}

/// Index of the first live element at or after `i`, or the length.
pub open spec fn next_live(s: Seq<ElemView>, i: int) -> int
    decreases s.len() - i,
{
    if i < 0 || i >= s.len() {
        s.len() as int
    } else if !s[i].deleted {
        i
    } else {
        next_live(s, i + 1)
    }
}

/// The start anchor of a range that begins after `x` elements. A start that
/// expands binds after the previous character; otherwise it binds at the
/// first character of the range.
pub open spec fn start_anchor(s: Seq<ElemView>, x: int, expand: Expand) -> AnchorView {
    let j = next_live(s, x);
    if expand == Expand::Before || expand == Expand::Both || j >= s.len() {
        AnchorView {
            key: if x == 0 { Seq::empty() } else { s[x - 1].key },
            inclusive: false,
            unbounded: false,
        }
    } else {
        AnchorView { key: s[j].key, inclusive: true, unbounded: false }
    }
}

/// The end anchor of a range that ends after `x` elements. An end that
/// expands binds before the next character (or the end of the document);
/// otherwise it binds at the last character of the range.
pub open spec fn end_anchor(s: Seq<ElemView>, x: int, expand: Expand) -> AnchorView {
    let j = next_live(s, x);
    if expand == Expand::After || expand == Expand::Both {
        if j >= s.len() {
            AnchorView { key: Seq::empty(), inclusive: false, unbounded: true }
        } else {
            AnchorView { key: s[j].key, inclusive: false, unbounded: false }
        }
    } else {
        AnchorView {
            key: if x == 0 { Seq::empty() } else { s[x - 1].key },
            inclusive: true,
            unbounded: false,
        }
    }
}

/// Key of the element a position after `x` elements inserts under.
pub open spec fn parent_key(s: Seq<ElemView>, x: int) -> Seq<Id> {
    if x <= 0 {
        Seq::empty()
    } else {
        s[x - 1].key
    }
}

/// A freshly inserted element: live, holding `c`, with a key that extends
/// `parent` by ids newer than `clock`.
pub open spec fn fresh_child(e: ElemView, parent: Seq<Id>, clock: u64, c: char) -> bool {
    &&& !e.deleted
    &&& e.ch == c
    &&& e.key.len() > parent.len()
    &&& e.key.take(parent.len() as int) == parent
    &&& e.key[parent.len() as int].counter > clock
}

/// Key of the `q`-th character of a run inserted under `parent` by `actor`
/// whose clock stood at `clock`: each character extends the key of the one
/// before it (the first extends `parent`) by the id `(clock + q + 1, actor)`.
pub open spec fn run_key(parent: Seq<Id>, clock: u64, actor: u64, q: int) -> Seq<Id>
    decreases q,
{
    if q <= 0 {
        parent.push(Id { counter: (clock + 1) as u64, actor })
    } else {
        run_key(parent, clock, actor, q - 1).push(Id { counter: (clock + q + 1) as u64, actor })
    }
}

/// `after` is `before` with a run of fresh elements holding `text` placed
/// after its first `x` elements, made by `actor` at clock `clock`.
pub open spec fn inserted_at(
    before: Seq<ElemView>,
    after: Seq<ElemView>,
    x: int,
    clock: u64,
    actor: u64,
    text: Seq<char>,
) -> bool {
    &&& after.len() == before.len() + text.len()
    &&& after.take(x) == before.take(x)
    &&& after.skip(x + text.len()) == before.skip(x)
    &&& forall|q: int|
        0 <= q < text.len() ==> fresh_child(
            #[trigger] after[x + q],
            parent_key(before, x),
            clock,
            text[q],
        )
    &&& forall|q: int|
        0 <= q < text.len() ==> (#[trigger] after[x + q]).key == run_key(
            parent_key(before, x),
            clock,
            actor,
            q,
        )
}

/// `start..end` is a valid range of `t`.
pub open spec fn range_ok(t: Seq<char>, kind: IndexType, start: int, end: int) -> bool {
    start <= end && is_boundary(t, kind, start) && is_boundary(t, kind, end)
}

/// The error a range that is not valid gets.
pub open spec fn range_error(t: Seq<char>, kind: IndexType, start: usize, end: usize) -> RichTextError {
    RichTextError::IndexOutOfRange {
        target_index: if is_boundary(t, kind, start as int) && start <= end {
            end
        } else {
            start
        },
        highest_index: width(t, kind) as usize,
    }
}

pub proof fn lemma_visible_dead(s: Seq<ElemView>)
    requires
        forall|i: int| 0 <= i < s.len() ==> (#[trigger] s[i]).deleted,
    ensures
        visible(s) == Seq::<char>::empty(),
    decreases s.len(),
{
    if s.len() > 0 {
        lemma_visible_dead(s.drop_last());
    }
}

/// Prefixes at two boundaries: the characters between them are those of the
/// elements between them.
pub proof fn lemma_between(s: Seq<ElemView>, ns: int, xs: int, ne: int, xe: int)
    requires
        at_boundary(s, ns, xs),
        at_boundary(s, ne, xe),
        ns <= ne,
    ensures
        xs <= xe,
        visible(s.subrange(xs, xe)) == visible(s).subrange(ns, ne),
        visible(s.skip(xe)) == visible(s).skip(ne),
        visible(s.take(xs)) == visible(s).take(ns),
{
    lemma_visible_split(s, xs);
    lemma_visible_split(s, xe);
    if xe < xs {
        assert(s.take(xs) =~= s.take(xe) + s.subrange(xe, xs));
        lemma_visible_append(s.take(xe), s.subrange(xe, xs));
        if ns == ne {
            assert(ns > 0);
            assert(s.subrange(xe, xs).drop_last() =~= s.subrange(xe, xs - 1));
            assert(s.subrange(xe, xs).last() == s[xs - 1]);
        }
    } else {
        assert(s.take(xe) =~= s.take(xs) + s.subrange(xs, xe));
        lemma_visible_append(s.take(xs), s.subrange(xs, xe));
        assert(visible(s).subrange(ns, ne) =~= visible(s.take(xe)).skip(ns));
        assert(visible(s.take(xe)).skip(ns) =~= visible(s.subrange(xs, xe)));
    }
}

pub proof fn lemma_visible_append(a: Seq<ElemView>, b: Seq<ElemView>)
    ensures
        visible(a + b) == visible(a) + visible(b),
    decreases b.len(),
{
    if b.len() == 0 {
        assert(a + b =~= a);
        assert(visible(a) + visible(b) =~= visible(a));
    } else {
        assert((a + b).drop_last() =~= a + b.drop_last());
        lemma_visible_append(a, b.drop_last());
        assert((a + b).last() == b.last());
        if !b.last().deleted {
            assert((visible(a) + visible(b.drop_last())).push(b.last().ch) =~= visible(a) + visible(
                b.drop_last(),
            ).push(b.last().ch));
        }
    }
}

pub proof fn lemma_visible_len(s: Seq<ElemView>)
    ensures
        visible(s).len() <= s.len(),
    decreases s.len(),
{
    if s.len() > 0 {
        lemma_visible_len(s.drop_last());
    }
}

pub proof fn lemma_visible_split(s: Seq<ElemView>, i: int)
    requires
        0 <= i <= s.len(),
    ensures
        visible(s) == visible(s.take(i)) + visible(s.skip(i)),
        visible(s.take(i)) == visible(s).take(visible(s.take(i)).len() as int),
        visible(s.skip(i)) == visible(s).skip(visible(s.take(i)).len() as int),
{
    assert(s =~= s.take(i) + s.skip(i));
    lemma_visible_append(s.take(i), s.skip(i));
    assert(visible(s).take(visible(s.take(i)).len() as int) =~= visible(s.take(i)));
    assert(visible(s).skip(visible(s.take(i)).len() as int) =~= visible(s.skip(i)));
}

/// Visible text when every element is live.
pub proof fn lemma_visible_live(s: Seq<ElemView>)
    requires
        forall|i: int| 0 <= i < s.len() ==> !(#[trigger] s[i]).deleted,
    ensures
        visible(s) == s.map_values(|e: ElemView| e.ch),
    decreases s.len(),
{
    if s.len() > 0 {
        lemma_visible_live(s.drop_last());
        assert(s.map_values(|e: ElemView| e.ch) =~= s.drop_last().map_values(|e: ElemView| e.ch).push(
            s.last().ch,
        ));
    } else {
        assert(s.map_values(|e: ElemView| e.ch) =~= Seq::<char>::empty());
    }
}

pub proof fn lemma_width_append(a: Seq<char>, b: Seq<char>, kind: IndexType)
    ensures
        width(a + b, kind) == width(a, kind) + width(b, kind),
    decreases b.len(),
{
    if b.len() == 0 {
        assert(a + b =~= a);
    } else {
        assert((a + b).drop_last() =~= a + b.drop_last());
        lemma_width_append(a, b.drop_last(), kind);
    }
}

pub proof fn lemma_width_bounds(t: Seq<char>, kind: IndexType)
    ensures
        t.len() <= width(t, kind) <= 2 * t.len(),
        kind == IndexType::Codepoint ==> width(t, kind) == t.len(),
    decreases t.len(),
{
    if t.len() > 0 {
        lemma_width_bounds(t.drop_last(), kind);
    }
}

/// Widths of prefixes grow strictly with their length.
pub proof fn lemma_width_prefix(t: Seq<char>, m1: int, m2: int, kind: IndexType)
    requires
        0 <= m1 <= m2 <= t.len(),
    ensures
        width(t.take(m2), kind) >= width(t.take(m1), kind) + (m2 - m1),
{
    assert(t.take(m2) =~= t.take(m1) + t.subrange(m1, m2));
    lemma_width_append(t.take(m1), t.subrange(m1, m2), kind);
    lemma_width_bounds(t.subrange(m1, m2), kind);
}

/// A boundary names one prefix only.
pub proof fn lemma_boundary_unique(t: Seq<char>, kind: IndexType, m1: int, m2: int)
    requires
        0 <= m1 <= t.len(),
        0 <= m2 <= t.len(),
        width(t.take(m1), kind) == width(t.take(m2), kind),
    ensures
        m1 == m2,
{
    if m1 < m2 {
        lemma_width_prefix(t, m1, m2, kind);
    } else if m2 < m1 {
        lemma_width_prefix(t, m2, m1, kind);
    }
}

} // verus!
