use vstd::prelude::*;
use crate::id::{Id, id_cmp, key_cmp, key_below, compare_keys, copy_key};
use crate::merge::{merge_with, sorted_by};
use crate::model::{
    Anchor, Elem, ElemView, IndexType, Mark, MarkView, RichTextError, Span, SpanView, TextState,
    MAX_ELEMS, at_boundary, elem_cmp, elem_join, elems_view, end_anchor, inserted_at, is_boundary,
    lemma_between, lemma_visible_append, lemma_visible_dead, lemma_visible_len,
    lemma_visible_live, lemma_visible_split, lemma_width_bounds, lemma_width_prefix, mark_cmp,
    mark_join, marks_view, merged, next_live, parent_key, fresh_child, run_key, range_error, range_ok,
    spans_view, start_anchor, state_wf, text_of, unit, visible, width,
};
use crate::spans::{runs, items, spans_of, styles_for, maximal_runs, lemma_runs_maximal};
use crate::style::{Style, Expand, styles_view, same_style_set};

verus! {

pub proof fn lemma_key_below_mono(k: Seq<Id>, c1: u64, c2: u64)
    requires
        key_below(k, c1),
        c1 <= c2,
    ensures
        key_below(k, c2),
{
    assert forall|i: int| 0 <= i < k.len() implies (#[trigger] k[i]).counter <= c2 by {
        assert(k[i].counter <= c1);
    }
}

/// An element whose key extends its parent's by a fresh id goes right after
/// the parent, and the order stays strict.
pub proof fn lemma_insert_sorted(s: Seq<ElemView>, p: int, e: ElemView, n: Id, clock: u64)
    requires
        sorted_by(s, elem_cmp()),
        forall|i: int| 0 <= i < s.len() ==> (#[trigger] s[i]).key.len() > 0,
        forall|i: int| 0 <= i < s.len() ==> key_below(#[trigger] s[i].key, clock),
        n.counter > clock,
        -1 <= p < s.len(),
        e.key == (if p >= 0 { s[p].key } else { Seq::<Id>::empty() }).push(n),
    ensures
        sorted_by(s.insert(p + 1, e), elem_cmp()),
{
    let parent = if p >= 0 { s[p].key } else { Seq::<Id>::empty() };
    assert forall|i: int| 0 <= i < s.len() implies (i <= p ==> key_cmp(s[i].key, e.key) < 0) && (i
        > p ==> key_cmp(e.key, s[i].key) < 0) by {
        crate::id::lemma_key_extend(parent, n, s[i].key, clock);
        if i < p {
            assert(elem_cmp()(s[i], s[p]) < 0);
        } else if i == p {
            crate::id::lemma_key_cmp_refl(parent);
        } else if p >= 0 {
            assert(elem_cmp()(s[p], s[i]) < 0);
        } else {
            assert(key_cmp(parent, s[i].key) == -1);
        }
    }
    let u = s.insert(p + 1, e);
    assert forall|a: int, b: int| 0 <= a < b < u.len() implies #[trigger] elem_cmp()(u[a], u[b]) < 0 by {
        if b < p + 1 {
            assert(elem_cmp()(s[a], s[b]) < 0);
        } else if b == p + 1 {
            assert(u[a] == s[a]);
        } else if a < p + 1 {
            assert(u[b] == s[b - 1]);
            assert(key_cmp(s[a].key, e.key) < 0);
            assert(key_cmp(e.key, s[b - 1].key) < 0);
            crate::id::lemma_key_cmp_trans(s[a].key, e.key, s[b - 1].key);
        } else if a == p + 1 {
            assert(u[b] == s[b - 1]);
        } else {
            assert(elem_cmp()(s[a - 1], s[b - 1]) < 0);
        }
    }
}

pub proof fn lemma_elem_order()
    ensures
        crate::merge::total_order(elem_cmp()),
        crate::merge::join_laws(elem_cmp(), elem_join()),
{
    assert forall|x: ElemView, y: ElemView| #[trigger] elem_cmp()(x, y) == -elem_cmp()(y, x) by {
        crate::id::lemma_key_cmp_range(x.key, y.key);
    }
    assert forall|x: ElemView| #[trigger] elem_cmp()(x, x) == 0 by {
        crate::id::lemma_key_cmp_refl(x.key);
    }
    assert forall|x: ElemView, y: ElemView, z: ElemView|
        #![trigger elem_cmp()(x, y), elem_cmp()(y, z)]
        elem_cmp()(x, y) <= 0 && elem_cmp()(y, z) <= 0 implies elem_cmp()(x, z) <= 0 && (elem_cmp()(
            x,
            y,
        ) < 0 || elem_cmp()(y, z) < 0 ==> elem_cmp()(x, z) < 0) by {
        crate::id::lemma_key_cmp_trans(x.key, y.key, z.key);
    }
}

pub proof fn lemma_mark_order()
    ensures
        crate::merge::total_order(mark_cmp()),
        crate::merge::join_laws(mark_cmp(), mark_join()),
{
}

pub proof fn lemma_merge_len<T>(
    a: Seq<T>,
    b: Seq<T>,
    cmp: spec_fn(T, T) -> int,
    join: spec_fn(T, T) -> T,
)
    ensures
        merge_with(a, b, cmp, join).len() <= a.len() + b.len(),
    decreases a.len() + b.len(),
{
    if a.len() > 0 && b.len() > 0 {
        lemma_merge_len(a.drop_first(), b, cmp, join);
        lemma_merge_len(a, b.drop_first(), cmp, join);
        lemma_merge_len(a.drop_first(), b.drop_first(), cmp, join);
    }
}

proof fn lemma_merge_step<T>(
    a: Seq<T>,
    b: Seq<T>,
    i: int,
    j: int,
    cmp: spec_fn(T, T) -> int,
    join: spec_fn(T, T) -> T,
)
    requires
        0 <= i < a.len(),
        0 <= j < b.len(),
    ensures
        merge_with(a.skip(i), b.skip(j), cmp, join) == (if cmp(a[i], b[j]) < 0 {
            seq![a[i]] + merge_with(a.skip(i + 1), b.skip(j), cmp, join)
        } else if cmp(a[i], b[j]) > 0 {
            seq![b[j]] + merge_with(a.skip(i), b.skip(j + 1), cmp, join)
        } else {
            seq![join(a[i], b[j])] + merge_with(a.skip(i + 1), b.skip(j + 1), cmp, join)
        }),
{
    assert(a.skip(i).drop_first() =~= a.skip(i + 1));
    assert(b.skip(j).drop_first() =~= b.skip(j + 1));
    assert(a.skip(i)[0] == a[i]);
    assert(b.skip(j)[0] == b[j]);
}

fn copy_elem(e: &Elem) -> (r: Elem)
    ensures
        r@ == e@,
{
    Elem { key: copy_key(&e.key), ch: e.ch, deleted: e.deleted }
}

fn copy_anchor(a: &Anchor) -> (r: Anchor)
    ensures
        r@ == a@,
{
    Anchor { key: copy_key(&a.key), inclusive: a.inclusive, unbounded: a.unbounded }
}

fn copy_mark(m: &Mark) -> (r: Mark)
    ensures
        r@ == m@,
{
    Mark { id: m.id, start: copy_anchor(&m.start), end: copy_anchor(&m.end), style: m.style.copy() }
}

/// Compares two ids.
pub fn compare_ids(a: Id, b: Id) -> (r: i8)
    ensures
        r as int == id_cmp(a, b),
{
    if a.counter < b.counter {
        -1
    } else if a.counter > b.counter {
        1
    } else if a.actor < b.actor {
        -1
    } else if a.actor > b.actor {
        1
    } else {
        0
    }
}

/// Union of two element lists in document order.
fn merge_elems(a: &Vec<Elem>, b: &Vec<Elem>) -> (r: Vec<Elem>)
    ensures
        elems_view(r@) == merge_with(elems_view(a@), elems_view(b@), elem_cmp(), elem_join()),
{
    let ghost va = elems_view(a@);
    let ghost vb = elems_view(b@);
    let ghost total = merge_with(va, vb, elem_cmp(), elem_join());
    let mut out: Vec<Elem> = Vec::new();
    let mut i: usize = 0;
    let mut j: usize = 0;
    proof {
        assert(va.skip(0) =~= va);
        assert(vb.skip(0) =~= vb);
        assert(elems_view(out@) + total =~= total);
    }
    while i < a.len() || j < b.len()
        invariant
            va == elems_view(a@),
            vb == elems_view(b@),
            i <= a.len(),
            j <= b.len(),
            total == elems_view(out@) + merge_with(va.skip(i as int), vb.skip(j as int), elem_cmp(), elem_join()),
        decreases a.len() + b.len() - i - j,
    {
        let ghost before = elems_view(out@);
        if i < a.len() && j < b.len() {
            proof {
                lemma_merge_step(va, vb, i as int, j as int, elem_cmp(), elem_join());
            }
            let c = compare_keys(&a[i].key, &b[j].key);
            if c < 0 {
                out.push(copy_elem(&a[i]));
                i = i + 1;
            } else if c > 0 {
                out.push(copy_elem(&b[j]));
                j = j + 1;
            } else {
                out.push(Elem { key: copy_key(&a[i].key), ch: a[i].ch, deleted: a[i].deleted || b[j].deleted });
                i = i + 1;
                j = j + 1;
            }
        } else if i < a.len() {
            proof {
                assert(vb.skip(j as int).len() == 0);
                assert(va.skip(i as int) =~= seq![va[i as int]] + va.skip(i + 1));
            }
            out.push(copy_elem(&a[i]));
            i = i + 1;
        } else {
            proof {
                assert(va.skip(i as int).len() == 0);
                assert(vb.skip(j as int) =~= seq![vb[j as int]] + vb.skip(j + 1));
            }
            out.push(copy_elem(&b[j]));
            j = j + 1;
        }
        proof {
            let last = elems_view(out@).last();
            assert(elems_view(out@) =~= before.push(last));
            assert(before.push(last) + merge_with(va.skip(i as int), vb.skip(j as int), elem_cmp(), elem_join())
                =~= before + (seq![last] + merge_with(va.skip(i as int), vb.skip(j as int), elem_cmp(), elem_join())));
        }
    }
    proof {
        assert(va.skip(i as int).len() == 0);
        assert(vb.skip(j as int).len() == 0);
        assert(elems_view(out@) + Seq::<ElemView>::empty() =~= elems_view(out@));
    }
    out
}

/// Union of two annotation lists in id order.
fn merge_marks(a: &Vec<Mark>, b: &Vec<Mark>) -> (r: Vec<Mark>)
    ensures
        marks_view(r@) == merge_with(marks_view(a@), marks_view(b@), mark_cmp(), mark_join()),
{
    let ghost va = marks_view(a@);
    let ghost vb = marks_view(b@);
    let ghost total = merge_with(va, vb, mark_cmp(), mark_join());
    let mut out: Vec<Mark> = Vec::new();
    let mut i: usize = 0;
    let mut j: usize = 0;
    proof {
        assert(va.skip(0) =~= va);
        assert(vb.skip(0) =~= vb);
        assert(marks_view(out@) + total =~= total);
    }
    while i < a.len() || j < b.len()
        invariant
            va == marks_view(a@),
            vb == marks_view(b@),
            i <= a.len(),
            j <= b.len(),
            total == marks_view(out@) + merge_with(va.skip(i as int), vb.skip(j as int), mark_cmp(), mark_join()),
        decreases a.len() + b.len() - i - j,
    {
        let ghost before = marks_view(out@);
        if i < a.len() && j < b.len() {
            proof {
                lemma_merge_step(va, vb, i as int, j as int, mark_cmp(), mark_join());
            }
            let c = compare_ids(a[i].id, b[j].id);
            if c < 0 {
                out.push(copy_mark(&a[i]));
                i = i + 1;
            } else if c > 0 {
                out.push(copy_mark(&b[j]));
                j = j + 1;
            } else {
                out.push(copy_mark(&a[i]));
                i = i + 1;
                j = j + 1;
            }
        } else if i < a.len() {
            proof {
                assert(vb.skip(j as int).len() == 0);
                assert(va.skip(i as int) =~= seq![va[i as int]] + va.skip(i + 1));
            }
            out.push(copy_mark(&a[i]));
            i = i + 1;
        } else {
            proof {
                assert(va.skip(i as int).len() == 0);
                assert(vb.skip(j as int) =~= seq![vb[j as int]] + vb.skip(j + 1));
            }
            out.push(copy_mark(&b[j]));
            j = j + 1;
        }
        proof {
            let last = marks_view(out@).last();
            assert(marks_view(out@) =~= before.push(last));
            assert(before.push(last) + merge_with(va.skip(i as int), vb.skip(j as int), mark_cmp(), mark_join())
                =~= before + (seq![last] + merge_with(va.skip(i as int), vb.skip(j as int), mark_cmp(), mark_join())));
        }
    }
    proof {
        assert(va.skip(i as int).len() == 0);
        assert(vb.skip(j as int).len() == 0);
        assert(marks_view(out@) + Seq::<MarkView>::empty() =~= marks_view(out@));
    }
    out
}

// ---------------------------------------------------------------------------
// The replica
/// One replica of the rich text.
pub struct RichText {
    actor: u64,
    clock: u64,
    index_type: IndexType,
    elems: Vec<Elem>,
    marks: Vec<Mark>,
}

/// A replica is viewed as what it knows; its actor, clock and index space
/// sit beside that view.
impl View for RichText {
    type V = TextState;

    closed spec fn view(&self) -> TextState {
        TextState { elems: elems_view(self.elems@), marks: marks_view(self.marks@) }
    }
}

impl RichText {
    /// Highest Lamport counter this replica has seen.
    pub closed spec fn clock(&self) -> u64 {
        self.clock
    }

    /// The replica's actor id.
    pub closed spec fn actor(&self) -> u64 {
        self.actor
    }

    /// The index space positions are counted in.
    pub closed spec fn kind(&self) -> IndexType {
        self.index_type
    }

    /// The replica's invariant: its state is well formed, within size, and
    /// every id it holds is no newer than its clock.
    pub closed spec fn wf(&self) -> bool {
        &&& state_wf(self@)
        &&& self.elems.len() <= MAX_ELEMS
        &&& forall|i: int|
            0 <= i < self.elems.len() ==> key_below(#[trigger] self.elems@[i].key@, self.clock)
        &&& forall|i: int| 0 <= i < self.marks.len() ==> (#[trigger] self.marks@[i]).id.counter <= self.clock
    }

    /// What the invariant gives a caller: a well-formed state within size,
    /// whose ids are no newer than the clock.
    pub proof fn lemma_wf(&self)
        requires
            self.wf(),
        ensures
            state_wf(self@),
            self@.elems.len() <= MAX_ELEMS,
            forall|i: int| 0 <= i < self@.elems.len() ==> key_below(#[trigger] self@.elems[i].key, self.clock()),
            forall|i: int| 0 <= i < self@.marks.len() ==> (#[trigger] self@.marks[i]).id.counter <= self.clock(),
    {
        assert forall|i: int| 0 <= i < self@.elems.len() implies key_below(#[trigger] self@.elems[i].key, self.clock()) by {
            assert(self@.elems[i] == self.elems@[i]@);
        }
        assert forall|i: int| 0 <= i < self@.marks.len() implies (#[trigger] self@.marks[i]).id.counter <= self.clock() by {
            assert(self@.marks[i] == self.marks@[i]@);
        }
    }

    /// Current visible text.
    pub open spec fn text(&self) -> Seq<char> {
        text_of(self@)
    }

    /// An empty replica for actor `id`, counting positions in UTF-16 units.
    pub fn new(id: u64) -> (r: RichText)
        ensures
            r.wf(),
            r.actor() == id,
            r.clock() == 0,
            r.kind() == IndexType::Utf16,
            r@.elems.len() == 0,
            r@.marks.len() == 0,
            r.text().len() == 0,
    {
        let r = RichText {
            actor: id,
            clock: 0,
            index_type: IndexType::Utf16,
            elems: Vec::new(),
            marks: Vec::new(),
        };
        assert(r@.elems =~= Seq::<ElemView>::empty());
        assert(r@.marks =~= Seq::<MarkView>::empty());
        r
    }

    /// The replica's actor id.
    pub fn id(&self) -> (r: u64)
        ensures
            r == self.actor(),
    {
        self.actor
    }

    pub fn index_type(&self) -> (r: IndexType)
        ensures
            r == self.kind(),
    {
        self.index_type
    }

    /// Counts positions of all later calls in `kind`.
    pub fn set_index_type(&mut self, kind: IndexType)
        ensures
            final(self).kind() == kind,
            final(self)@ == old(self)@,
            final(self).actor() == old(self).actor(),
            final(self).clock() == old(self).clock(),
            old(self).wf() ==> final(self).wf(),
    {
        self.index_type = kind;
    }

    /// Finds where `pos` falls: the number of visible characters before it,
    /// and the number of elements up to and including the last of them.
    fn locate(&self, pos: usize) -> (r: Option<(usize, usize)>)
        requires
            self.wf(),
        ensures
            r is Some <==> is_boundary(self.text(), self.kind(), pos as int),
            r matches Some(p) ==> {
                &&& p.0 <= self.text().len()
                &&& p.1 <= self@.elems.len()
                &&& width(self.text().take(p.0 as int), self.kind()) == pos
                &&& visible(self@.elems.take(p.1 as int)) == self.text().take(p.0 as int)
                &&& at_boundary(self@.elems, p.0 as int, p.1 as int)
            },
    {
        let ghost t = self.text();
        let ghost kind = self.kind();
        if pos == 0 {
            proof {
                assert(t.take(0) =~= Seq::<char>::empty());
                assert(self@.elems.take(0) =~= Seq::<ElemView>::empty());
                assert(width(t.take(0), kind) == 0);
            }
            return Some((0, 0));
        }
        let mut i: usize = 0;
        let mut n: usize = 0;
        let mut w: usize = 0;
        proof {
            assert(t.take(0) =~= Seq::<char>::empty());
            assert(self@.elems.take(0) =~= Seq::<ElemView>::empty());
        }
        while i < self.elems.len()
            invariant
                self.wf(),
                t == self.text(),
                kind == self.kind(),
                0 < pos,
                i <= self.elems.len(),
                n <= i,
                n <= t.len(),
                visible(self@.elems.take(i as int)) == t.take(n as int),
                w == width(t.take(n as int), kind),
                w < pos,
            decreases self.elems.len() - i,
        {
            proof {
                lemma_visible_split(self@.elems, i + 1);
                lemma_visible_len(self@.elems.take(i + 1));
                lemma_width_bounds(t.take(n as int), kind);
                assert(self@.elems.take(i + 1).drop_last() =~= self@.elems.take(i as int));
                assert(self@.elems.take(i + 1).last() == self.elems@[i as int]@);
            }
            if !self.elems[i].deleted {
                proof {
                    assert(t.take(n + 1) =~= t.take(n as int).push(self.elems@[i as int].ch));
                    assert(t.take(n + 1).drop_last() =~= t.take(n as int));
                }
                let u = unit_of(self.elems[i].ch, self.index_type);
                let ghost n0 = n;
                w = w + u;
                n = n + 1;
                proof {
                    assert(visible(self@.elems.take(i + 1)) =~= t.take(n as int));
                    assert(width(t.take(n as int), kind) == w);
                }
                if w == pos {
                    proof {
                        assert(is_boundary(t, kind, pos as int));
                    }
                    return Some((n, i + 1));
                }
                if w > pos {
                    proof {
                        assert forall|m: int| 0 <= m <= t.len() implies #[trigger] width(
                            t.take(m),
                            kind,
                        ) != pos by {
                            if m <= n0 {
                                lemma_width_prefix(t, m, n0 as int, kind);
                            } else {
                                lemma_width_prefix(t, n as int, m, kind);
                            }
                        }
                    }
                    return None;
                }
            }
            i = i + 1;
        }
        proof {
            assert(self@.elems.take(i as int) =~= self@.elems);
            assert(n == t.len());
            assert forall|m: int| 0 <= m <= t.len() implies #[trigger] width(t.take(m), kind)
                != pos by {
                lemma_width_prefix(t, m, n as int, kind);
            }
        }
        None
    }

    /// Inserts `text` so that it starts at visible position `index`.
    pub fn insert(&mut self, index: usize, text: &str) -> (r: Result<(), RichTextError>)
        requires
            old(self).wf(),
            old(self)@.elems.len() + text@.len() <= MAX_ELEMS,
            old(self).clock() + text@.len() <= u64::MAX,
        ensures
            final(self).wf(),
            final(self).actor() == old(self).actor(),
            final(self).kind() == old(self).kind(),
            final(self)@.marks == old(self)@.marks,
            r is Ok ==> final(self).clock() == old(self).clock() + text@.len()
                && final(self)@.elems.len() == old(self)@.elems.len() + text@.len(),
            is_boundary(old(self).text(), old(self).kind(), index as int) ==> {
                &&& r is Ok
                &&& exists|n: int|
                    0 <= n <= old(self).text().len() && #[trigger] width(
                        old(self).text().take(n),
                        old(self).kind(),
                    ) == index && final(self).text() == old(self).text().take(n) + text@ + old(
                        self,
                    ).text().skip(n)
                &&& exists|n: int, x: int|
                    #[trigger] at_boundary(old(self)@.elems, n, x) && inserted_at(
                        old(self)@.elems,
                        final(self)@.elems,
                        x,
                        old(self).clock(),
                        old(self).actor(),
                        text@,
                    ) && width(old(self).text().take(n), old(self).kind()) == index
            },
            !is_boundary(old(self).text(), old(self).kind(), index as int) ==> {
                &&& r == Err::<(), RichTextError>(
                    RichTextError::IndexOutOfRange {
                        target_index: index,
                        highest_index: width(old(self).text(), old(self).kind()) as usize,
                    },
                )
                &&& final(self)@ == old(self)@
                &&& final(self).clock() == old(self).clock()
            },
    {
        let loc = self.locate(index);
        let (n, x) = match loc {
            None => {
                let h = self.len();
                return Err(RichTextError::IndexOutOfRange { target_index: index, highest_index: h });
            },
            Some(p) => p,
        };
        let chars = chars_of(text);
        let ghost s0 = self@.elems;
        let ghost t = self.text();
        let ghost clock0 = self.clock;
        let mut parent: Vec<Id> = if x == 0 {
            Vec::new()
        } else {
            copy_key(&self.elems[x - 1].key)
        };
        let ghost p0 = parent@;
        let mut k: usize = 0;
        proof {
            assert(self@.elems.take(x as int) =~= s0.take(x as int));
            assert(self@.elems.skip(x as int) =~= s0.skip(x as int));
        }
        while k < chars.len()
            invariant
                k <= chars.len(),
                chars@ == text@,
                x <= s0.len(),
                s0.len() + chars.len() <= MAX_ELEMS,
                clock0 + chars.len() <= u64::MAX,
                self.clock == clock0 + k,
                self.actor == old(self).actor,
                self.index_type == old(self).index_type,
                self@.marks == old(self)@.marks,
                self.marks@ == old(self).marks@,
                self.elems.len() == s0.len() + k,
                self@.elems.take(x as int) == s0.take(x as int),
                self@.elems.skip(x + k) == s0.skip(x as int),
                forall|q: int|
                    0 <= q < k ==> !(#[trigger] self@.elems[x + q]).deleted && self@.elems[x
                        + q].ch == chars@[q],
                parent@ == (if x + k == 0 {
                    Seq::<Id>::empty()
                } else {
                    self@.elems[x + k - 1].key
                }),
                p0 == parent_key(s0, x as int),
                forall|q: int|
                    0 <= q < k ==> fresh_child(#[trigger] self@.elems[x + q], p0, clock0, chars@[q]),
                forall|q: int|
                    0 <= q < k ==> (#[trigger] self@.elems[x + q]).key == run_key(
                        p0,
                        clock0,
                        self.actor,
                        q,
                    ),
                state_wf(self@),
                forall|i: int|
                    0 <= i < self.elems.len() ==> key_below(#[trigger] self.elems@[i].key@, self.clock),
                forall|i: int|
                    0 <= i < self.marks.len() ==> (#[trigger] self.marks@[i]).id.counter
                        <= self.clock,
            decreases chars.len() - k,
        {
            let c = chars[k];
            proof {
                if k == 0 && x > 0 {
                    assert(self@.elems[x - 1] == self@.elems.take(x as int)[x - 1]);
                    assert(s0.take(x as int)[x - 1] == s0[x - 1]);
                }
            }
            let ghost pk = parent@;
            let nid = Id { counter: self.clock + 1, actor: self.actor };
            let mut key = copy_key(&parent);
            key.push(nid);
            let e = Elem { key, ch: c, deleted: false };
            let ghost ev = e@;
            let ghost before = self@.elems;
            let ghost bv = self.elems@;
            proof {
                assert forall|i: int| 0 <= i < before.len() implies key_below(
                    #[trigger] before[i].key,
                    self.clock,
                ) by {
                    assert(before[i].key == self.elems@[i].key@);
                }
                lemma_insert_sorted(before, x + k - 1, ev, nid, self.clock);
                assert(before.len() == self.elems.len());
            }
            self.elems.insert(x + k, e);
            proof {
                bv.insert_ensures(x + k, e);
                before.insert_ensures(x + k, ev);
                assert(self@.elems =~= before.insert(x + k, ev));
            }
            parent = copy_key(&self.elems[x + k].key);
            self.clock = self.clock + 1;
            k = k + 1;
            proof {
                let u = self@.elems;
                assert(u.take(x as int) =~= before.take(x as int));
                assert(u.skip(x + k) =~= before.skip(x + k - 1));
                assert forall|i: int| 0 <= i < self.elems.len() implies key_below(
                    #[trigger] self.elems@[i].key@,
                    self.clock,
                ) by {
                    if i < x + k - 1 {
                        assert(self.elems@[i].key@ == before[i].key);
                        lemma_key_below_mono(before[i].key, (self.clock - 1) as u64, self.clock);
                    } else if i > x + k - 1 {
                        assert(self.elems@[i].key@ == before[i - 1].key);
                        lemma_key_below_mono(before[i - 1].key, (self.clock - 1) as u64, self.clock);
                    } else {
                        let pk = if x + k - 1 == 0 {
                            Seq::<Id>::empty()
                        } else {
                            before[x + k - 2].key
                        };
                        assert(self.elems@[i].key@ == pk.push(nid));
                        if x + k - 1 > 0 {
                            lemma_key_below_mono(pk, (self.clock - 1) as u64, self.clock);
                        }
                        assert forall|j: int| 0 <= j < pk.push(nid).len() implies (#[trigger] pk.push(
                            nid,
                        )[j]).counter <= self.clock by {
                            if j < pk.len() {
                                assert(pk.push(nid)[j] == pk[j]);
                            }
                        }
                    }
                }
                assert forall|i: int| 0 <= i < self.elems.len() implies (
                #[trigger] self@.elems[i]).key.len() > 0 by {
                    if i < x + k - 1 {
                        assert(self@.elems[i] == before[i]);
                    } else if i > x + k - 1 {
                        assert(self@.elems[i] == before[i - 1]);
                    }
                }
                assert forall|q: int| 0 <= q < k implies !(#[trigger] self@.elems[x + q]).deleted
                    && self@.elems[x + q].ch == chars@[q] by {
                    if q < k - 1 {
                        assert(self@.elems[x + q] == before[x + q]);
                    }
                }
                assert forall|q: int| 0 <= q < k implies fresh_child(
                    #[trigger] self@.elems[x + q],
                    p0,
                    clock0,
                    chars@[q],
                ) by {
                    if q < k - 1 {
                        assert(self@.elems[x + q] == before[x + q]);
                    } else {
                        let nk = self@.elems[x + q].key;
                        if k == 1 {
                            assert(pk == p0);
                            assert(nk =~= p0.push(nid));
                            assert(nk.take(p0.len() as int) =~= p0);
                        } else {
                            let prev = before[x + k - 2].key;
                            assert(before[x + k - 2] == self@.elems[x + (k - 2)]);
                            assert(nk =~= prev.push(nid));
                            assert(nk.take(p0.len() as int) =~= prev.take(p0.len() as int));
                            assert(nk[p0.len() as int] == prev[p0.len() as int]);
                        }
                    }
                }
                assert forall|q: int| 0 <= q < k implies (#[trigger] self@.elems[x + q]).key
                    == run_key(p0, clock0, self.actor, q) by {
                    if q < k - 1 {
                        assert(self@.elems[x + q] == before[x + q]);
                    } else if k == 1 {
                        assert(pk == p0);
                    } else {
                        assert(before[x + k - 2] == self@.elems[x + (k - 2)]);
                    }
                }
            }
        }
        proof {
            let u = self@.elems;
            let mid = u.subrange(x as int, x + k);
            assert(u =~= u.take(x as int) + mid + u.skip(x + k));
            assert forall|q: int| 0 <= q < mid.len() implies !(#[trigger] mid[q]).deleted by {
                assert(mid[q] == u[x + q]);
            }
            lemma_visible_live(mid);
            let chs = mid.map_values(|e: ElemView| e.ch);
            assert forall|q: int| 0 <= q < mid.len() implies #[trigger] chs[q] == text@[q] by {
                assert(mid[q] == u[x + q]);
            }
            assert(chs =~= text@);
            lemma_visible_append(u.take(x as int) + mid, u.skip(x + k));
            lemma_visible_append(u.take(x as int), mid);
            lemma_visible_split(s0, x as int);
            assert(width(t.take(n as int), old(self).kind()) == index);
            assert(u.take(x as int) =~= s0.take(x as int));
            assert(at_boundary(s0, n as int, x as int));
            assert(inserted_at(s0, u, x as int, clock0, self.actor, text@));
        }
        Ok(())
    }

    /// Resolves `start..end` to boundaries, or to the error the range gets.
    fn resolve(&self, start: usize, end: usize) -> (r: Result<(usize, usize, usize, usize), RichTextError>)
        requires
            self.wf(),
        ensures
            range_ok(self.text(), self.kind(), start as int, end as int) <==> r is Ok,
            r is Err ==> r == Err::<(usize, usize, usize, usize), RichTextError>(
                range_error(self.text(), self.kind(), start, end),
            ),
            r matches Ok(q) ==> {
                &&& q.0 <= q.2 <= self.text().len()
                &&& width(self.text().take(q.0 as int), self.kind()) == start
                &&& width(self.text().take(q.2 as int), self.kind()) == end
                &&& at_boundary(self@.elems, q.0 as int, q.1 as int)
                &&& at_boundary(self@.elems, q.2 as int, q.3 as int)
            },
    {
        let ghost t = self.text();
        let ghost kind = self.kind();
        let a = self.locate(start);
        match a {
            None => {
                let h = self.len();
                Err(RichTextError::IndexOutOfRange { target_index: start, highest_index: h })
            },
            Some(p) => {
                if start > end {
                    let h = self.len();
                    return Err(RichTextError::IndexOutOfRange { target_index: start, highest_index: h });
                }
                match self.locate(end) {
                    None => {
                        let h = self.len();
                        Err(RichTextError::IndexOutOfRange { target_index: end, highest_index: h })
                    },
                    Some(q) => {
                        proof {
                            if q.0 < p.0 {
                                lemma_width_prefix(t, q.0 as int, p.0 as int, kind);
                            }
                        }
                        Ok((p.0, p.1, q.0, q.1))
                    },
                }
            },
        }
    }

    /// Deletes the visible characters in `range`; they stay as tombstones.
    pub fn delete(&mut self, range: std::ops::Range<usize>) -> (r: Result<(), RichTextError>)
        requires
            old(self).wf(),
        ensures
            final(self).wf(),
            final(self).actor() == old(self).actor(),
            final(self).kind() == old(self).kind(),
            final(self).clock() == old(self).clock(),
            final(self)@.marks == old(self)@.marks,
            final(self)@.elems.len() == old(self)@.elems.len(),
            forall|i: int|
                0 <= i < old(self)@.elems.len() ==> (#[trigger] final(self)@.elems[i]).key == old(
                    self,
                )@.elems[i].key && final(self)@.elems[i].ch == old(self)@.elems[i].ch && (old(
                    self,
                )@.elems[i].deleted ==> final(self)@.elems[i].deleted),
            range_ok(old(self).text(), old(self).kind(), range.start as int, range.end as int) ==> {
                &&& r is Ok
                &&& exists|ns: int, ne: int|
                    0 <= ns <= ne <= old(self).text().len() && #[trigger] width(
                        old(self).text().take(ns),
                        old(self).kind(),
                    ) == range.start && #[trigger] width(old(self).text().take(ne), old(self).kind())
                        == range.end && final(self).text() == old(self).text().take(ns) + old(
                        self,
                    ).text().skip(ne)
            },
            !range_ok(old(self).text(), old(self).kind(), range.start as int, range.end as int) ==> {
                &&& r == Err::<(), RichTextError>(
                    range_error(old(self).text(), old(self).kind(), range.start, range.end),
                )
                &&& final(self)@ == old(self)@
            },
    {
        let (ns, xs, ne, xe) = match self.resolve(range.start, range.end) {
            Err(e) => {
                return Err(e);
            },
            Ok(q) => q,
        };
        let ghost s0 = self@.elems;
        let ghost t = self.text();
        proof {
            lemma_between(s0, ns as int, xs as int, ne as int, xe as int);
        }
        let mut i: usize = xs;
        while i < xe
            invariant
                xs <= i <= xe <= s0.len(),
                self.elems.len() == s0.len(),
                self.actor == old(self).actor,
                self.index_type == old(self).index_type,
                self.clock == old(self).clock,
                self.marks@ == old(self).marks@,
                s0 == old(self)@.elems,
                forall|j: int|
                    0 <= j < s0.len() ==> (#[trigger] self.elems@[j]).key@ == s0[j].key
                        && self.elems@[j].ch == s0[j].ch,
                forall|j: int|
                    0 <= j < s0.len() && !(xs <= j < i) ==> (#[trigger] self.elems@[j])@ == s0[j],
                forall|j: int| xs <= j < i ==> (#[trigger] self.elems@[j]).deleted,
            decreases xe - i,
        {
            let ghost pv = self.elems@;
            self.elems[i].deleted = true;
            proof {
                assert forall|j: int| 0 <= j < s0.len() && j != i implies #[trigger] self.elems@[j]
                    == pv[j] by {}
                assert(self.elems@[i as int].key == pv[i as int].key);
                assert(self.elems@[i as int].ch == pv[i as int].ch);
            }
            i = i + 1;
        }
        proof {
            let u = self@.elems;
            assert forall|j: int| 0 <= j < s0.len() implies #[trigger] u[j] == self.elems@[j]@ by {}
            assert forall|j: int| 0 <= j < s0.len() implies (#[trigger] u[j]).key == s0[j].key
                && u[j].ch == s0[j].ch && (!(xs <= j < xe) ==> u[j] == s0[j]) && (xs <= j < xe
                ==> u[j].deleted) by {
                assert(u[j] == self.elems@[j]@);
            }
            let dead = u.subrange(xs as int, xe as int);
            assert forall|j: int| 0 <= j < dead.len() implies (#[trigger] dead[j]).deleted by {
                assert(dead[j] == u[xs + j]);
            }
            lemma_visible_dead(dead);
            assert(u.take(xs as int) =~= s0.take(xs as int));
            assert(u.skip(xe as int) =~= s0.skip(xe as int));
            assert(u =~= u.take(xs as int) + dead + u.skip(xe as int));
            lemma_visible_append(u.take(xs as int) + dead, u.skip(xe as int));
            lemma_visible_append(u.take(xs as int), dead);
            assert(visible(u) =~= t.take(ns as int) + t.skip(ne as int));
            assert forall|a: int, b: int| 0 <= a < b < u.len() implies #[trigger] elem_cmp()(
                u[a],
                u[b],
            ) < 0 by {
                assert(elem_cmp()(s0[a], s0[b]) < 0);
            }
            assert forall|j: int| 0 <= j < u.len() implies (#[trigger] u[j]).key.len() > 0 by {
                assert(s0[j].key.len() > 0);
            }
            assert forall|j: int| 0 <= j < self.elems.len() implies key_below(
                #[trigger] self.elems@[j].key@,
                self.clock,
            ) by {
                assert(self.elems@[j].key@ == old(self).elems@[j].key@);
            }
            assert forall|j: int| 0 <= j < s0.len() implies (#[trigger] self@.elems[j]).key
                == s0[j].key && self@.elems[j].ch == s0[j].ch && (s0[j].deleted
                ==> self@.elems[j].deleted) by {
                if !(xs <= j < xe) {
                    assert(self@.elems[j] == s0[j]);
                }
            }
        }
        Ok(())
    }

    /// Index of the first live element at or after `from`.
    fn find_live(&self, from: usize) -> (r: usize)
        requires
            self.wf(),
            from <= self@.elems.len(),
        ensures
            r == next_live(self@.elems, from as int),
            r <= self@.elems.len(),
    {
        let ghost s0 = self@.elems;
        let mut i = from;
        while i < self.elems.len() && self.elems[i].deleted
            invariant
                s0 == self@.elems,
                s0.len() == self.elems.len(),
                from <= i <= s0.len(),
                next_live(s0, from as int) == next_live(s0, i as int),
            decreases s0.len() - i,
        {
            proof {
                assert(s0[i as int] == self.elems@[i as int]@);
            }
            i = i + 1;
        }
        proof {
            if i < s0.len() {
                assert(s0[i as int] == self.elems@[i as int]@);
            }
        }
        i
    }

    /// Applies `style` to the visible characters in `range`.
    pub fn annotate(&mut self, range: std::ops::Range<usize>, style: Style) -> (r: Result<(), RichTextError>)
        requires
            old(self).wf(),
            old(self).clock() < u64::MAX,
        ensures
            final(self).wf(),
            final(self).actor() == old(self).actor(),
            final(self).kind() == old(self).kind(),
            final(self)@.elems == old(self)@.elems,
            r is Ok ==> final(self).clock() == old(self).clock() + 1,
            range_ok(old(self).text(), old(self).kind(), range.start as int, range.end as int) ==> {
                &&& r is Ok
                &&& exists|ns: int, xs: int, ne: int, xe: int|
                    0 <= ns <= ne <= old(self).text().len() && #[trigger] width(
                        old(self).text().take(ns),
                        old(self).kind(),
                    ) == range.start && #[trigger] width(old(self).text().take(ne), old(self).kind())
                        == range.end && #[trigger] at_boundary(old(self)@.elems, ns, xs)
                        && #[trigger] at_boundary(old(self)@.elems, ne, xe) && final(self)@.marks == old(self)@.marks.push(
                        MarkView {
                            id: Id { counter: (old(self).clock() + 1) as u64, actor: old(self).actor() },
                            start: start_anchor(old(self)@.elems, xs, style.expand),
                            end: end_anchor(old(self)@.elems, xe, style.expand),
                            style: style@,
                        },
                    )
            },
            !range_ok(old(self).text(), old(self).kind(), range.start as int, range.end as int) ==> {
                &&& r == Err::<(), RichTextError>(
                    range_error(old(self).text(), old(self).kind(), range.start, range.end),
                )
                &&& final(self)@ == old(self)@
                &&& final(self).clock() == old(self).clock()
            },
    {
        let (ns, xs, ne, xe) = match self.resolve(range.start, range.end) {
            Err(e) => {
                return Err(e);
            },
            Ok(q) => q,
        };
        let ghost s0 = self@.elems;
        let expand = style.expand;
        let js = self.find_live(xs);
        let start = if expand == Expand::Before || expand == Expand::Both || js >= self.elems.len() {
            Anchor {
                key: if xs == 0 {
                    Vec::new()
                } else {
                    copy_key(&self.elems[xs - 1].key)
                },
                inclusive: false,
                unbounded: false,
            }
        } else {
            Anchor { key: copy_key(&self.elems[js].key), inclusive: true, unbounded: false }
        };
        let je = self.find_live(xe);
        let end = if expand == Expand::After || expand == Expand::Both {
            if je >= self.elems.len() {
                Anchor { key: Vec::new(), inclusive: false, unbounded: true }
            } else {
                Anchor { key: copy_key(&self.elems[je].key), inclusive: false, unbounded: false }
            }
        } else {
            Anchor {
                key: if xe == 0 {
                    Vec::new()
                } else {
                    copy_key(&self.elems[xe - 1].key)
                },
                inclusive: true,
                unbounded: false,
            }
        };
        proof {
            assert(s0.len() == self.elems.len());
            if xs > 0 {
                assert(s0[xs - 1] == self.elems@[xs - 1]@);
            }
            if xe > 0 {
                assert(s0[xe - 1] == self.elems@[xe - 1]@);
            }
            if js < s0.len() {
                assert(s0[js as int] == self.elems@[js as int]@);
            }
            if je < s0.len() {
                assert(s0[je as int] == self.elems@[je as int]@);
            }
            assert(start@.key =~= start_anchor(s0, xs as int, expand).key);
            assert(end@.key =~= end_anchor(s0, xe as int, expand).key);
        }
        let id = Id { counter: self.clock + 1, actor: self.actor };
        let ghost m0 = self@.marks;
        let mark = Mark { id, start, end, style };
        let ghost mv = mark@;
        self.marks.push(mark);
        self.clock = self.clock + 1;
        proof {
            assert(self@.marks =~= m0.push(mv));
            assert(self@.elems =~= s0);
            assert forall|a: int, b: int| 0 <= a < b < self@.marks.len() implies #[trigger] mark_cmp()(
                self@.marks[a],
                self@.marks[b],
            ) < 0 by {
                if b < m0.len() {
                    assert(mark_cmp()(m0[a], m0[b]) < 0);
                } else {
                    assert(self@.marks[a] == self.marks@[a]@);
                    assert(self.marks@[a].id.counter <= self.clock - 1);
                }
            }
            assert forall|i: int| 0 <= i < self.marks.len() implies (#[trigger] self.marks@[i]).id.counter
                <= self.clock by {
                if i < m0.len() {
                    assert(self.marks@[i] == old(self).marks@[i]);
                }
            }
            assert forall|i: int| 0 <= i < self.elems.len() implies key_below(
                #[trigger] self.elems@[i].key@,
                self.clock,
            ) by {
                lemma_key_below_mono(self.elems@[i].key@, (self.clock - 1) as u64, self.clock);
            }
        }
        Ok(())
    }

    /// Takes in every element, deletion and annotation that `other` knows.
    pub fn merge(&mut self, other: &RichText)
        requires
            old(self).wf(),
            other.wf(),
            old(self)@.elems.len() + other@.elems.len() <= MAX_ELEMS,
        ensures
            final(self).wf(),
            final(self)@ == merged(old(self)@, other@),
            final(self).actor() == old(self).actor(),
            final(self).kind() == old(self).kind(),
            final(self).clock() == if old(self).clock() >= other.clock() {
                old(self).clock()
            } else {
                other.clock()
            },
    {
        let elems = merge_elems(&self.elems, &other.elems);
        let marks = merge_marks(&self.marks, &other.marks);
        let clock = if self.clock >= other.clock {
            self.clock
        } else {
            other.clock
        };
        let ghost a = self@;
        let ghost b = other@;
        proof {
            lemma_elem_order();
            lemma_mark_order();
            crate::merge::lemma_merge_sorted(a.elems, b.elems, elem_cmp(), elem_join());
            crate::merge::lemma_merge_sorted(a.marks, b.marks, mark_cmp(), mark_join());
            lemma_merge_len(a.elems, b.elems, elem_cmp(), elem_join());
            let pe = |e: ElemView| e.key.len() > 0 && key_below(e.key, clock);
            assert forall|i: int| 0 <= i < a.elems.len() implies pe(#[trigger] a.elems[i]) by {
                assert(a.elems[i].key == self.elems@[i].key@);
                lemma_key_below_mono(a.elems[i].key, self.clock, clock);
            }
            assert forall|i: int| 0 <= i < b.elems.len() implies pe(#[trigger] b.elems[i]) by {
                assert(b.elems[i].key == other.elems@[i].key@);
                lemma_key_below_mono(b.elems[i].key, other.clock, clock);
            }
            crate::merge::lemma_merge_keeps(a.elems, b.elems, pe, elem_cmp(), elem_join());
            let pm = |m: MarkView| m.id.counter <= clock;
            assert forall|i: int| 0 <= i < a.marks.len() implies pm(#[trigger] a.marks[i]) by {
                assert(a.marks[i] == self.marks@[i]@);
            }
            assert forall|i: int| 0 <= i < b.marks.len() implies pm(#[trigger] b.marks[i]) by {
                assert(b.marks[i] == other.marks@[i]@);
            }
            crate::merge::lemma_merge_keeps(a.marks, b.marks, pm, mark_cmp(), mark_join());
        }
        self.elems = elems;
        self.marks = marks;
        self.clock = clock;
        proof {
            let m = merged(a, b);
            assert(self@ == m);
            assert forall|i: int| 0 <= i < self.elems.len() implies key_below(
                #[trigger] self.elems@[i].key@,
                self.clock,
            ) by {
                assert(self.elems@[i]@ == m.elems[i]);
            }
            assert forall|i: int| 0 <= i < self.marks.len() implies (#[trigger] self.marks@[i]).id.counter
                <= self.clock by {
                assert(self.marks@[i]@ == m.marks[i]);
            }
        }
    }

    /// The visible text as maximal runs that share one list of styles.
    pub fn get_spans(&self) -> (r: Vec<Span>)
        requires
            self.wf(),
        ensures
            spans_view(r@) == spans_of(self@),
            maximal_runs(spans_view(r@)),
    {
        let ghost s0 = self@.elems;
        let ghost mv = self@.marks;
        let mut out: Vec<Span> = Vec::new();
        let mut i: usize = 0;
        proof {
            assert(s0.take(0) =~= Seq::<ElemView>::empty());
            assert(spans_view(out@) =~= Seq::<SpanView>::empty());
        }
        while i < self.elems.len()
            invariant
                s0 == self@.elems,
                mv == self@.marks,
                mv == marks_view(self.marks@),
                s0.len() == self.elems.len(),
                i <= self.elems.len(),
                spans_view(out@) == runs(items(s0.take(i as int), mv)),
            decreases self.elems.len() - i,
        {
            proof {
                assert(s0.take(i + 1).drop_last() =~= s0.take(i as int));
                assert(s0.take(i + 1).last() == self.elems@[i as int]@);
            }
            let e = &self.elems[i];
            if !e.deleted {
                let styles = styles_for(&self.marks, &e.key);
                let ghost it = items(s0.take(i + 1), mv);
                let ghost prev = spans_view(out@);
                proof {
                    assert(it.drop_last() =~= items(s0.take(i as int), mv));
                    assert(it.last() == (e.ch, styles_view(styles@)));
                }
                let n = out.len();
                if n > 0 && same_style_set(&out[n - 1].styles, &styles) {
                    let mut last = out.pop().unwrap();
                    push_char(&mut last.text, e.ch);
                    out.push(last);
                    proof {
                        assert(spans_view(out@) =~= prev.update(
                            prev.len() - 1,
                            SpanView { text: prev.last().text.push(e.ch), styles: prev.last().styles },
                        ));
                    }
                } else {
                    let mut text = String::new();
                    push_char(&mut text, e.ch);
                    out.push(Span { text, styles });
                    proof {
                        assert(text@ =~= seq![e.ch]);
                        assert(spans_view(out@) =~= prev.push(
                            SpanView { text: seq![e.ch], styles: it.last().1 },
                        ));
                    }
                }
            }
            i = i + 1;
        }
        proof {
            assert(s0.take(i as int) =~= s0);
            lemma_runs_maximal(items(s0, mv));
        }
        out
    }

    /// The visible text in `range`.
    pub fn slice(&self, range: std::ops::Range<usize>) -> (r: Result<String, RichTextError>)
        requires
            self.wf(),
        ensures
            range_ok(self.text(), self.kind(), range.start as int, range.end as int) ==> (r matches Ok(
                s,
            ) && exists|ns: int, ne: int|
                0 <= ns <= ne <= self.text().len() && #[trigger] width(
                    self.text().take(ns),
                    self.kind(),
                ) == range.start && #[trigger] width(self.text().take(ne), self.kind()) == range.end
                    && s@ == self.text().subrange(ns, ne)),
            !range_ok(self.text(), self.kind(), range.start as int, range.end as int) ==> r
                == Err::<String, RichTextError>(
                range_error(self.text(), self.kind(), range.start, range.end),
            ),
    {
        let (ns, xs, ne, xe) = match self.resolve(range.start, range.end) {
            Err(e) => {
                return Err(e);
            },
            Ok(q) => q,
        };
        let ghost s0 = self@.elems;
        proof {
            lemma_between(s0, ns as int, xs as int, ne as int, xe as int);
            assert(s0.subrange(xs as int, xs as int) =~= Seq::<ElemView>::empty());
        }
        let mut out = String::new();
        let mut i: usize = xs;
        assert(s0.len() == self.elems.len());
        while i < xe
            invariant
                self.wf(),
                s0 == self@.elems,
                s0.len() == self.elems.len(),
                xs <= i <= xe <= s0.len(),
                out@ == visible(s0.subrange(xs as int, i as int)),
            decreases xe - i,
        {
            proof {
                assert(s0.subrange(xs as int, i + 1).drop_last() =~= s0.subrange(xs as int, i as int));
                assert(self@.elems[i as int] == self.elems@[i as int]@);
            }
            if !self.elems[i].deleted {
                push_char(&mut out, self.elems[i].ch);
            }
            i = i + 1;
        }
        Ok(out)
    }

    /// Width of the visible text in the chosen index space.
    pub fn len(&self) -> (r: usize)
        requires
            self.wf(),
        ensures
            r == width(self.text(), self.kind()),
    {
        let mut i: usize = 0;
        let mut w: usize = 0;
        while i < self.elems.len()
            invariant
                self.wf(),
                i <= self.elems.len(),
                w == width(visible(self@.elems.take(i as int)), self.kind()),
                w <= 2 * i,
            decreases self.elems.len() - i,
        {
            proof {
                assert(self@.elems.take(i + 1).drop_last() =~= self@.elems.take(i as int));
                lemma_visible_len(self@.elems.take(i as int));
            }
            let ghost prev = visible(self@.elems.take(i as int));
            proof {
                assert(self@.elems.take(i + 1).last() == self.elems@[i as int]@);
                assert(prev.push(self.elems@[i as int].ch).drop_last() =~= prev);
            }
            if !self.elems[i].deleted {
                w = w + unit_of(self.elems[i].ch, self.index_type);
            }
            i = i + 1;
        }
        assert(self@.elems.take(i as int) =~= self@.elems);
        w
    }
}

/// Relies on `String::push`: appends one character.
#[verifier::external_body]
fn push_char(s: &mut String, c: char)
    ensures
        final(s)@ == old(s)@.push(c),
{
    s.push(c)
}

/// The characters of `s`, in order.
pub fn chars_of(s: &str) -> (r: Vec<char>)
    ensures
        r@ == s@,
{
    let mut out: Vec<char> = Vec::new();
    for c in it: s.chars()
        invariant
            out@ == it.history(),
    {
        out.push(c);
    }
    out
}

/// Units `c` takes in `kind`.
pub fn unit_of(c: char, kind: IndexType) -> (r: usize)
    ensures
        r as int == unit(c, kind),
{
    if kind == IndexType::Utf16 && c as u32 >= 0x10000 {
        2
    } else {
        1
    }
}

} // verus!
