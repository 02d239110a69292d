use vstd::prelude::*;
use crate::id::{key_below, key_cmp, lemma_key_extend_run, Id};
use crate::merge::{
    lemma_merge_associates, lemma_merge_commutes, lemma_merge_idempotent, lemma_merge_keeps,
    merge_with, sorted_by,
};
use crate::style::{Behavior, Expand};
use crate::model::{
    at_boundary, compatible, elem_cmp, elem_join, end_anchor, lemma_between,
    lemma_boundary_unique, lemma_width_append, mark_cmp, mark_join, merged, next_live,
    parent_key, range_ok, start_anchor, state_wf, width, ElemView, IndexType, MarkView, TextState,
};
use crate::spans::{cancelled, covers, shown, spans_of, start_ok, styles_at, styles_in};
use crate::text::{lemma_elem_order, lemma_mark_order};

verus! {

/// Merging is commutative: two compatible replicas that merge each other's
/// state in either order hold the same state and show the same spans.
pub proof fn merge_commutes(a: TextState, b: TextState)
    requires
        compatible(a, b),
    ensures
        merged(a, b) == merged(b, a),
        spans_of(merged(a, b)) == spans_of(merged(b, a)),
{
    lemma_elem_order();
    lemma_mark_order();
    lemma_merge_commutes(a.elems, b.elems, elem_cmp(), elem_join());
    lemma_merge_commutes(a.marks, b.marks, mark_cmp(), mark_join());
}

/// Merging is associative: the grouping of merges over three replicas does
/// not matter.
pub proof fn merge_associates(a: TextState, b: TextState, c: TextState)
    ensures
        merged(merged(a, b), c) == merged(a, merged(b, c)),
{
    lemma_elem_order();
    lemma_mark_order();
    lemma_merge_associates(a.elems, b.elems, c.elems, elem_cmp(), elem_join());
    lemma_merge_associates(a.marks, b.marks, c.marks, mark_cmp(), mark_join());
}

/// Merging a state into itself changes nothing.
pub proof fn merge_self(a: TextState)
    ensures
        merged(a, a) == a,
{
    lemma_elem_order();
    lemma_mark_order();
    lemma_merge_idempotent(a.elems, elem_cmp(), elem_join());
    lemma_merge_idempotent(a.marks, mark_cmp(), mark_join());
}

/// Merging the same remote state a second time changes nothing further.
pub proof fn merge_idempotent(a: TextState, b: TextState)
    ensures
        merged(merged(a, b), b) == merged(a, b),
        spans_of(merged(merged(a, b), b)) == spans_of(merged(a, b)),
{
    merge_associates(a, b, b);
    merge_self(b);
}

/// What two replicas each agree on with a third, their merge agrees on too.
proof fn lemma_agree_with_merge(a: TextState, b: TextState, c: TextState)
    requires
        compatible(a, c),
        compatible(b, c),
    ensures
        compatible(merged(a, b), c),
{
    lemma_elem_order();
    lemma_mark_order();
    let pe = |e: ElemView|
        forall|j: int| 0 <= j < c.elems.len() && #[trigger] c.elems[j].key == e.key ==> c.elems[j].ch == e.ch;
    assert forall|i: int| 0 <= i < a.elems.len() implies pe(#[trigger] a.elems[i]) by {
        assert forall|j: int| 0 <= j < c.elems.len() && #[trigger] c.elems[j].key == a.elems[i].key implies c.elems[j].ch == a.elems[i].ch by {
            crate::id::lemma_key_cmp_refl(a.elems[i].key);
            assert(elem_cmp()(a.elems[i], c.elems[j]) == 0);
            assert(elem_join()(a.elems[i], c.elems[j]) == elem_join()(c.elems[j], a.elems[i]));
        }
    }
    assert forall|i: int| 0 <= i < b.elems.len() implies pe(#[trigger] b.elems[i]) by {
        assert forall|j: int| 0 <= j < c.elems.len() && #[trigger] c.elems[j].key == b.elems[i].key implies c.elems[j].ch == b.elems[i].ch by {
            crate::id::lemma_key_cmp_refl(b.elems[i].key);
            assert(elem_cmp()(b.elems[i], c.elems[j]) == 0);
            assert(elem_join()(b.elems[i], c.elems[j]) == elem_join()(c.elems[j], b.elems[i]));
        }
    }
    lemma_merge_keeps(a.elems, b.elems, pe, elem_cmp(), elem_join());
    let me = merge_with(a.elems, b.elems, elem_cmp(), elem_join());
    assert forall|i: int, j: int|
        0 <= i < me.len() && 0 <= j < c.elems.len() && #[trigger] elem_cmp()(me[i], c.elems[j]) == 0 implies elem_join()(me[i], c.elems[j]) == elem_join()(c.elems[j], me[i]) by {
        crate::id::lemma_key_cmp_range(me[i].key, c.elems[j].key);
        assert(pe(me[i]));
    }
    let pm = |m: MarkView| forall|j: int| 0 <= j < c.marks.len() && #[trigger] c.marks[j].id == m.id ==> c.marks[j] == m;
    assert forall|i: int| 0 <= i < a.marks.len() implies pm(#[trigger] a.marks[i]) by {
        assert forall|j: int| 0 <= j < c.marks.len() && #[trigger] c.marks[j].id == a.marks[i].id implies c.marks[j] == a.marks[i] by {
            assert(mark_cmp()(a.marks[i], c.marks[j]) == 0);
        }
    }
    assert forall|i: int| 0 <= i < b.marks.len() implies pm(#[trigger] b.marks[i]) by {
        assert forall|j: int| 0 <= j < c.marks.len() && #[trigger] c.marks[j].id == b.marks[i].id implies c.marks[j] == b.marks[i] by {
            assert(mark_cmp()(b.marks[i], c.marks[j]) == 0);
        }
    }
    lemma_merge_keeps(a.marks, b.marks, pm, mark_cmp(), mark_join());
    let mm = merge_with(a.marks, b.marks, mark_cmp(), mark_join());
    assert forall|i: int, j: int|
        0 <= i < mm.len() && 0 <= j < c.marks.len() && #[trigger] mark_cmp()(mm[i], c.marks[j]) == 0 implies mark_join()(mm[i], c.marks[j]) == mark_join()(c.marks[j], mm[i]) by {
        crate::id::lemma_id_cmp_eq(mm[i].id, c.marks[j].id);
        assert(pm(mm[i]));
    }
}

proof fn lemma_compatible_sym(a: TextState, b: TextState)
    requires
        compatible(a, b),
    ensures
        compatible(b, a),
{
    lemma_elem_order();
    lemma_mark_order();
    assert forall|i: int, j: int|
        0 <= i < b.elems.len() && 0 <= j < a.elems.len() && #[trigger] elem_cmp()(b.elems[i], a.elems[j]) == 0 implies elem_join()(b.elems[i], a.elems[j]) == elem_join()(a.elems[j], b.elems[i]) by {
        assert(elem_cmp()(a.elems[j], b.elems[i]) == 0);
    }
    assert forall|i: int, j: int|
        0 <= i < b.marks.len() && 0 <= j < a.marks.len() && #[trigger] mark_cmp()(b.marks[i], a.marks[j]) == 0 implies mark_join()(b.marks[i], a.marks[j]) == mark_join()(a.marks[j], b.marks[i]) by {
        assert(mark_cmp()(a.marks[j], b.marks[i]) == 0);
    }
}

proof fn lemma_compatible_self(a: TextState)
    requires
        state_wf(a),
    ensures
        compatible(a, a),
{
    lemma_elem_order();
    lemma_mark_order();
    assert forall|i: int, j: int|
        0 <= i < a.elems.len() && 0 <= j < a.elems.len() && #[trigger] elem_cmp()(a.elems[i], a.elems[j]) == 0 implies elem_join()(a.elems[i], a.elems[j]) == elem_join()(a.elems[j], a.elems[i]) by {
        if i < j {
            assert(elem_cmp()(a.elems[i], a.elems[j]) < 0);
        } else if j < i {
            assert(elem_cmp()(a.elems[j], a.elems[i]) < 0);
        }
    }
    assert forall|i: int, j: int|
        0 <= i < a.marks.len() && 0 <= j < a.marks.len() && #[trigger] mark_cmp()(a.marks[i], a.marks[j]) == 0 implies mark_join()(a.marks[i], a.marks[j]) == mark_join()(a.marks[j], a.marks[i]) by {
        if i < j {
            assert(mark_cmp()(a.marks[i], a.marks[j]) < 0);
        } else if j < i {
            assert(mark_cmp()(a.marks[j], a.marks[i]) < 0);
        }
    }
}

/// Two replicas that merge each other in turn (`a.merge(b)` then
/// `b.merge(a)`) end in the same state and show the same spans.
pub proof fn exchange_converges(a: TextState, b: TextState)
    requires
        compatible(a, b),
    ensures
        merged(b, merged(a, b)) == merged(a, b),
        spans_of(merged(b, merged(a, b))) == spans_of(merged(a, b)),
{
    merge_associates(b, a, b);
    merge_commutes(a, b);
    merge_idempotent(a, b);
}

/// Three pairwise compatible replicas converge when one gathers the others
/// and then hands its state back to each of them, whatever was merged first.
pub proof fn gossip_converges(a: TextState, b: TextState, c: TextState)
    requires
        compatible(a, b),
        compatible(b, c),
        compatible(a, c),
        state_wf(b),
        state_wf(c),
    ensures
        merged(b, merged(merged(a, b), c)) == merged(merged(a, b), c),
        merged(c, merged(merged(a, b), c)) == merged(merged(a, b), c),
        merged(merged(a, c), b) == merged(merged(a, b), c),
        spans_of(merged(b, merged(merged(a, b), c))) == spans_of(merged(c, merged(merged(a, b), c))),
{
    let ab = merged(a, b);
    let all = merged(ab, c);
    lemma_compatible_sym(a, b);
    lemma_compatible_sym(b, c);
    lemma_compatible_sym(a, c);
    lemma_compatible_self(b);
    lemma_compatible_self(c);
    // b: merged(b, all) == all
    lemma_agree_with_merge(a, b, b);
    lemma_agree_with_merge(ab, c, b);
    lemma_compatible_sym(all, b);
    merge_commutes(b, all);
    merge_associates(ab, c, b);
    merge_commutes(c, b);
    merge_associates(a, b, merged(b, c));
    merge_associates(b, b, c);
    merge_self(b);
    merge_associates(a, b, c);
    // c: merged(c, all) == all
    lemma_agree_with_merge(a, b, c);
    lemma_agree_with_merge(ab, c, c);
    lemma_compatible_sym(all, c);
    merge_commutes(c, all);
    merge_idempotent(ab, c);
    // another order of gathering
    merge_associates(a, c, b);
    merge_commutes(c, b);
}

/// The state that holds what every state in `rs` knows, merged left to right.
pub open spec fn merged_all(rs: Seq<TextState>) -> TextState
    decreases rs.len(),
{
    if rs.len() == 0 {
        TextState { elems: Seq::empty(), marks: Seq::empty() }
    } else {
        merged(merged_all(rs.drop_last()), rs.last())
    }
}

/// Every state in `rs` agrees with every other one, and each is well formed.
pub open spec fn all_compatible(rs: Seq<TextState>) -> bool {
    &&& forall|i: int| 0 <= i < rs.len() ==> state_wf(#[trigger] rs[i])
    &&& forall|i: int, j: int|
        0 <= i < rs.len() && 0 <= j < rs.len() && i != j ==> compatible(#[trigger] rs[i], #[trigger] rs[j])
}

proof fn lemma_merge_empty_state(a: TextState)
    ensures
        merged(a, TextState { elems: Seq::empty(), marks: Seq::empty() }) == a,
        merged(TextState { elems: Seq::empty(), marks: Seq::empty() }, a) == a,
{
    crate::merge::lemma_merge_empty(a.elems, elem_cmp(), elem_join());
    crate::merge::lemma_merge_empty(a.marks, mark_cmp(), mark_join());
}

/// Merging the results of two groups of merges is merging all their states
/// in turn: how merges are grouped does not matter.
pub proof fn merged_all_concat(a: Seq<TextState>, b: Seq<TextState>)
    ensures
        merged_all(a + b) == merged(merged_all(a), merged_all(b)),
    decreases b.len(),
{
    if b.len() == 0 {
        assert(a + b =~= a);
        lemma_merge_empty_state(merged_all(a));
    } else {
        assert((a + b).drop_last() =~= a + b.drop_last());
        assert((a + b).last() == b.last());
        merged_all_concat(a, b.drop_last());
        merge_associates(merged_all(a), merged_all(b.drop_last()), b.last());
    }
}

proof fn lemma_compatible_any(rs: Seq<TextState>, i: int, j: int)
    requires
        all_compatible(rs),
        0 <= i < rs.len(),
        0 <= j < rs.len(),
    ensures
        compatible(rs[i], rs[j]),
{
    if i == j {
        lemma_compatible_self(rs[i]);
    }
}

/// A state that agrees with every state of `ts` agrees with their merge.
proof fn lemma_compatible_merged_all(ts: Seq<TextState>, c: TextState)
    requires
        forall|i: int| 0 <= i < ts.len() ==> compatible(#[trigger] ts[i], c),
    ensures
        compatible(merged_all(ts), c),
    decreases ts.len(),
{
    if ts.len() > 0 {
        assert forall|i: int| 0 <= i < ts.drop_last().len() implies compatible(
            #[trigger] ts.drop_last()[i],
            c,
        ) by {
            assert(ts.drop_last()[i] == ts[i]);
        }
        lemma_compatible_merged_all(ts.drop_last(), c);
        lemma_agree_with_merge(merged_all(ts.drop_last()), ts.last(), c);
    }
}

/// Merging in a state the merge already holds changes nothing.
proof fn lemma_absorb(rs: Seq<TextState>, ts: Seq<TextState>, x: int)
    requires
        all_compatible(rs),
        forall|i: int| 0 <= i < ts.len() ==> rs.contains(#[trigger] ts[i]),
        0 <= x < ts.len(),
    ensures
        merged(merged_all(ts), ts[x]) == merged_all(ts),
    decreases ts.len(),
{
    let t1 = ts.drop_last();
    let y = ts.last();
    if x == ts.len() - 1 {
        merge_idempotent(merged_all(t1), y);
    } else {
        assert(t1[x] == ts[x]);
        assert forall|i: int| 0 <= i < t1.len() implies rs.contains(#[trigger] t1[i]) by {
            assert(t1[i] == ts[i]);
        }
        lemma_absorb(rs, t1, x);
        let jy = choose|j: int| 0 <= j < rs.len() && rs[j] == ts[ts.len() - 1];
        let jx = choose|j: int| 0 <= j < rs.len() && rs[j] == ts[x];
        lemma_compatible_any(rs, jy, jx);
        merge_associates(merged_all(t1), y, ts[x]);
        merge_commutes(y, ts[x]);
        merge_associates(merged_all(t1), ts[x], y);
    }
}

/// Merging in states that the merge already holds changes nothing.
proof fn lemma_absorb_all(rs: Seq<TextState>, ts: Seq<TextState>, us: Seq<TextState>)
    requires
        all_compatible(rs),
        forall|i: int| 0 <= i < ts.len() ==> rs.contains(#[trigger] ts[i]),
        forall|i: int| 0 <= i < us.len() ==> ts.contains(#[trigger] us[i]),
    ensures
        merged_all(ts + us) == merged_all(ts),
    decreases us.len(),
{
    if us.len() == 0 {
        assert(ts + us =~= ts);
    } else {
        let u1 = us.drop_last();
        assert forall|i: int| 0 <= i < u1.len() implies ts.contains(#[trigger] u1[i]) by {
            assert(u1[i] == us[i]);
        }
        lemma_absorb_all(rs, ts, u1);
        assert((ts + us).drop_last() =~= ts + u1);
        assert((ts + us).last() == us.last());
        let j = choose|j: int| 0 <= j < ts.len() && ts[j] == us[us.len() - 1];
        lemma_absorb(rs, ts, j);
    }
}

/// Convergence of any number of replicas: however a replica gathered the
/// others' states, in whatever order and however often, once it has merged
/// every replica's state (`ts` lists what it merged, each an original state of
/// `rs`, every one of them at least once) it holds the merge of them all.
/// With `merged_all_concat`, merges of merges reduce to such a list.
pub proof fn gathering_converges(rs: Seq<TextState>, ts: Seq<TextState>)
    requires
        all_compatible(rs),
        forall|i: int| 0 <= i < ts.len() ==> rs.contains(#[trigger] ts[i]),
        forall|j: int| 0 <= j < rs.len() ==> ts.contains(#[trigger] rs[j]),
    ensures
        merged_all(ts) == merged_all(rs),
        spans_of(merged_all(ts)) == spans_of(merged_all(rs)),
{
    assert forall|i: int| 0 <= i < rs.len() implies rs.contains(#[trigger] rs[i]) by {
        assert(rs[i] == rs[i]);
    }
    lemma_absorb_all(rs, ts, rs);
    lemma_absorb_all(rs, rs, ts);
    merged_all_concat(ts, rs);
    merged_all_concat(rs, ts);
    assert forall|i: int| 0 <= i < ts.len() implies compatible(#[trigger] ts[i], merged_all(rs)) by {
        let j = choose|j: int| 0 <= j < rs.len() && rs[j] == ts[i];
        assert forall|k: int| 0 <= k < rs.len() implies compatible(#[trigger] rs[k], ts[i]) by {
            lemma_compatible_any(rs, k, j);
        }
        lemma_compatible_merged_all(rs, ts[i]);
        lemma_compatible_sym(merged_all(rs), ts[i]);
    }
    lemma_compatible_merged_all(ts, merged_all(rs));
    merge_commutes(merged_all(ts), merged_all(rs));
}

/// A deleting annotation wins: no style of its type shows on an element that
/// it covers, whatever other annotations of that type cover it.
pub proof fn delete_wins(marks: Seq<MarkView>, tag: Seq<char>, k: Seq<Id>)
    requires
        cancelled(marks, tag, k),
    ensures
        forall|q: int| 0 <= q < styles_at(marks, k).len() ==> (#[trigger] styles_at(marks, k)[q]).tag != tag,
{
    lemma_delete_wins(marks, marks, tag, k);
}

proof fn lemma_delete_wins(part: Seq<MarkView>, all: Seq<MarkView>, tag: Seq<char>, k: Seq<Id>)
    requires
        cancelled(all, tag, k),
    ensures
        forall|q: int| 0 <= q < styles_in(part, all, k).len() ==> (#[trigger] styles_in(part, all, k)[q]).tag != tag,
    decreases part.len(),
{
    if part.len() > 0 {
        lemma_delete_wins(part.drop_last(), all, tag, k);
    }
}

proof fn lemma_next_live(s: Seq<ElemView>, i: int)
    requires
        0 <= i <= s.len(),
    ensures
        i <= next_live(s, i) <= s.len(),
        next_live(s, i) < s.len() ==> !s[next_live(s, i)].deleted,
        forall|j: int| i <= j < next_live(s, i) ==> (#[trigger] s[j]).deleted,
    decreases s.len() - i,
{
    if i < s.len() && s[i].deleted {
        lemma_next_live(s, i + 1);
    }
}

/// Text inserted exactly at the end of an annotated range `[ns, ne)` falls
/// inside the annotation when it expands after its end, and outside it
/// otherwise. `key` is the key insertion gives a new element there: it
/// extends the key of the last character of the range by ids newer than any
/// the state holds.
pub proof fn expand_boundary(
    s: Seq<ElemView>,
    clock: u64,
    ns: int,
    xs: int,
    ne: int,
    xe: int,
    expand: Expand,
    key: Seq<Id>,
    m: MarkView,
)
    requires
        sorted_by(s, elem_cmp()),
        forall|i: int| 0 <= i < s.len() ==> (#[trigger] s[i]).key.len() > 0,
        forall|i: int| 0 <= i < s.len() ==> key_below(#[trigger] s[i].key, clock),
        at_boundary(s, ns, xs),
        at_boundary(s, ne, xe),
        ns < ne,
        key.len() > parent_key(s, xe).len(),
        key.take(parent_key(s, xe).len() as int) == parent_key(s, xe),
        key[parent_key(s, xe).len() as int].counter > clock,
        m.start == start_anchor(s, xs, expand),
        m.end == end_anchor(s, xe, expand),
    ensures
        covers(m, key) <==> (expand == Expand::After || expand == Expand::Both),
{
    lemma_between(s, ns, xs, ne, xe);
    assert(xs < xe);
    let parent = parent_key(s, xe);
    assert(parent == s[xe - 1].key);
    assert forall|y: int| 0 <= y < s.len() implies (y < xe ==> key_cmp(#[trigger] s[y].key, key) < 0)
        && (y >= xe ==> key_cmp(key, s[y].key) < 0) by {
        lemma_key_extend_run(parent, key, s[y].key, clock);
        if y < xe - 1 {
            assert(elem_cmp()(s[y], s[xe - 1]) < 0);
        } else if y == xe - 1 {
            crate::id::lemma_key_cmp_refl(parent);
        } else {
            assert(elem_cmp()(s[xe - 1], s[y]) < 0);
        }
    }
    lemma_next_live(s, xs);
    lemma_next_live(s, xe);
    let js = next_live(s, xs);
    assert(js <= xe - 1) by {
        if js > xe - 1 {
            assert(s[xe - 1].deleted);
        }
    }
    if xs > 0 {
        assert(key_cmp(s[xs - 1].key, key) < 0);
    } else {
        assert(key_cmp(Seq::<Id>::empty(), key) == -1);
    }
    assert(key_cmp(s[js].key, key) < 0);
    assert(start_ok(m.start, key));
    let je = next_live(s, xe);
    if je < s.len() {
        assert(key_cmp(key, s[je].key) < 0);
    }
    lemma_key_extend_run(parent, key, parent, clock);
    crate::id::lemma_key_cmp_refl(parent);
    crate::id::lemma_key_cmp_range(parent, key);
}

/// An annotation that covers an element, neither deletes nor is cancelled
/// by a deleting annotation of its type, shows its style there: a merging
/// annotation as a merging style of its type, any other as its own style.
pub proof fn covering_style_shows(marks: Seq<MarkView>, k: Seq<Id>, q: int)
    requires
        0 <= q < marks.len(),
        marks[q].style.behavior != Behavior::Delete,
        covers(marks[q], k),
        !cancelled(marks, marks[q].style.tag, k),
    ensures
        shown(styles_at(marks, k), marks[q].style),
        marks[q].style.behavior != Behavior::Merge ==> styles_at(marks, k).contains(marks[q].style),
{
    lemma_styles_keep(marks, marks, k, q);
}

proof fn lemma_styles_keep(part: Seq<MarkView>, all: Seq<MarkView>, k: Seq<Id>, q: int)
    requires
        0 <= q < part.len(),
        part[q].style.behavior != Behavior::Delete,
        covers(part[q], k),
        !cancelled(all, part[q].style.tag, k),
    ensures
        shown(styles_in(part, all, k), part[q].style),
    decreases part.len(),
{
    let r = styles_in(part.drop_last(), all, k);
    let r2 = styles_in(part, all, k);
    let st = part[q].style;
    if q < part.len() - 1 {
        assert(part.drop_last()[q] == part[q]);
        lemma_styles_keep(part.drop_last(), all, k, q);
        if st.behavior == Behavior::Merge {
            let z = choose|z: int| 0 <= z < r.len() && r[z].tag == st.tag && r[z].behavior == Behavior::Merge;
            assert(r2[z] == r[z]);
        } else {
            let z = choose|z: int| 0 <= z < r.len() && r[z] == st;
            assert(r2[z] == r[z]);
        }
    } else {
        if !shown(r, st) {
            assert(r2 == r.push(st));
            assert(r2[r.len() as int] == st);
        } else if st.behavior == Behavior::Merge {
            let z = choose|z: int| 0 <= z < r.len() && r[z].tag == st.tag && r[z].behavior == Behavior::Merge;
            assert(r2[z] == r[z]);
        } else {
            let z = choose|z: int| 0 <= z < r.len() && r[z] == st;
            assert(r2[z] == r[z]);
        }
    }
}

/// Inserting text and then deleting exactly the range it took restores the
/// visible text: the range is valid, and it names the inserted characters.
pub proof fn insert_delete_round_trip(t: Seq<char>, kind: IndexType, n: int, text: Seq<char>)
    requires
        0 <= n <= t.len(),
    ensures
        ({
            let t2 = t.take(n) + text + t.skip(n);
            let start = width(t.take(n), kind);
            let end = start + width(text, kind);
            &&& range_ok(t2, kind, start, end)
            &&& forall|ns: int, ne: int|
                0 <= ns <= ne <= t2.len() && #[trigger] width(t2.take(ns), kind) == start
                    && #[trigger] width(t2.take(ne), kind) == end ==> t2.take(ns) + t2.skip(ne) == t
        }),
{
    let t2 = t.take(n) + text + t.skip(n);
    let start = width(t.take(n), kind);
    let end = start + width(text, kind);
    assert(t2.take(n) =~= t.take(n));
    assert(t2.take(n + text.len()) =~= t.take(n) + text);
    lemma_width_append(t.take(n), text, kind);
    crate::model::lemma_width_bounds(text, kind);
    assert(range_ok(t2, kind, start, end));
    assert forall|ns: int, ne: int|
        0 <= ns <= ne <= t2.len() && #[trigger] width(t2.take(ns), kind) == start
            && #[trigger] width(t2.take(ne), kind) == end implies t2.take(ns) + t2.skip(ne) == t by {
        lemma_boundary_unique(t2, kind, ns, n);
        lemma_boundary_unique(t2, kind, ne, n + text.len());
        assert(t2.skip(n + text.len()) =~= t.skip(n));
        assert(t.take(n) + t.skip(n) =~= t);
    }
}

} // verus!
