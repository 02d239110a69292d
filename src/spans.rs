use vstd::prelude::*;
use crate::id::{Id, key_cmp, compare_keys};
use crate::model::{AnchorView, ElemView, Mark, MarkView, SpanView, TextState, marks_view};
use crate::style::{Style, StyleView, Behavior, styles_view};

verus! {

pub open spec fn start_ok(a: AnchorView, k: Seq<Id>) -> bool {
    if a.inclusive {
        key_cmp(a.key, k) <= 0
    } else {
        key_cmp(a.key, k) < 0
    }
}

pub open spec fn end_ok(a: AnchorView, k: Seq<Id>) -> bool {
    a.unbounded || if a.inclusive {
        key_cmp(k, a.key) <= 0
    } else {
        key_cmp(k, a.key) < 0
    }
}

/// The element with key `k` lies inside the annotation's range.
pub open spec fn covers(m: MarkView, k: Seq<Id>) -> bool {
    start_ok(m.start, k) && end_ok(m.end, k)
}

/// Some deleting annotation of type `tag` covers `k`.
pub open spec fn cancelled(marks: Seq<MarkView>, tag: Seq<char>, k: Seq<Id>) -> bool
    decreases marks.len(),
{
    if marks.len() == 0 {
        false
    } else {
        cancelled(marks.drop_last(), tag, k) || (marks.last().style.behavior == Behavior::Delete
            && marks.last().style.tag == tag && covers(marks.last(), k))
    }
}

/// `r` already holds a merging style of type `tag`.
pub open spec fn merge_present(r: Seq<StyleView>, tag: Seq<char>) -> bool {
    exists|i: int| 0 <= i < r.len() && r[i].tag == tag && r[i].behavior == Behavior::Merge
}

/// A style that an annotation brings is already shown: a merging style
/// unions with any merging style of its type, any other style with an equal
/// one.
pub open spec fn shown(r: Seq<StyleView>, st: StyleView) -> bool {
    if st.behavior == Behavior::Merge {
        merge_present(r, st.tag)
    } else {
        r.contains(st)
    }
}

/// The set of styles that the annotations in `marks` put on `k`, listed in
/// the order the annotations were made; a deleting annotation of the same
/// type anywhere in `all` cancels them.
pub open spec fn styles_in(marks: Seq<MarkView>, all: Seq<MarkView>, k: Seq<Id>) -> Seq<StyleView>
    decreases marks.len(),
{
    if marks.len() == 0 {
        Seq::empty()
    } else {
        let r = styles_in(marks.drop_last(), all, k);
        let m = marks.last();
        if m.style.behavior != Behavior::Delete && covers(m, k) && !cancelled(all, m.style.tag, k)
            && !shown(r, m.style) {
            r.push(m.style)
        } else {
            r
        }
    }
}

pub open spec fn styles_at(marks: Seq<MarkView>, k: Seq<Id>) -> Seq<StyleView> {
    styles_in(marks, marks, k)
}

/// Each visible character with its styles, in order.
pub open spec fn items(elems: Seq<ElemView>, marks: Seq<MarkView>) -> Seq<(char, Seq<StyleView>)>
    decreases elems.len(),
{
    if elems.len() == 0 {
        Seq::empty()
    } else if elems.last().deleted {
        items(elems.drop_last(), marks)
    } else {
        items(elems.drop_last(), marks).push((elems.last().ch, styles_at(marks, elems.last().key)))
    }
}

/// Groups neighbouring characters with equal sets of styles into runs.
pub open spec fn runs(it: Seq<(char, Seq<StyleView>)>) -> Seq<SpanView>
    decreases it.len(),
{
    if it.len() == 0 {
        Seq::empty()
    } else {
        let r = runs(it.drop_last());
        let c = it.last().0;
        let st = it.last().1;
        if r.len() > 0 && r.last().styles.to_set() == st.to_set() {
            r.update(r.len() - 1, SpanView { text: r.last().text.push(c), styles: r.last().styles })
        } else {
            r.push(SpanView { text: seq![c], styles: st })
        }
    }
}

/// Runs are maximal and never empty: neighbouring runs carry different sets
/// of styles.
pub open spec fn maximal_runs(r: Seq<SpanView>) -> bool {
    &&& forall|k: int| 0 <= k < r.len() ==> (#[trigger] r[k]).text.len() > 0
    &&& forall|k: int|
        0 <= k < r.len() - 1 ==> (#[trigger] r[k]).styles.to_set() != r[k + 1].styles.to_set()
}

pub proof fn lemma_runs_maximal(it: Seq<(char, Seq<StyleView>)>)
    ensures
        maximal_runs(runs(it)),
    decreases it.len(),
{
    if it.len() > 0 {
        lemma_runs_maximal(it.drop_last());
        let r = runs(it.drop_last());
        let out = runs(it);
        assert forall|k: int| 0 <= k < out.len() implies (#[trigger] out[k]).text.len() > 0 by {
            if k < r.len() {
                assert(r[k].text.len() > 0);
            }
        }
        assert forall|k: int| 0 <= k < out.len() - 1 implies (#[trigger] out[k]).styles.to_set()
            != out[k + 1].styles.to_set() by {
            assert(r[k].styles.to_set() != r[k + 1].styles.to_set() || k + 1 == r.len());
        }
    }
}

/// The spans a state shows.
pub open spec fn spans_of(s: TextState) -> Seq<SpanView> {
    runs(items(s.elems, s.marks))
}

fn covers_key(m: &Mark, k: &Vec<Id>) -> (r: bool)
    ensures
        r == covers(m@, k@),
{
    let c1 = compare_keys(&m.start.key, k);
    let lower = if m.start.inclusive {
        c1 <= 0
    } else {
        c1 < 0
    };
    if !lower {
        return false;
    }
    if m.end.unbounded {
        return true;
    }
    let c2 = compare_keys(k, &m.end.key);
    if m.end.inclusive {
        c2 <= 0
    } else {
        c2 < 0
    }
}

fn is_cancelled(marks: &Vec<Mark>, tag: &String, k: &Vec<Id>) -> (r: bool)
    ensures
        r == cancelled(marks_view(marks@), tag@, k@),
{
    let ghost mv = marks_view(marks@);
    let mut found = false;
    let mut l: usize = 0;
    proof {
        assert(mv.take(0) =~= Seq::<MarkView>::empty());
    }
    while l < marks.len()
        invariant
            mv == marks_view(marks@),
            l <= marks.len(),
            found == cancelled(mv.take(l as int), tag@, k@),
        decreases marks.len() - l,
    {
        proof {
            assert(mv.take(l + 1).drop_last() =~= mv.take(l as int));
            assert(mv.take(l + 1).last() == marks@[l as int]@);
        }
        let m = &marks[l];
        if m.style.behavior == Behavior::Delete && m.style.type_ == *tag && covers_key(m, k) {
            found = true;
        }
        l = l + 1;
    }
    proof {
        assert(mv.take(l as int) =~= mv);
    }
    found
}

fn is_shown(v: &Vec<Style>, st: &Style) -> (r: bool)
    ensures
        r == shown(styles_view(v@), st@),
{
    let merging = st.behavior == Behavior::Merge;
    let mut q: usize = 0;
    while q < v.len()
        invariant
            q <= v.len(),
            merging == (st@.behavior == Behavior::Merge),
            forall|z: int|
                0 <= z < q ==> !(if merging {
                    styles_view(v@)[z].tag == st@.tag && styles_view(v@)[z].behavior == Behavior::Merge
                } else {
                    styles_view(v@)[z] == st@
                }),
        decreases v.len() - q,
    {
        let hit = if merging {
            v[q].type_ == st.type_ && v[q].behavior == Behavior::Merge
        } else {
            v[q].same(st)
        };
        if hit {
            proof {
                assert(styles_view(v@)[q as int] == v@[q as int]@);
            }
            return true;
        }
        q = q + 1;
    }
    false
}

/// The styles on the element with key `k`.
pub(crate) fn styles_for(marks: &Vec<Mark>, k: &Vec<Id>) -> (r: Vec<Style>)
    ensures
        styles_view(r@) == styles_at(marks_view(marks@), k@),
{
    let ghost mv = marks_view(marks@);
    let mut out: Vec<Style> = Vec::new();
    let mut j: usize = 0;
    proof {
        assert(mv.take(0) =~= Seq::<MarkView>::empty());
        assert(styles_view(out@) =~= Seq::<StyleView>::empty());
    }
    while j < marks.len()
        invariant
            mv == marks_view(marks@),
            j <= marks.len(),
            styles_view(out@) == styles_in(mv.take(j as int), mv, k@),
        decreases marks.len() - j,
    {
        proof {
            assert(mv.take(j + 1).drop_last() =~= mv.take(j as int));
            assert(mv.take(j + 1).last() == marks@[j as int]@);
        }
        let m = &marks[j];
        if m.style.behavior != Behavior::Delete && covers_key(m, k) && !is_cancelled(
            marks,
            &m.style.type_,
            k,
        ) && !is_shown(&out, &m.style) {
            let ghost before = styles_view(out@);
            out.push(m.style.copy());
            proof {
                assert(styles_view(out@) =~= before.push(m.style@));
            }
        }
        j = j + 1;
    }
    proof {
        assert(mv.take(j as int) =~= mv);
    }
    out
}

} // verus!
