use vstd::prelude::*;

verus! {

/// Identity of one operation: a Lamport counter and the replica that made it.
#[derive(PartialEq, Eq, Structural, Clone, Copy, Debug)]
pub struct Id {
    pub counter: u64,
    pub actor: u64,
}

/// Ids are ordered by counter first, then by actor.
pub open spec fn id_cmp(a: Id, b: Id) -> int {
    if a.counter < b.counter {
        -1
    } else if a.counter > b.counter {
        1
    } else if a.actor < b.actor {
        -1
    } else if a.actor > b.actor {
        1
    } else {
        0
    }
}

/// Document order of element keys. A key is the path of ids from the root of
/// the insertion tree: a parent precedes its descendants, and among siblings
/// the newer id comes first.
pub open spec fn key_cmp(p: Seq<Id>, q: Seq<Id>) -> int
    decreases p.len(),
{
    if p.len() == 0 && q.len() == 0 {
        0
    } else if p.len() == 0 {
        -1
    } else if q.len() == 0 {
        1
    } else if p[0] == q[0] {
        key_cmp(p.drop_first(), q.drop_first())
    } else if id_cmp(p[0], q[0]) > 0 {
        -1
    } else {
        1
    }
}

/// Every id on the path has a counter no larger than `clock`.
pub open spec fn key_below(k: Seq<Id>, clock: u64) -> bool {
    forall|i: int| 0 <= i < k.len() ==> (#[trigger] k[i]).counter <= clock
}

pub proof fn lemma_id_cmp_eq(a: Id, b: Id)
    ensures
        (id_cmp(a, b) == 0) == (a == b),
        id_cmp(a, b) == -id_cmp(b, a),
{
}

pub proof fn lemma_key_cmp_refl(p: Seq<Id>)
    ensures
        key_cmp(p, p) == 0,
    decreases p.len(),
{
    if p.len() > 0 {
        lemma_key_cmp_refl(p.drop_first());
    }
}

pub proof fn lemma_key_cmp_range(p: Seq<Id>, q: Seq<Id>)
    ensures
        -1 <= key_cmp(p, q) <= 1,
        key_cmp(p, q) == -key_cmp(q, p),
        (key_cmp(p, q) == 0) == (p == q),
    decreases p.len(),
{
    if p.len() > 0 && q.len() > 0 {
        lemma_id_cmp_eq(p[0], q[0]);
        if p[0] == q[0] {
            lemma_key_cmp_range(p.drop_first(), q.drop_first());
            if p.drop_first() == q.drop_first() {
                assert(p =~= seq![p[0]] + p.drop_first());
                assert(q =~= seq![q[0]] + q.drop_first());
            }
        }
    }
    if p.len() == 0 && q.len() == 0 {
        assert(p =~= q);
    }
}

pub proof fn lemma_key_cmp_trans(p: Seq<Id>, q: Seq<Id>, r: Seq<Id>)
    requires
        key_cmp(p, q) <= 0,
        key_cmp(q, r) <= 0,
    ensures
        key_cmp(p, r) <= 0,
        key_cmp(p, q) < 0 || key_cmp(q, r) < 0 ==> key_cmp(p, r) < 0,
    decreases p.len(),
{
    lemma_key_cmp_range(p, q);
    lemma_key_cmp_range(q, r);
    lemma_key_cmp_range(p, r);
    if p.len() > 0 && q.len() > 0 && r.len() > 0 {
        lemma_id_cmp_eq(p[0], q[0]);
        lemma_id_cmp_eq(q[0], r[0]);
        lemma_id_cmp_eq(p[0], r[0]);
        if p[0] == q[0] && q[0] == r[0] {
            lemma_key_cmp_trans(p.drop_first(), q.drop_first(), r.drop_first());
        }
    }
}

/// A key extended by a fresh id sorts right after its parent: after every
/// key not greater than the parent, and before every key greater than it.
pub proof fn lemma_key_extend(parent: Seq<Id>, n: Id, k: Seq<Id>, clock: u64)
    requires
        key_below(k, clock),
        n.counter > clock,
    ensures
        key_cmp(k, parent) <= 0 ==> key_cmp(k, parent.push(n)) < 0,
        key_cmp(parent, k) < 0 ==> key_cmp(parent.push(n), k) < 0,
    decreases parent.len(),
{
    lemma_key_cmp_range(k, parent);
    if parent.len() == 0 {
        assert(parent.push(n).drop_first() =~= Seq::<Id>::empty());
        if k.len() > 0 {
            assert(k[0].counter <= clock);
        }
    } else if k.len() > 0 {
        assert(parent.push(n)[0] == parent[0]);
        assert(parent.push(n).drop_first() =~= parent.drop_first().push(n));
        if k[0] == parent[0] {
            assert forall|i: int| 0 <= i < k.drop_first().len() implies (
            #[trigger] k.drop_first()[i]).counter <= clock by {
                assert(k.drop_first()[i] == k[i + 1]);
            }
            lemma_key_extend(parent.drop_first(), n, k.drop_first(), clock);
        }
    }
}

/// A key that extends `parent` by ids newer than `clock` sorts right after
/// `parent`: after every key not greater than it, before every key greater.
pub proof fn lemma_key_extend_run(parent: Seq<Id>, child: Seq<Id>, k: Seq<Id>, clock: u64)
    requires
        key_below(k, clock),
        child.len() > parent.len(),
        child.take(parent.len() as int) == parent,
        child[parent.len() as int].counter > clock,
    ensures
        key_cmp(k, parent) <= 0 ==> key_cmp(k, child) < 0,
        key_cmp(parent, k) < 0 ==> key_cmp(child, k) < 0,
    decreases parent.len(),
{
    lemma_key_cmp_range(k, parent);
    if parent.len() == 0 {
        if k.len() > 0 {
            assert(k[0].counter <= clock);
        }
    } else if k.len() > 0 {
        assert(child[0] == child.take(parent.len() as int)[0]);
        if k[0] == parent[0] {
            assert forall|i: int| 0 <= i < k.drop_first().len() implies (
            #[trigger] k.drop_first()[i]).counter <= clock by {
                assert(k.drop_first()[i] == k[i + 1]);
            }
            assert(child.drop_first().take(parent.drop_first().len() as int) =~= parent.drop_first())
                by {
                assert forall|i: int| 0 <= i < parent.drop_first().len() implies child.drop_first()[i]
                    == parent.drop_first()[i] by {
                    assert(child.take(parent.len() as int)[i + 1] == child[i + 1]);
                }
            }
            assert(child.drop_first()[parent.drop_first().len() as int] == child[parent.len() as int]);
            lemma_key_extend_run(parent.drop_first(), child.drop_first(), k.drop_first(), clock);
        }
    }
}

/// Compares two keys in document order.
pub fn compare_keys(p: &Vec<Id>, q: &Vec<Id>) -> (r: i8)
    ensures
        r as int == key_cmp(p@, q@),
{
    let mut i: usize = 0;
    assert(p@.skip(0) =~= p@);
    assert(q@.skip(0) =~= q@);
    while i < p.len() && i < q.len()
        invariant
            i <= p.len(),
            i <= q.len(),
            key_cmp(p@, q@) == key_cmp(p@.skip(i as int), q@.skip(i as int)),
            forall|j: int| 0 <= j < i ==> p@[j] == q@[j],
        decreases p.len() - i,
    {
        let a = p[i];
        let b = q[i];
        assert(p@.skip(i as int)[0] == a);
        assert(q@.skip(i as int)[0] == b);
        if a.counter != b.counter || a.actor != b.actor {
            if a.counter > b.counter || (a.counter == b.counter && a.actor > b.actor) {
                return -1;
            } else {
                return 1;
            }
        }
        assert(p@.skip(i as int).drop_first() =~= p@.skip(i + 1));
        assert(q@.skip(i as int).drop_first() =~= q@.skip(i + 1));
        i = i + 1;
    }
    if p.len() == q.len() {
        assert(p@ =~= q@);
        proof { lemma_key_cmp_refl(p@); }
        0
    } else if i == p.len() {
        -1
    } else {
        1
    }
}

/// A copy of a key.
pub fn copy_key(k: &Vec<Id>) -> (r: Vec<Id>)
    ensures
        r@ == k@,
{
    let mut out: Vec<Id> = Vec::new();
    let mut i: usize = 0;
    while i < k.len()
        invariant
            i <= k.len(),
            out@ == k@.take(i as int),
        decreases k.len() - i,
    {
        out.push(k[i]);
        i = i + 1;
        assert(out@ =~= k@.take(i as int));
    }
    assert(k@.take(i as int) =~= k@);
    out
}

} // verus!
