use vstd::prelude::*;

verus! {

/// Union of two sequences ordered by `cmp`: items that compare equal are
/// combined with `join`.
pub open spec fn merge_with<T>(
    a: Seq<T>,
    b: Seq<T>,
    cmp: spec_fn(T, T) -> int,
    join: spec_fn(T, T) -> T,
) -> Seq<T>
    decreases a.len() + b.len(),
{
    if a.len() == 0 {
        b
    } else if b.len() == 0 {
        a
    } else if cmp(a[0], b[0]) < 0 {
        seq![a[0]] + merge_with(a.drop_first(), b, cmp, join)
    } else if cmp(a[0], b[0]) > 0 {
        seq![b[0]] + merge_with(a, b.drop_first(), cmp, join)
    } else {
        seq![join(a[0], b[0])] + merge_with(a.drop_first(), b.drop_first(), cmp, join)
    }
}

/// `cmp` is a total order.
pub open spec fn total_order<T>(cmp: spec_fn(T, T) -> int) -> bool {
    &&& forall|x: T, y: T| #[trigger] cmp(x, y) == -cmp(y, x)
    &&& forall|x: T| #[trigger] cmp(x, x) == 0
    &&& forall|x: T, y: T, z: T|
        #![trigger cmp(x, y), cmp(y, z)]
        cmp(x, y) <= 0 && cmp(y, z) <= 0 ==> cmp(x, z) <= 0 && (cmp(x, y) < 0 || cmp(y, z) < 0
            ==> cmp(x, z) < 0)
}

/// `join` keeps the position of its first argument, is idempotent, and is
/// associative on equal positions.
pub open spec fn join_laws<T>(cmp: spec_fn(T, T) -> int, join: spec_fn(T, T) -> T) -> bool {
    &&& forall|x: T, y: T, z: T| cmp(x, y) == 0 ==> #[trigger] cmp(join(x, y), z) == cmp(x, z)
    &&& forall|x: T| #[trigger] join(x, x) == x
    &&& forall|x: T, y: T, z: T|
        cmp(x, y) == 0 && cmp(y, z) == 0 ==> #[trigger] join(join(x, y), z) == join(x, join(y, z))
}

/// Items of `a` and `b` at the same position join the same way in either order.
pub open spec fn agree<T>(
    a: Seq<T>,
    b: Seq<T>,
    cmp: spec_fn(T, T) -> int,
    join: spec_fn(T, T) -> T,
) -> bool {
    forall|i: int, j: int|
        0 <= i < a.len() && 0 <= j < b.len() && #[trigger] cmp(a[i], b[j]) == 0 ==> join(a[i], b[j])
            == join(b[j], a[i])
}

/// Strictly increasing under `cmp`.
pub open spec fn sorted_by<T>(s: Seq<T>, cmp: spec_fn(T, T) -> int) -> bool {
    forall|i: int, j: int| 0 <= i < j < s.len() ==> #[trigger] cmp(s[i], s[j]) < 0
}

pub proof fn lemma_merge_empty<T>(a: Seq<T>, cmp: spec_fn(T, T) -> int, join: spec_fn(T, T) -> T)
    ensures
        merge_with(a, Seq::empty(), cmp, join) == a,
        merge_with(Seq::empty(), a, cmp, join) == a,
{
}

pub proof fn lemma_merge_idempotent<T>(
    a: Seq<T>,
    cmp: spec_fn(T, T) -> int,
    join: spec_fn(T, T) -> T,
)
    requires
        total_order(cmp),
        join_laws(cmp, join),
    ensures
        merge_with(a, a, cmp, join) == a,
    decreases a.len(),
{
    if a.len() > 0 {
        assert(cmp(a[0], a[0]) == 0);
        assert(join(a[0], a[0]) == a[0]);
        lemma_merge_idempotent(a.drop_first(), cmp, join);
        assert(a =~= seq![a[0]] + a.drop_first());
    }
}

pub proof fn lemma_merge_commutes<T>(
    a: Seq<T>,
    b: Seq<T>,
    cmp: spec_fn(T, T) -> int,
    join: spec_fn(T, T) -> T,
)
    requires
        total_order(cmp),
        agree(a, b, cmp, join),
    ensures
        merge_with(a, b, cmp, join) == merge_with(b, a, cmp, join),
    decreases a.len() + b.len(),
{
    if a.len() > 0 && b.len() > 0 {
        let a1 = a.drop_first();
        let b1 = b.drop_first();
        assert(cmp(a[0], b[0]) == -cmp(b[0], a[0]));
        assert(agree(a1, b, cmp, join)) by {
            assert forall|i: int, j: int|
                0 <= i < a1.len() && 0 <= j < b.len() && #[trigger] cmp(a1[i], b[j]) == 0 implies join(
                a1[i],
                b[j],
            ) == join(b[j], a1[i]) by {
                assert(a1[i] == a[i + 1]);
            }
        }
        assert(agree(a, b1, cmp, join)) by {
            assert forall|i: int, j: int|
                0 <= i < a.len() && 0 <= j < b1.len() && #[trigger] cmp(a[i], b1[j]) == 0 implies join(
                a[i],
                b1[j],
            ) == join(b1[j], a[i]) by {
                assert(b1[j] == b[j + 1]);
            }
        }
        assert(agree(a1, b1, cmp, join)) by {
            assert forall|i: int, j: int|
                0 <= i < a1.len() && 0 <= j < b1.len() && #[trigger] cmp(a1[i], b1[j]) == 0 implies join(
                a1[i],
                b1[j],
            ) == join(b1[j], a1[i]) by {
                assert(a1[i] == a[i + 1]);
                assert(b1[j] == b[j + 1]);
            }
        }
        assert(agree(b, a1, cmp, join) == agree(b, a1, cmp, join));
        if cmp(a[0], b[0]) < 0 {
            lemma_merge_commutes(a1, b, cmp, join);
        } else if cmp(a[0], b[0]) > 0 {
            lemma_merge_commutes(a, b1, cmp, join);
        } else {
            assert(0 <= 0 < a.len() && 0 <= 0 < b.len());
            lemma_merge_commutes(a1, b1, cmp, join);
        }
    }
}

/// Unfolds one step of a merge whose left side is written as head and tail.
proof fn lemma_cons<T>(h: T, t: Seq<T>)
    ensures
        (seq![h] + t)[0] == h,
        (seq![h] + t).drop_first() == t,
        (seq![h] + t).len() > 0,
{
    assert((seq![h] + t).drop_first() =~= t);
}

pub proof fn lemma_merge_associates<T>(
    a: Seq<T>,
    b: Seq<T>,
    c: Seq<T>,
    cmp: spec_fn(T, T) -> int,
    join: spec_fn(T, T) -> T,
)
    requires
        total_order(cmp),
        join_laws(cmp, join),
    ensures
        merge_with(merge_with(a, b, cmp, join), c, cmp, join) == merge_with(
            a,
            merge_with(b, c, cmp, join),
            cmp,
            join,
        ),
    decreases a.len() + b.len() + c.len(),
{
    if a.len() == 0 || b.len() == 0 || c.len() == 0 {
        lemma_merge_empty(a, cmp, join);
        lemma_merge_empty(b, cmp, join);
        lemma_merge_empty(c, cmp, join);
        lemma_merge_empty(merge_with(a, b, cmp, join), cmp, join);
        lemma_merge_empty(merge_with(b, c, cmp, join), cmp, join);
    } else {
        let x = a[0];
        let y = b[0];
        let z = c[0];
        let a1 = a.drop_first();
        let b1 = b.drop_first();
        let c1 = c.drop_first();
        let ab = merge_with(a, b, cmp, join);
        let bc = merge_with(b, c, cmp, join);
        assert(cmp(x, y) == -cmp(y, x));
        assert(cmp(y, z) == -cmp(z, y));
        assert(cmp(x, z) == -cmp(z, x));
        if cmp(x, y) < 0 {
            lemma_cons(x, merge_with(a1, b, cmp, join));
            if cmp(x, z) < 0 {
                if cmp(y, z) <= 0 {
                    lemma_cons(if cmp(y, z) < 0 { y } else { join(y, z) }, if cmp(y, z) < 0 {
                        merge_with(b1, c, cmp, join)
                    } else {
                        merge_with(b1, c1, cmp, join)
                    });
                    if cmp(y, z) == 0 {
                        assert(cmp(join(y, z), x) == cmp(y, x));
                    }
                } else {
                    lemma_cons(z, merge_with(b, c1, cmp, join));
                }
                lemma_merge_associates(a1, b, c, cmp, join);
            } else if cmp(x, z) == 0 {
                assert(cmp(y, z) > 0);
                lemma_cons(z, merge_with(b, c1, cmp, join));
                assert(cmp(join(x, z), c[0]) == cmp(x, z));
                lemma_merge_associates(a1, b, c1, cmp, join);
            } else {
                lemma_cons(z, merge_with(b, c1, cmp, join));
                assert(cmp(y, z) > 0);
                lemma_merge_associates(a, b, c1, cmp, join);
            }
        } else if cmp(x, y) == 0 {
            lemma_cons(join(x, y), merge_with(a1, b1, cmp, join));
            assert(cmp(join(x, y), z) == cmp(x, z));
            if cmp(x, z) < 0 {
                assert(cmp(y, z) < 0);
                lemma_cons(y, merge_with(b1, c, cmp, join));
                lemma_merge_associates(a1, b1, c, cmp, join);
            } else if cmp(x, z) == 0 {
                assert(cmp(y, z) == 0);
                lemma_cons(join(y, z), merge_with(b1, c1, cmp, join));
                assert(cmp(join(y, z), x) == cmp(y, x));
                lemma_merge_associates(a1, b1, c1, cmp, join);
            } else {
                assert(cmp(y, z) > 0);
                lemma_cons(z, merge_with(b, c1, cmp, join));
                lemma_merge_associates(a, b, c1, cmp, join);
            }
        } else {
            lemma_cons(y, merge_with(a, b1, cmp, join));
            if cmp(y, z) < 0 {
                lemma_cons(y, merge_with(b1, c, cmp, join));
                lemma_merge_associates(a, b1, c, cmp, join);
            } else if cmp(y, z) == 0 {
                lemma_cons(join(y, z), merge_with(b1, c1, cmp, join));
                assert(cmp(join(y, z), x) == cmp(y, x));
                assert(cmp(join(y, z), c[0]) == cmp(y, z));
                lemma_merge_associates(a, b1, c1, cmp, join);
            } else {
                assert(cmp(x, z) > 0);
                lemma_cons(z, merge_with(b, c1, cmp, join));
                lemma_merge_associates(a, b, c1, cmp, join);
            }
        }
    }
}

/// Whatever lies strictly below every item of `a` and of `b` lies strictly
/// below every item of their merge.
pub proof fn lemma_merge_above<T>(
    a: Seq<T>,
    b: Seq<T>,
    w: T,
    cmp: spec_fn(T, T) -> int,
    join: spec_fn(T, T) -> T,
)
    requires
        total_order(cmp),
        join_laws(cmp, join),
        forall|i: int| 0 <= i < a.len() ==> cmp(w, #[trigger] a[i]) < 0,
        forall|j: int| 0 <= j < b.len() ==> cmp(w, #[trigger] b[j]) < 0,
    ensures
        forall|k: int|
            0 <= k < merge_with(a, b, cmp, join).len() ==> cmp(
                w,
                #[trigger] merge_with(a, b, cmp, join)[k],
            ) < 0,
    decreases a.len() + b.len(),
{
    if a.len() > 0 && b.len() > 0 {
        let a1 = a.drop_first();
        let b1 = b.drop_first();
        assert forall|i: int| 0 <= i < a1.len() implies cmp(w, #[trigger] a1[i]) < 0 by {
            assert(a1[i] == a[i + 1]);
        }
        assert forall|j: int| 0 <= j < b1.len() implies cmp(w, #[trigger] b1[j]) < 0 by {
            assert(b1[j] == b[j + 1]);
        }
        let m = merge_with(a, b, cmp, join);
        if cmp(a[0], b[0]) < 0 {
            lemma_merge_above(a1, b, w, cmp, join);
            assert(cmp(w, a[0]) < 0);
        } else if cmp(a[0], b[0]) > 0 {
            lemma_merge_above(a, b1, w, cmp, join);
            assert(cmp(w, b[0]) < 0);
        } else {
            lemma_merge_above(a1, b1, w, cmp, join);
            assert(cmp(w, a[0]) < 0);
            assert(cmp(join(a[0], b[0]), w) == cmp(a[0], w));
            assert(cmp(w, join(a[0], b[0])) == -cmp(join(a[0], b[0]), w));
        }
        assert forall|k: int| 0 <= k < m.len() implies cmp(w, #[trigger] m[k]) < 0 by {
            if k > 0 {
                if cmp(a[0], b[0]) < 0 {
                    assert(m[k] == merge_with(a1, b, cmp, join)[k - 1]);
                } else if cmp(a[0], b[0]) > 0 {
                    assert(m[k] == merge_with(a, b1, cmp, join)[k - 1]);
                } else {
                    assert(m[k] == merge_with(a1, b1, cmp, join)[k - 1]);
                }
            }
        }
    }
}

pub proof fn lemma_merge_sorted<T>(
    a: Seq<T>,
    b: Seq<T>,
    cmp: spec_fn(T, T) -> int,
    join: spec_fn(T, T) -> T,
)
    requires
        total_order(cmp),
        join_laws(cmp, join),
        sorted_by(a, cmp),
        sorted_by(b, cmp),
    ensures
        sorted_by(merge_with(a, b, cmp, join), cmp),
    decreases a.len() + b.len(),
{
    if a.len() > 0 && b.len() > 0 {
        let a1 = a.drop_first();
        let b1 = b.drop_first();
        assert(sorted_by(a1, cmp)) by {
            assert forall|i: int, j: int| 0 <= i < j < a1.len() implies #[trigger] cmp(
                a1[i],
                a1[j],
            ) < 0 by {
                assert(cmp(a[i + 1], a[j + 1]) < 0);
            }
        }
        assert(sorted_by(b1, cmp)) by {
            assert forall|i: int, j: int| 0 <= i < j < b1.len() implies #[trigger] cmp(
                b1[i],
                b1[j],
            ) < 0 by {
                assert(cmp(b[i + 1], b[j + 1]) < 0);
            }
        }
        assert forall|i: int| 0 <= i < a1.len() implies cmp(a[0], #[trigger] a1[i]) < 0 by {
            assert(a1[i] == a[i + 1]);
            assert(cmp(a[0], a[i + 1]) < 0);
        }
        assert forall|j: int| 0 <= j < b1.len() implies cmp(b[0], #[trigger] b1[j]) < 0 by {
            assert(b1[j] == b[j + 1]);
            assert(cmp(b[0], b[j + 1]) < 0);
        }
        let h: T;
        let rest: Seq<T>;
        if cmp(a[0], b[0]) < 0 {
            h = a[0];
            rest = merge_with(a1, b, cmp, join);
            lemma_merge_sorted(a1, b, cmp, join);
            assert forall|j: int| 0 <= j < b.len() implies cmp(h, #[trigger] b[j]) < 0 by {
                if j > 0 {
                    assert(cmp(b[0], b[j]) < 0);
                }
            }
            lemma_merge_above(a1, b, h, cmp, join);
        } else if cmp(a[0], b[0]) > 0 {
            h = b[0];
            rest = merge_with(a, b1, cmp, join);
            lemma_merge_sorted(a, b1, cmp, join);
            assert(cmp(b[0], a[0]) < 0);
            assert forall|i: int| 0 <= i < a.len() implies cmp(h, #[trigger] a[i]) < 0 by {
                if i > 0 {
                    assert(cmp(a[0], a[i]) < 0);
                }
            }
            lemma_merge_above(a, b1, h, cmp, join);
        } else {
            h = join(a[0], b[0]);
            rest = merge_with(a1, b1, cmp, join);
            lemma_merge_sorted(a1, b1, cmp, join);
            assert forall|i: int| 0 <= i < a1.len() implies cmp(h, #[trigger] a1[i]) < 0 by {
                assert(cmp(h, a1[i]) == cmp(a[0], a1[i]));
            }
            assert forall|j: int| 0 <= j < b1.len() implies cmp(h, #[trigger] b1[j]) < 0 by {
                assert(cmp(h, b1[j]) == cmp(a[0], b1[j]));
                assert(cmp(a[0], b[0]) <= 0 && cmp(b[0], b1[j]) <= 0);
            }
            lemma_merge_above(a1, b1, h, cmp, join);
        }
        let m = merge_with(a, b, cmp, join);
        assert(m == seq![h] + rest);
        assert forall|i: int, j: int| 0 <= i < j < m.len() implies #[trigger] cmp(m[i], m[j]) < 0 by {
            if i == 0 {
                assert(m[j] == rest[j - 1]);
            } else {
                assert(m[i] == rest[i - 1]);
                assert(m[j] == rest[j - 1]);
            }
        }
    }
}

/// A property held by every item of `a` and `b`, and kept by `join`, holds of
/// every item of their merge.
pub proof fn lemma_merge_keeps<T>(
    a: Seq<T>,
    b: Seq<T>,
    p: spec_fn(T) -> bool,
    cmp: spec_fn(T, T) -> int,
    join: spec_fn(T, T) -> T,
)
    requires
        forall|i: int| 0 <= i < a.len() ==> p(#[trigger] a[i]),
        forall|j: int| 0 <= j < b.len() ==> p(#[trigger] b[j]),
        forall|x: T, y: T| p(x) && p(y) && cmp(x, y) == 0 ==> #[trigger] p(join(x, y)),
    ensures
        forall|k: int|
            0 <= k < merge_with(a, b, cmp, join).len() ==> p(
                #[trigger] merge_with(a, b, cmp, join)[k],
            ),
    decreases a.len() + b.len(),
{
    if a.len() > 0 && b.len() > 0 {
        let a1 = a.drop_first();
        let b1 = b.drop_first();
        assert forall|i: int| 0 <= i < a1.len() implies p(#[trigger] a1[i]) by {
            assert(a1[i] == a[i + 1]);
        }
        assert forall|j: int| 0 <= j < b1.len() implies p(#[trigger] b1[j]) by {
            assert(b1[j] == b[j + 1]);
        }
        assert(p(a[0]) && p(b[0]));
        if cmp(a[0], b[0]) < 0 {
            lemma_merge_keeps(a1, b, p, cmp, join);
        } else if cmp(a[0], b[0]) > 0 {
            lemma_merge_keeps(a, b1, p, cmp, join);
        } else {
            lemma_merge_keeps(a1, b1, p, cmp, join);
        }
        let m = merge_with(a, b, cmp, join);
        assert forall|k: int| 0 <= k < m.len() implies p(#[trigger] m[k]) by {
            if k > 0 {
                if cmp(a[0], b[0]) < 0 {
                    assert(m[k] == merge_with(a1, b, cmp, join)[k - 1]);
                } else if cmp(a[0], b[0]) > 0 {
                    assert(m[k] == merge_with(a, b1, cmp, join)[k - 1]);
                } else {
                    assert(m[k] == merge_with(a1, b1, cmp, join)[k - 1]);
                }
            }
        }
    }
}

} // verus!
