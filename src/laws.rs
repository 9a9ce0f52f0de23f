use vstd::prelude::*;

use crate::scope::{
    counted, gens, has_visible, increasing, is_visible, lemma_visible_unique, pending_at,
    produced, visible, Generation, Ledger,
};

verus! {

/// The ledger after a count change of `delta` at each position of `ps`, in
/// order, on the generation of `n` visible there.
pub open spec fn counted_along(m: Ledger, n: Seq<char>, ps: Seq<int>, delta: int) -> Ledger
    decreases ps.len(),
{
    if ps.len() == 0 {
        m
    } else {
        counted(counted_along(m, n, ps.drop_last(), delta), n, ps.last(), delta)
    }
}

/// A count change keeps the same generation visible and moves its counter
/// by `delta`, leaving every other generation as it was.
pub proof fn lemma_counted_step(m: Ledger, n: Seq<char>, p: int, delta: int)
    requires
        has_visible(gens(m, n), p),
        0 <= pending_at(m, n, p) + delta <= usize::MAX,
    ensures
        has_visible(gens(counted(m, n, p, delta), n), p),
        visible(gens(counted(m, n, p, delta), n), p) == visible(gens(m, n), p),
        pending_at(counted(m, n, p, delta), n, p) == pending_at(m, n, p) + delta,
        gens(counted(m, n, p, delta), n).len() == gens(m, n).len(),
        forall|j: int| 0 <= j < gens(m, n).len() && j != visible(gens(m, n), p)
            ==> #[trigger] gens(counted(m, n, p, delta), n)[j] == gens(m, n)[j],
        forall|j: int| 0 <= j < gens(m, n).len()
            ==> (#[trigger] gens(counted(m, n, p, delta), n)[j]).position == gens(m, n)[j].position,
{
    let g = gens(m, n);
    let i = visible(g, p);
    let g2 = gens(counted(m, n, p, delta), n);
    assert(g2 == g.update(i, Generation { pending_uses: (g[i].pending_uses + delta) as usize, ..g[i] }));
    assert(is_visible(g2, p, i));
    lemma_visible_unique(g2, p, i);
}

/// Count changes at positions that all see generation `i` change only that
/// generation's counter, by `delta` each, and it stays visible at each of
/// them.
pub proof fn lemma_counted_along(m: Ledger, n: Seq<char>, ps: Seq<int>, i: int, delta: int)
    requires
        delta == 1 || delta == -1,
        forall|k: int| 0 <= k < ps.len() ==> is_visible(gens(m, n), #[trigger] ps[k], i),
        0 <= gens(m, n)[i].pending_uses + delta * ps.len() <= usize::MAX,
    ensures
        gens(counted_along(m, n, ps, delta), n).len() == gens(m, n).len(),
        forall|k: int| 0 <= k < ps.len()
            ==> is_visible(gens(counted_along(m, n, ps, delta), n), #[trigger] ps[k], i),
        gens(counted_along(m, n, ps, delta), n)[i].pending_uses
            == gens(m, n)[i].pending_uses + delta * ps.len(),
        forall|j: int| 0 <= j < gens(m, n).len() && j != i
            ==> #[trigger] gens(counted_along(m, n, ps, delta), n)[j] == gens(m, n)[j],
        forall|j: int| 0 <= j < gens(m, n).len()
            ==> (#[trigger] gens(counted_along(m, n, ps, delta), n)[j]).position == gens(m, n)[j].position,
    decreases ps.len(),
{
    if ps.len() > 0 {
        let qs = ps.drop_last();
        assert forall|k: int| 0 <= k < qs.len() implies is_visible(gens(m, n), #[trigger] qs[k], i) by {
            assert(qs[k] == ps[k]);
        }
        assert(0 <= gens(m, n)[i].pending_uses + delta * qs.len() <= usize::MAX) by (nonlinear_arith)
            requires
                delta == 1 || delta == -1,
                0 <= gens(m, n)[i].pending_uses,
                0 <= gens(m, n)[i].pending_uses + delta * ps.len() <= usize::MAX,
                qs.len() + 1 == ps.len(),
        ;
        lemma_counted_along(m, n, qs, i, delta);
        let before = counted_along(m, n, qs, delta);
        let g1 = gens(before, n);
        assert(is_visible(g1, ps.last(), i)) by {
            assert(is_visible(gens(m, n), ps[ps.len() - 1], i));
            assert forall|x: int| i < x < g1.len() implies ps.last() < #[trigger] g1[x].position by {
                assert(g1[x].position == gens(m, n)[x].position);
            }
        }
        lemma_visible_unique(g1, ps.last(), i);
        assert(g1[i].pending_uses + delta * 1 == gens(m, n)[i].pending_uses + delta * ps.len()) by (nonlinear_arith)
            requires
                g1[i].pending_uses == gens(m, n)[i].pending_uses + delta * qs.len(),
                qs.len() + 1 == ps.len(),
        ;
        lemma_counted_step(before, n, ps.last(), delta);
        let g2 = gens(counted_along(m, n, ps, delta), n);
        assert forall|k: int| 0 <= k < ps.len() implies is_visible(g2, #[trigger] ps[k], i) by {
            if k < qs.len() {
                assert(qs[k] == ps[k]);
            }
            assert(is_visible(gens(m, n), ps[k], i));
            assert forall|x: int| i < x < g2.len() implies ps[k] < #[trigger] g2[x].position by {
                assert(g2[x].position == gens(m, n)[x].position);
            }
        }
    }
}

/// Registering one future use at each position of `ps`, all of which see
/// generation `i`, adds exactly `ps.len()` pending uses to it.
pub proof fn lemma_registered_uses_add_up(m: Ledger, n: Seq<char>, ps: Seq<int>, i: int)
    requires
        forall|k: int| 0 <= k < ps.len() ==> is_visible(gens(m, n), #[trigger] ps[k], i),
        gens(m, n)[i].pending_uses + ps.len() <= usize::MAX,
    ensures
        gens(counted_along(m, n, ps, 1), n)[i].pending_uses == gens(m, n)[i].pending_uses + ps.len(),
{
    lemma_counted_along(m, n, ps, i, 1);
}

/// Resolving, in order, one use at each position of `ps`, all of which see
/// generation `i` and which account for all of its `ps.len()` pending uses:
/// the `j`-th resolution finds a pending use, and it duplicates the value
/// unless it is the last, which moves it. Afterwards the generation has no
/// pending use, so one more resolution is a protocol violation.
pub proof fn lemma_last_use_moves(m: Ledger, n: Seq<char>, ps: Seq<int>, i: int, j: int)
    requires
        forall|k: int| 0 <= k < ps.len() ==> is_visible(gens(m, n), #[trigger] ps[k], i),
        gens(m, n)[i].pending_uses == ps.len(),
        0 <= j < ps.len(),
    ensures
        has_visible(gens(counted_along(m, n, ps.take(j), -1), n), ps[j]),
        pending_at(counted_along(m, n, ps.take(j), -1), n, ps[j]) > 0,
        pending_at(counted_along(m, n, ps.take(j), -1), n, ps[j]) > 1 <==> j + 1 < ps.len(),
        gens(counted_along(m, n, ps, -1), n)[i].pending_uses == 0,
{
    let qs = ps.take(j);
    assert forall|k: int| 0 <= k < qs.len() implies is_visible(gens(m, n), #[trigger] qs[k], i) by {
        assert(qs[k] == ps[k]);
    }
    lemma_counted_along(m, n, qs, i, -1);
    let g1 = gens(counted_along(m, n, qs, -1), n);
    assert(is_visible(gens(m, n), ps[j], i));
    assert forall|x: int| i < x < g1.len() implies ps[j] < #[trigger] g1[x].position by {
        assert(g1[x].position == gens(m, n)[x].position);
    }
    assert(is_visible(g1, ps[j], i));
    lemma_visible_unique(g1, ps[j], i);
    lemma_counted_along(m, n, ps, i, -1);
}

/// When some generation of `g` is at or before `p`, one is visible at `p`,
/// and it is not before that one.
pub proof fn lemma_some_visible(g: Seq<Generation>, p: int, k: int)
    requires
        0 <= k < g.len(),
        g[k].position <= p,
    ensures
        has_visible(g, p),
        k <= visible(g, p),
    decreases g.len(),
{
    let last = g.len() - 1;
    if g[last].position <= p {
        assert(is_visible(g, p, last));
        lemma_visible_unique(g, p, last);
    } else {
        let h = g.drop_last();
        lemma_some_visible(h, p, k);
        let i = visible(h, p);
        assert forall|x: int| i < x < g.len() implies p < #[trigger] g[x].position by {
            if x < last {
                assert(h[x] == g[x]);
            }
        }
        assert(is_visible(g, p, i));
        lemma_visible_unique(g, p, i);
    }
}

/// Shadowing: once a name is produced again at or before `p`, registering
/// or resolving a use at `p` leaves every earlier generation untouched.
pub proof fn lemma_shadowed_untouched(m: Ledger, n: Seq<char>, p: int, delta: int, j: int, k: int)
    requires
        0 <= j < k < gens(m, n).len(),
        gens(m, n)[k].position <= p,
        0 <= pending_at(m, n, p) + delta <= usize::MAX,
    ensures
        visible(gens(m, n), p) != j,
        gens(counted(m, n, p, delta), n)[j] == gens(m, n)[j],
{
    lemma_some_visible(gens(m, n), p, k);
    lemma_counted_step(m, n, p, delta);
}

/// Producing a name twice at one position is the same as producing it once,
/// and leaves exactly one generation of it at that position; producing it at
/// a position it already has changes nothing, counters included.
pub proof fn lemma_produce_idempotent(m: Ledger, n: Seq<char>, p: int)
    requires
        0 <= p <= usize::MAX,
        increasing(gens(m, n)),
        forall|i: int| 0 <= i < gens(m, n).len() ==> #[trigger] gens(m, n)[i].position <= p,
    ensures
        produced(produced(m, n, p), n, p) == produced(m, n, p),
        (exists|i: int| 0 <= i < gens(m, n).len() && gens(m, n)[i].position == p)
            ==> produced(m, n, p) == m,
        increasing(gens(produced(m, n, p), n)),
        exists|i: int| 0 <= i < gens(produced(m, n, p), n).len()
            && gens(produced(m, n, p), n)[i].position == p,
        forall|i: int, j: int|
            0 <= i < gens(produced(m, n, p), n).len() && 0 <= j < gens(produced(m, n, p), n).len()
            && gens(produced(m, n, p), n)[i].position == p
            && gens(produced(m, n, p), n)[j].position == p ==> i == j,
{
    let g = gens(m, n);
    if !(exists|i: int| 0 <= i < g.len() && g[i].position == p) {
        let g2 = gens(produced(m, n, p), n);
        assert(g2 == g.push(Generation { position: p as usize, pending_uses: 0 }));
        assert(g2[g.len() as int].position == p);
        assert forall|a: int, b: int| 0 <= a < b < g2.len() implies g2[a].position < g2[b].position by {
            if b == g.len() {
                assert(g[a].position <= p);
                assert(g[a].position != p);
            }
        }
    }
}

} // verus!
