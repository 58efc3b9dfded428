//! Top-k pruning of a transition table: keep the most probable outcomes of
//! each `(action, theta)`.
use vstd::prelude::*;
use vstd::set_lib::{set_int_range, lemma_int_range, lemma_len_subset};
use crate::params::{MAX_OUTCOMES, N_ACTIONS, N_THETA};
use crate::transitions::{Offset, TransitionModel, valid_pair};

verus! {

/// `i` is the greedy pick among the first `lim` outcomes not in `used`: it has
/// the largest probability, and no earlier unused outcome ties it.
pub open spec fn is_pick(p: Seq<u32>, lim: int, used: Set<int>, i: int) -> bool {
    &&& 0 <= i < lim
    &&& !used.contains(i)
    &&& forall|j: int| 0 <= j < lim && !used.contains(j) ==> #[trigger] p[j] <= p[i] && (j < i ==> p[j] < p[i])
}

/// `sel` are successive greedy picks: each the pick among the outcomes not yet picked.
pub open spec fn greedy_picks(p: Seq<u32>, lim: int, sel: Seq<int>) -> bool {
    forall|d: int| 0 <= d < sel.len() ==> is_pick(p, lim, sel.take(d).to_set(), #[trigger] sel[d])
}

/// Slot `d` of a pruned row: the outcome `src[sel[d]]` for the first `cnt` slots, zero after.
pub open spec fn picked_row<T>(src: Seq<T>, sel: Seq<int>, cnt: int, zero: T, dst: Seq<T>) -> bool {
    forall|d: int| 0 <= d < MAX_OUTCOMES ==> #[trigger] dst[d] == if d < cnt { src[sel[d]] } else { zero }
}

/// How many outcomes of a record with count `n` the table holds: `n`, capped at `MAX_OUTCOMES`.
pub open spec fn lim_of(n: u8) -> int {
    if n < MAX_OUTCOMES { n as int } else { MAX_OUTCOMES as int }
}

/// The outcome count kept for a request of `k`: `k` clamped to `1 ..= MAX_OUTCOMES`.
pub open spec fn keep_of(k: u32) -> int {
    if k < 1 { 1 } else if k > MAX_OUTCOMES { MAX_OUTCOMES as int } else { k as int }
}

/// A pruned row `(n2, x2, y2, t2, p2)` of the row `(n, x, y, t, p)` kept to `keep`
/// outcomes: rows with at most `keep` outcomes are copied, larger ones keep their
/// `keep` greedy picks (among the first `MAX_OUTCOMES` outcomes) in pick order;
/// unused slots are zero.
pub open spec fn row_pruned(n: u8, x: [Offset; MAX_OUTCOMES], y: [Offset; MAX_OUTCOMES], t: [Offset; MAX_OUTCOMES], p: [u32; MAX_OUTCOMES],
    n2: u8, x2: [Offset; MAX_OUTCOMES], y2: [Offset; MAX_OUTCOMES], t2: [Offset; MAX_OUTCOMES], p2: [u32; MAX_OUTCOMES], keep: int) -> bool {
    &&& n as int <= keep ==> {
        let id = Seq::new(MAX_OUTCOMES as nat, |d: int| d);
        &&& n2 == n
        &&& picked_row(x@, id, n as int, 0i8, x2@)
        &&& picked_row(y@, id, n as int, 0i8, y2@)
        &&& picked_row(t@, id, n as int, 0i8, t2@)
        &&& picked_row(p@, id, n as int, 0u32, p2@)
    }
    &&& n as int > keep ==> {
        &&& n2 == keep
        &&& exists|sel: Seq<int>| #![trigger greedy_picks(p@, lim_of(n), sel)]
            sel.len() == keep && greedy_picks(p@, lim_of(n), sel)
            && picked_row(x@, sel, keep, 0i8, x2@)
            && picked_row(y@, sel, keep, 0i8, y2@)
            && picked_row(t@, sel, keep, 0i8, t2@)
            && picked_row(p@, sel, keep, 0u32, p2@)
    }
}

/// Record `(a, it)` of `r` is record `(a, it)` of `m` pruned to `keep` outcomes.
pub open spec fn record_pruned(m: TransitionModel, r: TransitionModel, a: int, it: int, keep: int) -> bool {
    row_pruned(m.n_outcomes[a][it], m.dix[a][it], m.diy[a][it], m.dit[a][it], m.prob[a][it],
        r.n_outcomes[a][it], r.dix[a][it], r.diy[a][it], r.dit[a][it], r.prob[a][it], keep)
}

/// Keeping `MAX_OUTCOMES` or more prunes nothing: a record with at most
/// `MAX_OUTCOMES` outcomes keeps its count and its outcomes in order, and its
/// slots past the count are zero.
pub proof fn lemma_full_keep_copies(m: TransitionModel, r: TransitionModel, k: u32, a: int, it: int)
    requires
        k >= MAX_OUTCOMES,
        valid_pair(a, it),
        record_pruned(m, r, a, it, keep_of(k)),
        m.n_outcomes[a][it] <= MAX_OUTCOMES,
    ensures
        r.n_outcomes[a][it] == m.n_outcomes[a][it],
        forall|d: int| 0 <= d < m.n_outcomes[a][it] ==> {
            &&& #[trigger] r.dix[a][it][d] == m.dix[a][it][d]
            &&& r.diy[a][it][d] == m.diy[a][it][d]
            &&& r.dit[a][it][d] == m.dit[a][it][d]
            &&& r.prob[a][it][d] == m.prob[a][it][d]
        },
        forall|d: int| m.n_outcomes[a][it] <= d < MAX_OUTCOMES ==> {
            &&& #[trigger] r.dix[a][it][d] == 0
            &&& r.diy[a][it][d] == 0
            &&& r.dit[a][it][d] == 0
            &&& r.prob[a][it][d] == 0
        },
{
    let id = Seq::new(MAX_OUTCOMES as nat, |d: int| d);
    assert forall|d: int| 0 <= d < MAX_OUTCOMES implies #[trigger] id[d] == d by {}
    assert forall|d: int| 0 <= d < MAX_OUTCOMES implies {
        &&& #[trigger] r.dix[a][it][d] == (if d < m.n_outcomes[a][it] { m.dix[a][it][d] } else { 0 })
        &&& r.diy[a][it][d] == (if d < m.n_outcomes[a][it] { m.diy[a][it][d] } else { 0 })
        &&& r.dit[a][it][d] == (if d < m.n_outcomes[a][it] { m.dit[a][it][d] } else { 0 })
        &&& r.prob[a][it][d] == (if d < m.n_outcomes[a][it] { m.prob[a][it][d] } else { 0 })
    } by {
        assert(id[d] == d);
        assert(r.dix[a][it]@[d] == r.dix[a][it][d]);
        assert(r.diy[a][it]@[d] == r.diy[a][it][d]);
        assert(r.dit[a][it]@[d] == r.dit[a][it][d]);
        assert(r.prob[a][it]@[d] == r.prob[a][it][d]);
    }
}

/// Parameters of the 16-bit frontier variant on a transition table pruned to
/// the `k` most probable outcomes of each `(action, theta)` (see
/// [`prune_topk`]): the bound and the variant's name.
pub struct Frontier3DTopK {
    pub k: u32,
}

impl Frontier3DTopK {
    /// Name of the solver.
    pub fn name(&self) -> (r: &'static str)
        ensures
            r@ == "frontier_3d_topk"@,
    {
        "frontier_3d_topk"
    }
}

/// One pruned record: the count and the four rows.
fn prune_record(n: u8, dx: [Offset; MAX_OUTCOMES], dy: [Offset; MAX_OUTCOMES], dt: [Offset; MAX_OUTCOMES], pr: [u32; MAX_OUTCOMES], keep: usize)
    -> (r: (u8, [Offset; MAX_OUTCOMES], [Offset; MAX_OUTCOMES], [Offset; MAX_OUTCOMES], [u32; MAX_OUTCOMES]))
    requires
        1 <= keep <= MAX_OUTCOMES,
    ensures
        row_pruned(n, dx, dy, dt, pr, r.0, r.1, r.2, r.3, r.4, keep as int),
{
    let mut ox = [0i8; MAX_OUTCOMES];
    let mut oy = [0i8; MAX_OUTCOMES];
    let mut ot = [0i8; MAX_OUTCOMES];
    let mut op = [0u32; MAX_OUTCOMES];
    if (n as usize) <= keep {
        let ghost id = Seq::new(MAX_OUTCOMES as nat, |d: int| d);
        let mut k: usize = 0;
        while k < n as usize
            invariant
                n as usize <= keep <= MAX_OUTCOMES,
                0 <= k <= n,
                forall|d: int| 0 <= d < MAX_OUTCOMES ==> #[trigger] ox@[d] == if d < k { dx@[d] } else { 0i8 },
                forall|d: int| 0 <= d < MAX_OUTCOMES ==> #[trigger] oy@[d] == if d < k { dy@[d] } else { 0i8 },
                forall|d: int| 0 <= d < MAX_OUTCOMES ==> #[trigger] ot@[d] == if d < k { dt@[d] } else { 0i8 },
                forall|d: int| 0 <= d < MAX_OUTCOMES ==> #[trigger] op@[d] == if d < k { pr@[d] } else { 0u32 },
            decreases n - k,
        {
            ox[k] = dx[k];
            oy[k] = dy[k];
            ot[k] = dt[k];
            op[k] = pr[k];
            k += 1;
        }
        return (n, ox, oy, ot, op);
    }
    let lim: usize = if (n as usize) < MAX_OUTCOMES { n as usize } else { MAX_OUTCOMES };
    let mut used = [false; MAX_OUTCOMES];
    let ghost mut sel: Seq<int> = Seq::empty();
    let mut dst: usize = 0;
    while dst < keep
        invariant
            1 <= keep <= MAX_OUTCOMES,
            keep < n,
            keep <= lim <= MAX_OUTCOMES,
            lim == lim_of(n),
            0 <= dst <= keep,
            sel.len() == dst,
            greedy_picks(pr@, lim as int, sel),
            forall|j: int| 0 <= j < MAX_OUTCOMES ==> #[trigger] used@[j] == sel.to_set().contains(j),
            forall|d: int| 0 <= d < MAX_OUTCOMES ==> #[trigger] ox@[d] == if d < dst { dx@[sel[d]] } else { 0i8 },
            forall|d: int| 0 <= d < MAX_OUTCOMES ==> #[trigger] oy@[d] == if d < dst { dy@[sel[d]] } else { 0i8 },
            forall|d: int| 0 <= d < MAX_OUTCOMES ==> #[trigger] ot@[d] == if d < dst { dt@[sel[d]] } else { 0i8 },
            forall|d: int| 0 <= d < MAX_OUTCOMES ==> #[trigger] op@[d] == if d < dst { pr@[sel[d]] } else { 0u32 },
            forall|d: int| 0 <= d < dst ==> 0 <= #[trigger] sel[d] < lim,
        decreases keep - dst,
    {
        proof {
            assert forall|j: int| 0 <= j < MAX_OUTCOMES && sel.to_set().contains(j) implies j < lim by {
                let d = choose|d: int| 0 <= d < sel.len() && sel[d] == j;
            }
            if forall|j: int| 0 <= j < lim ==> #[trigger] used@[j] {
                lemma_int_range(0, lim as int);
                sel.lemma_cardinality_of_set();
                assert(set_int_range(0, lim as int).subset_of(sel.to_set())) by {
                    assert forall|j: int| set_int_range(0, lim as int).contains(j) implies sel.to_set().contains(j) by {
                        assert(used@[j]);
                    }
                }
                lemma_len_subset(set_int_range(0, lim as int), sel.to_set());
                assert(false);
            }
        }
        let mut best_k: usize = 0;
        let mut best_prob: i64 = -1;
        let mut k: usize = 0;
        while k < lim
            invariant
                lim <= MAX_OUTCOMES,
                0 <= k <= lim,
                best_prob == -1 ==> forall|j: int| 0 <= j < k ==> #[trigger] used@[j],
                best_prob >= 0 ==> {
                    &&& best_k < k
                    &&& !used@[best_k as int]
                    &&& best_prob == pr@[best_k as int]
                    &&& forall|j: int| 0 <= j < k && !#[trigger] used@[j] ==> pr@[j] <= best_prob && (j < best_k ==> pr@[j] < best_prob)
                },
                best_prob >= -1,
            decreases lim - k,
        {
            let p = pr[k] as i64;
            if !used[k] && p > best_prob {
                best_prob = p;
                best_k = k;
            }
            k += 1;
        }
        proof {
            assert(best_prob >= 0);
            let used_set = sel.to_set();
            assert(is_pick(pr@, lim as int, used_set, best_k as int)) by {
                assert forall|j: int| 0 <= j < lim && !used_set.contains(j) implies #[trigger] pr@[j] <= pr@[best_k as int]
                    && (j < best_k ==> pr@[j] < pr@[best_k as int]) by {
                    assert(!used@[j]);
                }
            }
            let sel2 = sel.push(best_k as int);
            assert(sel2.take(dst as int) =~= sel);
            assert forall|d: int| 0 <= d < sel2.len() implies is_pick(pr@, lim as int, sel2.take(d).to_set(), #[trigger] sel2[d]) by {
                if d < dst {
                    assert(sel2.take(d) =~= sel.take(d));
                    assert(sel2[d] == sel[d]);
                }
            }
            assert forall|j: int| 0 <= j < MAX_OUTCOMES implies (j == best_k || #[trigger] used@[j]) == sel2.to_set().contains(j) by {
                if sel2.to_set().contains(j) && j != best_k {
                    let d = choose|d: int| 0 <= d < sel2.len() && sel2[d] == j;
                    assert(sel[d] == j);
                    assert(sel.to_set().contains(j));
                }
                if used@[j] {
                    let d = choose|d: int| 0 <= d < sel.len() && sel[d] == j;
                    assert(sel2[d] == j);
                }
                if j == best_k {
                    assert(sel2[dst as int] == j);
                }
            }
            sel = sel2;
        }
        used[best_k] = true;
        ox[dst] = dx[best_k];
        oy[dst] = dy[best_k];
        ot[dst] = dt[best_k];
        op[dst] = pr[best_k];
        dst += 1;
    }
    let r = (keep as u8, ox, oy, ot, op);
    proof {
        assert(picked_row(dx@, sel, keep as int, 0i8, r.1@));
        assert(picked_row(dy@, sel, keep as int, 0i8, r.2@));
        assert(picked_row(dt@, sel, keep as int, 0i8, r.3@));
        assert(picked_row(pr@, sel, keep as int, 0u32, r.4@));
        assert(greedy_picks(pr@, lim as int, sel));
    }
    r
}

/// Prune `model` to at most `k` outcomes (clamped to `1 ..= MAX_OUTCOMES`) per
/// `(action, theta)`: records with no more outcomes are copied, larger ones keep
/// their most probable outcomes, picked greedily with ties going to the earlier
/// outcome; unused slots are zero.
pub fn prune_topk(model: &TransitionModel, k: u32) -> (r: TransitionModel)
    ensures
        forall|a: int, it: int| valid_pair(a, it) ==> #[trigger] record_pruned(*model, r, a, it, keep_of(k)),
{
    let keep: usize = if k < 1 { 1 } else if k as usize > MAX_OUTCOMES { MAX_OUTCOMES } else { k as usize };
    let mut pruned = TransitionModel::default();
    for a in 0..N_ACTIONS
        invariant
            keep == keep_of(k),
            forall|a2: int, it2: int| #![trigger pruned.n_outcomes[a2][it2]] 0 <= a2 < a && 0 <= it2 < N_THETA ==> record_pruned(*model, pruned, a2, it2, keep as int),
    {
        let mut an = [0u8; N_THETA];
        let mut ax = [[0i8; MAX_OUTCOMES]; N_THETA];
        let mut ay = [[0i8; MAX_OUTCOMES]; N_THETA];
        let mut at = [[0i8; MAX_OUTCOMES]; N_THETA];
        let mut ap = [[0u32; MAX_OUTCOMES]; N_THETA];
        for it in 0..N_THETA
            invariant
                0 <= a < N_ACTIONS,
                keep == keep_of(k),
                forall|a2: int, it2: int| #![trigger pruned.n_outcomes[a2][it2]] 0 <= a2 < a && 0 <= it2 < N_THETA ==> record_pruned(*model, pruned, a2, it2, keep as int),
                forall|it2: int| #![trigger an[it2]] 0 <= it2 < it ==> row_pruned(model.n_outcomes[a as int][it2], model.dix[a as int][it2],
                    model.diy[a as int][it2], model.dit[a as int][it2], model.prob[a as int][it2], an[it2], ax[it2], ay[it2], at[it2], ap[it2], keep as int),
        {
            let (n, dx, dy, dt, pr) = prune_record(model.n_outcomes[a][it], model.dix[a][it], model.diy[a][it], model.dit[a][it], model.prob[a][it], keep);
            an[it] = n;
            ax[it] = dx;
            ay[it] = dy;
            at[it] = dt;
            ap[it] = pr;
        }
        pruned.n_outcomes[a] = an;
        pruned.dix[a] = ax;
        pruned.diy[a] = ay;
        pruned.dit[a] = at;
        pruned.prob[a] = ap;
        proof {
            assert forall|it2: int| #![trigger pruned.n_outcomes[a as int][it2]] 0 <= it2 < N_THETA implies record_pruned(*model, pruned, a as int, it2, keep as int) by {
                assert(row_pruned(model.n_outcomes[a as int][it2], model.dix[a as int][it2],
                    model.diy[a as int][it2], model.dit[a as int][it2], model.prob[a as int][it2], an[it2], ax[it2], ay[it2], at[it2], ap[it2], keep as int));
            }
        }
    }
    pruned
}

} // verus!
