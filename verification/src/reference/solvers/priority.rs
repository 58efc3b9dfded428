//! Shared pieces of the priority-ordered solvers, which call the per-state
//! update in increasing order of value.
use vstd::prelude::*;
use crate::reference::state::Action;
use crate::reference::value_iterator::{StateSpace, update_at, lemma_update_keeps, actions_ok, action_ok, transition_ok};

verus! {

/// Re-evaluates state `idx` with the per-state update; gives its new cost when
/// the update lowered it.
pub fn relax_cell(vi: &mut StateSpace, idx: usize) -> (r: Option<u64>)
    requires
        old(vi).wf(),
        idx < old(vi).states@.len(),
    ensures
        final(vi).wf(),
        final(vi).actions@ == old(vi).actions@,
        final(vi).cell_num_x == old(vi).cell_num_x,
        final(vi).cell_num_y == old(vi).cell_num_y,
        final(vi).cell_num_t == old(vi).cell_num_t,
        final(vi).states@ == update_at(old(vi).states@, old(vi).actions@, idx as int,
            old(vi).cell_num_x as int, old(vi).cell_num_y as int, old(vi).cell_num_t as int),
        r == (if final(vi).states@[idx as int].total_cost < old(vi).states@[idx as int].total_cost {
            Some(final(vi).states@[idx as int].total_cost)
        } else {
            None
        }),
{
    let before = vi.states[idx].total_cost;
    vi.value_iteration_at(idx);
    let after = vi.states[idx].total_cost;
    if after < before { Some(after) } else { None }
}

/// Lexicographic order of offset triples.
pub open spec fn lt3(a: (i32, i32, i32), b: (i32, i32, i32)) -> bool {
    a.0 < b.0 || (a.0 == b.0 && (a.1 < b.1 || (a.1 == b.1 && a.2 < b.2)))
}

/// `v` is strictly increasing.
pub open spec fn sorted3(v: Seq<(i32, i32, i32)>) -> bool {
    forall|i: int, j: int| 0 <= i < j < v.len() ==> lt3(#[trigger] v[i], #[trigger] v[j])
}

/// Inserts `x` into the strictly increasing `v`, unless it is there already.
fn insert_sorted(v: &mut Vec<(i32, i32, i32)>, x: (i32, i32, i32))
    requires
        sorted3(old(v)@),
    ensures
        sorted3(final(v)@),
        final(v)@.to_set() == old(v)@.to_set().insert(x),
{
    let n = v.len();
    let mut i: usize = 0;
    while i < n && lt3_exec(v[i], x)
        invariant
            0 <= i <= n,
            n == v@.len(),
            sorted3(v@),
            forall|j: int| 0 <= j < i ==> lt3(#[trigger] v@[j], x),
        decreases n - i,
    {
        i += 1;
    }
    if i < n && v[i].0 == x.0 && v[i].1 == x.1 && v[i].2 == x.2 {
        proof {
            assert(v@.to_set() =~= v@.to_set().insert(x)) by {
                assert(v@.to_set().contains(v@[i as int]));
            }
        }
        return;
    }
    let ghost old_v = v@;
    v.insert(i, x);
    proof {
        assert forall|a: int, b: int| 0 <= a < b < v@.len() implies lt3(#[trigger] v@[a], #[trigger] v@[b]) by {
            if a < i && b == i {
            } else if a == i && b > i {
                assert(v@[b] == old_v[b - 1]);
                assert(!lt3(old_v[i as int], x));
                if b - 1 > i {
                    assert(lt3(old_v[i as int], old_v[b - 1]));
                }
            } else if a < i && b > i {
                assert(v@[b] == old_v[b - 1]);
            } else if a > i {
                assert(v@[a] == old_v[a - 1] && v@[b] == old_v[b - 1]);
            }
        }
        assert(v@.to_set() =~= old_v.to_set().insert(x)) by {
            assert forall|y: (i32, i32, i32)| v@.to_set().contains(y) implies old_v.to_set().insert(x).contains(y) by {
                let k = choose|k: int| 0 <= k < v@.len() && v@[k] == y;
                if k < i {
                    assert(old_v[k] == y);
                } else if k > i {
                    assert(old_v[k - 1] == y);
                }
            }
            assert forall|y: (i32, i32, i32)| old_v.to_set().insert(x).contains(y) implies v@.to_set().contains(y) by {
                if y == x {
                    assert(v@[i as int] == x);
                } else {
                    let k = choose|k: int| 0 <= k < old_v.len() && old_v[k] == y;
                    if k < i {
                        assert(v@[k] == y);
                    } else {
                        assert(v@[k + 1] == y);
                    }
                }
            }
        }
    }
}

/// [`lt3`] in executable form.
fn lt3_exec(a: (i32, i32, i32), b: (i32, i32, i32)) -> (r: bool)
    ensures
        r == lt3(a, b),
{
    a.0 < b.0 || (a.0 == b.0 && (a.1 < b.1 || (a.1 == b.1 && a.2 < b.2)))
}

/// Outcome `k` of action `a` from heading `t` has offsets `e.0`, `e.1`, source
/// heading `e.2 == t` and lands on heading `itp`.
pub open spec fn outcome_is(actions: Seq<Action>, nt: int, a: int, t: int, k: int, itp: int, e: (i32, i32, i32)) -> bool {
    &&& 0 <= a < actions.len()
    &&& 0 <= t < actions[a].state_transitions@.len()
    &&& 0 <= k < actions[a].state_transitions@[t]@.len()
    &&& actions[a].state_transitions@[t]@[k].dix == e.0
    &&& actions[a].state_transitions@[t]@[k].diy == e.1
    &&& t == e.2
    &&& (actions[a].state_transitions@[t]@[k].dit + nt) % nt == itp
}

/// Some outcome of some action is `e` landing on heading `itp`.
pub open spec fn lands_on(actions: Seq<Action>, nt: int, itp: int, e: (i32, i32, i32)) -> bool {
    exists|a: int, t: int, k: int| #[trigger] outcome_is(actions, nt, a, t, k, itp, e)
}

/// `(a, t, k)` comes before `(a2, t2, k2)` in the scan order.
pub open spec fn before3(a: int, t: int, k: int, a2: int, t2: int, k2: int) -> bool {
    a < a2 || (a == a2 && (t < t2 || (t == t2 && k < k2)))
}

/// Some outcome scanned before `(a2, t2, k2)` is `e` landing on `itp`.
pub open spec fn seen(actions: Seq<Action>, nt: int, itp: int, e: (i32, i32, i32), a2: int, t2: int, k2: int) -> bool {
    exists|a: int, t: int, k: int| #[trigger] outcome_is(actions, nt, a, t, k, itp, e) && before3(a, t, k, a2, t2, k2)
}

/// The reverse heading map: for each landing heading `itp`, the offsets and
/// source headings `(dix, diy, t)` of the outcomes that land on it, sorted and
/// without repeats.  The predecessors of cell `(x, y, itp)` are the cells
/// `(x - dix, y - diy, t)`.
pub fn build_rev_theta(vi: &StateSpace) -> (r: Vec<Vec<(i32, i32, i32)>>)
    requires
        vi.wf(),
    ensures
        r@.len() == vi.cell_num_t,
        forall|itp: int| 0 <= itp < vi.cell_num_t ==> sorted3((#[trigger] r@[itp])@),
        forall|itp: int, e: (i32, i32, i32)| 0 <= itp < vi.cell_num_t ==>
            (#[trigger] r@[itp]@.contains(e) <==> lands_on(vi.actions@, vi.cell_num_t as int, itp, e)),
{
    let ghost acts = vi.actions@;
    let ghost nx = vi.cell_num_x as int;
    let ghost ny = vi.cell_num_y as int;
    let nt = vi.cell_num_t;
    let ghost ntg = nt as int;
    let mut rev: Vec<Vec<(i32, i32, i32)>> = Vec::new();
    let mut i0: i32 = 0;
    while i0 < nt
        invariant
            0 <= i0 <= nt,
            rev@.len() == i0,
            forall|j: int| 0 <= j < i0 ==> (#[trigger] rev@[j])@.len() == 0,
        decreases nt - i0,
    {
        rev.push(Vec::new());
        i0 += 1;
    }
    let mut ai: usize = 0;
    while ai < vi.actions.len()
        invariant
            0 <= ai <= acts.len(),
            acts == vi.actions@,
            actions_ok(acts, nx, ny, ntg),
            ntg == nt,
            0 <= nt,
            rev@.len() == nt,
            forall|itp: int| 0 <= itp < nt ==> sorted3((#[trigger] rev@[itp])@),
            forall|itp: int, e: (i32, i32, i32)| 0 <= itp < nt ==>
                (#[trigger] rev@[itp]@.contains(e) <==> seen(acts, ntg, itp, e, ai as int, 0, 0)),
        decreases acts.len() - ai,
    {
        let a = &vi.actions[ai];
        proof {
            assert(action_ok(acts[ai as int], nx, ny, ntg));
        }
        let mut t: usize = 0;
        while t < a.state_transitions.len()
            invariant
                0 <= ai < acts.len(),
                *a == acts[ai as int],
                actions_ok(acts, nx, ny, ntg),
                a.state_transitions@.len() == nt,
                ntg == nt,
                0 <= nt,
                0 <= t <= nt,
                rev@.len() == nt,
                forall|itp: int| 0 <= itp < nt ==> sorted3((#[trigger] rev@[itp])@),
                forall|itp: int, e: (i32, i32, i32)| 0 <= itp < nt ==>
                    (#[trigger] rev@[itp]@.contains(e) <==> seen(acts, ntg, itp, e, ai as int, t as int, 0)),
            decreases nt - t,
        {
            let trs = &a.state_transitions[t];
            let mut k: usize = 0;
            while k < trs.len()
                invariant
                    0 <= ai < acts.len(),
                    *a == acts[ai as int],
                    a.state_transitions@.len() == nt,
                    0 <= t < nt,
                    *trs == a.state_transitions@[t as int],
                    actions_ok(acts, nx, ny, ntg),
                    ntg == nt,
                    0 <= k <= trs@.len(),
                    rev@.len() == nt,
                    forall|itp: int| 0 <= itp < nt ==> sorted3((#[trigger] rev@[itp])@),
                    forall|itp: int, e: (i32, i32, i32)| 0 <= itp < nt ==>
                        (#[trigger] rev@[itp]@.contains(e) <==> seen(acts, ntg, itp, e, ai as int, t as int, k as int)),
                decreases trs@.len() - k,
            {
                let tr = trs[k];
                proof {
                    assert(action_ok(acts[ai as int], nx, ny, ntg));
                    assert(transition_ok(acts[ai as int].state_transitions@[t as int]@[k as int], nx, ny, ntg));
                    assert(tr == acts[ai as int].state_transitions@[t as int]@[k as int]);
                }
                let itp = ((tr.dit + nt) % nt) as usize;
                let x = (tr.dix, tr.diy, t as i32);
                let ghost old_rev = rev@;
                let mut b = rev.remove(itp);
                let ghost old_b = b@;
                insert_sorted(&mut b, x);
                rev.insert(itp, b);
                proof {
                    assert(itp as int == (tr.dit + ntg) % ntg);
                    assert(old_b == old_rev[itp as int]@);
                    assert(rev@ =~= old_rev.update(itp as int, b));
                    assert(outcome_is(acts, ntg, ai as int, t as int, k as int, itp as int, x));
                    assert forall|j: int, e: (i32, i32, i32)| 0 <= j < nt implies
                        (#[trigger] rev@[j]@.contains(e) <==> seen(acts, ntg, j, e, ai as int, t as int, k + 1)) by {
                        let now = seen(acts, ntg, j, e, ai as int, t as int, k + 1);
                        let was = seen(acts, ntg, j, e, ai as int, t as int, k as int);
                        if now && !was {
                            let (a2, t2, k2) = choose|a2: int, t2: int, k2: int| #[trigger] outcome_is(acts, ntg, a2, t2, k2, j, e)
                                && before3(a2, t2, k2, ai as int, t as int, k + 1);
                            assert(!before3(a2, t2, k2, ai as int, t as int, k as int));
                            assert(a2 == ai && t2 == t && k2 == k);
                            assert(j == itp && e == x);
                        }
                        if was {
                            let (a2, t2, k2) = choose|a2: int, t2: int, k2: int| #[trigger] outcome_is(acts, ntg, a2, t2, k2, j, e)
                                && before3(a2, t2, k2, ai as int, t as int, k as int);
                            assert(before3(a2, t2, k2, ai as int, t as int, k + 1));
                        }
                        if j == itp && e == x {
                            assert(outcome_is(acts, ntg, ai as int, t as int, k as int, j, e) && before3(ai as int, t as int, k as int, ai as int, t as int, k + 1));
                        }
                        if j == itp as int {
                            assert(b@.to_set().contains(e) == (old_b.to_set().contains(e) || e == x));
                            assert(b@.contains(e) == b@.to_set().contains(e));
                            assert(old_b.contains(e) == old_b.to_set().contains(e));
                            assert(old_rev[j]@.contains(e) == was);
                        } else {
                            assert(rev@[j] == old_rev[j]);
                            assert(old_rev[j]@.contains(e) == was);
                            if now && !was {
                                assert(false);
                            }
                        }
                    }
                }
                k += 1;
            }
            proof {
                assert forall|j: int, e: (i32, i32, i32)| 0 <= j < nt implies
                    (#[trigger] rev@[j]@.contains(e) <==> seen(acts, ntg, j, e, ai as int, t + 1, 0)) by {
                    if seen(acts, ntg, j, e, ai as int, t + 1, 0) {
                        let (a2, t2, k2) = choose|a2: int, t2: int, k2: int| #[trigger] outcome_is(acts, ntg, a2, t2, k2, j, e)
                            && before3(a2, t2, k2, ai as int, t + 1, 0);
                        assert(before3(a2, t2, k2, ai as int, t as int, trs@.len() as int));
                    }
                    if seen(acts, ntg, j, e, ai as int, t as int, trs@.len() as int) {
                        let (a2, t2, k2) = choose|a2: int, t2: int, k2: int| #[trigger] outcome_is(acts, ntg, a2, t2, k2, j, e)
                            && before3(a2, t2, k2, ai as int, t as int, trs@.len() as int);
                        assert(before3(a2, t2, k2, ai as int, t + 1, 0));
                    }
                }
            }
            t += 1;
        }
        proof {
            assert forall|j: int, e: (i32, i32, i32)| 0 <= j < nt implies
                (#[trigger] rev@[j]@.contains(e) <==> seen(acts, ntg, j, e, ai + 1, 0, 0)) by {
                if seen(acts, ntg, j, e, ai + 1, 0, 0) {
                    let (a2, t2, k2) = choose|a2: int, t2: int, k2: int| #[trigger] outcome_is(acts, ntg, a2, t2, k2, j, e)
                        && before3(a2, t2, k2, ai + 1, 0, 0);
                    if a2 == ai {
                        assert(t2 < acts[ai as int].state_transitions@.len());
                    }
                    assert(before3(a2, t2, k2, ai as int, nt as int, 0));
                }
                if seen(acts, ntg, j, e, ai as int, nt as int, 0) {
                    let (a2, t2, k2) = choose|a2: int, t2: int, k2: int| #[trigger] outcome_is(acts, ntg, a2, t2, k2, j, e)
                        && before3(a2, t2, k2, ai as int, nt as int, 0);
                    assert(before3(a2, t2, k2, ai + 1, 0, 0));
                }
            }
        }
        ai += 1;
    }
    proof {
        assert forall|j: int, e: (i32, i32, i32)| 0 <= j < nt implies
            (#[trigger] rev@[j]@.contains(e) <==> lands_on(acts, ntg, j, e)) by {
            if lands_on(acts, ntg, j, e) {
                let (a2, t2, k2) = choose|a2: int, t2: int, k2: int| #[trigger] outcome_is(acts, ntg, a2, t2, k2, j, e);
                assert(before3(a2, t2, k2, acts.len() as int, 0, 0));
            }
        }
    }
    rev
}

} // verus!
