//! The mathematical model of memo generation: a small-step machine that
//! consumes one bounded random draw per step. The state after `k` draws,
//! `state_at`, is a function of the parameters and the seed alone, which is
//! what pins the generator's output down and makes determinism provable.

use crate::memo::{ExprView, GroupView, MemoView};
use crate::rng::chacha_draw;
use vstd::prelude::*;

verus! {

/// The generation parameters: target group count, average expressions per
/// group, and whether group sharing (DAG mode) is allowed.
#[verifier::ext_equal]
pub ghost struct GenParams {
    pub ngroups: usize,
    pub nexprs: usize,
    pub dag: bool,
}

/// One round under construction: how many expressions it was asked to build
/// and the ids of those built so far.
#[verifier::ext_equal]
pub ghost struct RoundCtx {
    pub ngen: int,
    pub exprs: Seq<usize>,
}

/// One expression under construction: its drawn arity, the operand position
/// reached, and the child group ids chosen so far.
#[verifier::ext_equal]
pub ghost struct ExprCtx {
    pub arity: int,
    pub i: int,
    pub children: Seq<usize>,
}

/// Where the machine stops next: each variant but `Done` names the draw it
/// is waiting for.
#[verifier::ext_equal]
pub ghost enum Phase {
    /// Waiting for the round size, drawn below `2 * nexprs`.
    NeedNgen,
    /// Waiting for an arity, drawn below the total arity weight.
    NeedArity { round: RoundCtx },
    /// Waiting for a pool index, drawn below the pool length.
    NeedOperand { round: RoundCtx, ec: ExprCtx },
    /// Waiting for the pool refill count after committing group `gid`.
    NeedRefillCount { gid: usize },
    /// Waiting for one of `left` remaining refill ids for the pool.
    NeedRefill { gid: usize, left: int },
    /// Generation finished; the entry is the single pool survivor.
    Done,
}

/// The whole machine state: the memo built so far, the pending-operand pool,
/// and the phase.
#[verifier::ext_equal]
pub ghost struct GenState {
    pub exprs: Seq<ExprView>,
    pub groups: Seq<GroupView>,
    pub queue: Seq<usize>,
    pub phase: Phase,
}

/// A state with the canonical placeholder phase; every transition overrides
/// the phase of its result explicitly.
pub open spec fn base_state(
    exprs: Seq<ExprView>,
    groups: Seq<GroupView>,
    queue: Seq<usize>,
) -> GenState {
    GenState { exprs, groups, queue, phase: Phase::NeedNgen }
}

/// The operator arity selected by a uniform draw below 70, weighted
/// 10 : 30 : 30 over arities 0, 1, 2.
pub open spec fn arity_of(v: int) -> int {
    if v < 10 {
        0
    } else if v < 40 {
        1
    } else {
        2
    }
}

/// The numerator scale of the arity distribution's mean: with weights
/// 10, 30, 30 the mean is 90 / 70 expressions' worth of operands.
pub open spec fn mean_numer(p: GenParams) -> int {
    p.nexprs * 90 / 70
}

/// The low end of the locality window for refills after committing `gid`.
pub open spec fn refill_lo(p: GenParams, gid: usize) -> usize {
    if gid >= p.ngroups / 4 {
        (gid - p.ngroups / 4) as usize
    } else {
        0
    }
}

/// Generation stops once the target group count is reached and the pool has
/// at most one survivor.
pub open spec fn gen_finished(p: GenParams, s: GenState) -> bool {
    s.groups.len() >= p.ngroups && s.queue.len() <= 1
}

/// Re-checks the loop condition at a round boundary.
pub open spec fn boundary(p: GenParams, s: GenState) -> GenState {
    GenState {
        phase: if gen_finished(p, s) {
            Phase::Done
        } else {
            Phase::NeedNgen
        },
        ..s
    }
}

/// Synthesizes an auxiliary leaf: a fresh scan expression in a fresh
/// singleton group, used when the pool cannot supply an operand.
pub open spec fn synth_leaf(s: GenState) -> GenState {
    let gid = s.groups.len() as usize;
    let eid = s.exprs.len() as usize;
    GenState {
        exprs: s.exprs.push(ExprView { op: 0, children: Seq::empty() }),
        groups: s.groups.push(GroupView { exprs: seq![eid], id: gid }),
        ..s
    }
}

/// Commits a finished round as one new group, then refills the pool in DAG
/// mode while more groups are needed, and finally pushes the new id.
pub open spec fn commit_round(p: GenParams, s: GenState, round: RoundCtx) -> GenState {
    let gid = s.groups.len() as usize;
    let s2 = GenState { groups: s.groups.push(GroupView { exprs: round.exprs, id: gid }), ..s };
    if gid < p.ngroups && p.dag && mean_numer(p) > 0 {
        GenState { phase: Phase::NeedRefillCount { gid }, ..s2 }
    } else {
        boundary(p, GenState { queue: s2.queue.push(gid), ..s2 })
    }
}

/// Appends the finished expression and either starts the round's next
/// expression or commits the round.
pub open spec fn finish_expr(
    p: GenParams,
    s: GenState,
    round: RoundCtx,
    children: Seq<usize>,
) -> GenState {
    let eid = s.exprs.len() as usize;
    let s2 = GenState {
        exprs: s.exprs.push(ExprView { op: children.len() as usize, children }),
        ..s
    };
    let round2 = RoundCtx { ngen: round.ngen, exprs: round.exprs.push(eid) };
    if round2.exprs.len() < round2.ngen {
        GenState { phase: Phase::NeedArity { round: round2 }, ..s2 }
    } else {
        commit_round(p, s2, round2)
    }
}

/// Advances operand selection without consuming draws: positions the pool
/// cannot serve get a synthesized leaf; a non-empty pool stops the machine
/// at the index draw; a filled operand list finishes the expression.
pub open spec fn operands(p: GenParams, s: GenState, round: RoundCtx, ec: ExprCtx) -> GenState
    decreases ec.arity - ec.i,
{
    if ec.i >= ec.arity {
        finish_expr(p, s, round, ec.children)
    } else if s.queue.len() > 0 {
        GenState { phase: Phase::NeedOperand { round, ec }, ..s }
    } else {
        let leaf_gid = s.groups.len() as usize;
        operands(
            p,
            synth_leaf(s),
            round,
            ExprCtx { arity: ec.arity, i: ec.i + 1, children: ec.children.push(leaf_gid) },
        )
    }
}

/// One machine step: applies the draw `v` that the current phase waits for,
/// then advances through all deterministic work to the next draw or to the
/// end.
pub open spec fn gen_step(p: GenParams, s: GenState, v: int) -> GenState {
    match s.phase {
        Phase::NeedNgen => {
            if v == 0 {
                boundary(p, base_state(s.exprs, s.groups, s.queue))
            } else {
                GenState {
                    phase: Phase::NeedArity { round: RoundCtx { ngen: v, exprs: Seq::empty() } },
                    ..s
                }
            }
        },
        Phase::NeedArity { round } => operands(
            p,
            base_state(s.exprs, s.groups, s.queue),
            round,
            ExprCtx { arity: arity_of(v), i: 0, children: Seq::empty() },
        ),
        Phase::NeedOperand { round, ec } => {
            let c = s.queue[v];
            if ec.children.contains(c) {
                // a duplicate operand is rejected and replaced by a leaf
                let leaf_gid = s.groups.len() as usize;
                operands(
                    p,
                    synth_leaf(base_state(s.exprs, s.groups, s.queue)),
                    round,
                    ExprCtx {
                        arity: ec.arity,
                        i: ec.i + 1,
                        children: ec.children.push(leaf_gid),
                    },
                )
            } else {
                operands(
                    p,
                    base_state(s.exprs, s.groups, s.queue.remove(v)),
                    round,
                    ExprCtx { arity: ec.arity, i: ec.i + 1, children: ec.children.push(c) },
                )
            }
        },
        Phase::NeedRefillCount { gid } => {
            if v == 0 {
                boundary(p, base_state(s.exprs, s.groups, s.queue.push(gid)))
            } else {
                GenState { phase: Phase::NeedRefill { gid, left: v }, ..s }
            }
        },
        Phase::NeedRefill { gid, left } => {
            let c = (refill_lo(p, gid) + v) as usize;
            if left <= 1 {
                boundary(p, base_state(s.exprs, s.groups, s.queue.push(c).push(gid)))
            } else {
                GenState {
                    phase: Phase::NeedRefill { gid, left: left - 1 },
                    queue: s.queue.push(c),
                    ..s
                }
            }
        },
        Phase::Done => s,
    }
}

/// The bound of the draw the current phase waits for.
pub open spec fn draw_bound(p: GenParams, s: GenState) -> int {
    match s.phase {
        Phase::NeedNgen => 2 * p.nexprs,
        Phase::NeedArity { .. } => 70,
        Phase::NeedOperand { .. } => s.queue.len() as int,
        Phase::NeedRefillCount { .. } => 2 * mean_numer(p),
        Phase::NeedRefill { gid, .. } => gid + 1 - refill_lo(p, gid),
        Phase::Done => 1,
    }
}

/// The machine's initial state: an empty memo and pool, at the boundary
/// check.
pub open spec fn init_state(p: GenParams) -> GenState {
    boundary(p, base_state(Seq::empty(), Seq::empty(), Seq::empty()))
}

/// The machine state after `k` draws from the generator seeded with `seed`.
pub open spec fn state_at(p: GenParams, seed: u64, k: nat) -> GenState
    decreases k, 1int,
{
    if k == 0 {
        init_state(p)
    } else {
        let s = state_at(p, seed, (k - 1) as nat);
        gen_step(p, s, chacha_draw(seed, bounds_at(p, seed, (k - 1) as nat), draw_bound(p, s)))
    }
}

/// The bounds of the first `k` draws, oldest first.
pub open spec fn bounds_at(p: GenParams, seed: u64, k: nat) -> Seq<int>
    decreases k, 0int,
{
    if k == 0 {
        Seq::empty()
    } else {
        bounds_at(p, seed, (k - 1) as nat).push(
            draw_bound(p, state_at(p, seed, (k - 1) as nat)),
        )
    }
}

pub open spec fn is_done(s: GenState) -> bool {
    s.phase is Done
}

/// Generation completes after exactly `k` draws.
pub open spec fn first_done(p: GenParams, seed: u64, k: nat) -> bool {
    &&& is_done(state_at(p, seed, k))
    &&& forall|j: nat| j < k ==> !is_done(#[trigger] state_at(p, seed, j))
}

/// The memo a finished state denotes: the built expressions and groups, with
/// the pool's single survivor as entry.
pub open spec fn memo_of(s: GenState) -> MemoView {
    MemoView {
        exprs: s.exprs,
        groups: s.groups,
        entry: if s.queue.len() > 0 {
            s.queue[0]
        } else {
            0
        },
    }
}

/// Unfolds one step of `state_at`/`bounds_at`: consuming the draw the state
/// waits for advances the machine by `gen_step` and extends the draw history
/// by the draw's bound.
pub proof fn lemma_step_correspondence(p: GenParams, seed: u64, k: nat, s: GenState, bound: int, v: int)
    requires
        state_at(p, seed, k) == s,
        draw_bound(p, s) == bound,
        v == chacha_draw(seed, bounds_at(p, seed, k), bound),
    ensures
        state_at(p, seed, k + 1) == gen_step(p, s, v),
        bounds_at(p, seed, k + 1) == bounds_at(p, seed, k).push(bound),
{
    assert(state_at(p, seed, k + 1) == gen_step(
        p,
        state_at(p, seed, k),
        chacha_draw(seed, bounds_at(p, seed, k), draw_bound(p, state_at(p, seed, k))),
    ));
}

/// Determinism law: for one parameter set and one seed, generation completes
/// after a unique number of draws and with a unique memo. Together with the
/// generator's postcondition, which pins its result to `memo_of` of the
/// first finished state, two runs with identical inputs yield structurally
/// identical memos.
pub proof fn lemma_generate_deterministic(p: GenParams, seed: u64, k1: nat, k2: nat)
    requires
        first_done(p, seed, k1),
        first_done(p, seed, k2),
    ensures
        k1 == k2,
        memo_of(state_at(p, seed, k1)) == memo_of(state_at(p, seed, k2)),
{
    if k1 < k2 {
        assert(!is_done(state_at(p, seed, k1)));
    }
    if k2 < k1 {
        assert(!is_done(state_at(p, seed, k2)));
    }
}

} // verus!
