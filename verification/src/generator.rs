//! The synthetic memo-graph generator. It follows the draw-by-draw machine
//! of `genmodel`, so the produced memo is pinned to `memo_of` of the first
//! finished machine state: a function of the parameters and the seed alone.

use crate::genmodel::{
    arity_of, base_state, boundary, bounds_at, commit_round, draw_bound, finish_expr, first_done,
    gen_finished, gen_step, init_state, is_done, lemma_step_correspondence, mean_numer, memo_of,
    operands, refill_lo, state_at, synth_leaf, ExprCtx, GenParams, GenState, Phase, RoundCtx,
};
use crate::memo::{
    exprs_view, groups_view, kinds_consistent, lemma_exprs_view_push, lemma_groups_view_push,
    vec_contains, wf_dense, ExprView, GroupView, MemoView, RawExpr, RawGroup, RawMemo,
};
use crate::rng::SeededRng;
use crate::traverse::{child_of_some, expr_reached, member_of_some, reachable};
use crate::MemoError;
use vstd::prelude::*;

verus! {

broadcast use lemma_exprs_view_push, lemma_groups_view_push;

/// The machine state matching concrete generator storage, at the canonical
/// placeholder phase.
pub open spec fn cur(e: Seq<RawExpr>, g: Seq<RawGroup>, q: Seq<usize>) -> GenState {
    base_state(exprs_view(e), groups_view(g), q)
}

/// Every child of expression `e` lies strictly below `bound`.
pub open spec fn expr_children_lt(es: Seq<ExprView>, e: usize, bound: int) -> bool {
    forall|k: int| 0 <= k < es[e as int].children.len() ==> es[e as int].children[k] < bound
}

/// The structural invariant generation maintains: dense group ids, member
/// ids naming existing expressions, children strictly below the owning
/// group's id, and pool entries naming existing groups.
pub open spec fn inv_parts(es: Seq<ExprView>, gs: Seq<GroupView>, q: Seq<usize>) -> bool {
    &&& forall|i: int| 0 <= i < gs.len() ==> (#[trigger] gs[i]).id == i
    &&& forall|i: int, j: int|
        0 <= i < gs.len() && 0 <= j < gs[i].exprs.len() ==> (#[trigger] gs[i].exprs[j])
            < es.len()
    &&& forall|i: int, j: int|
        0 <= i < gs.len() && 0 <= j < gs[i].exprs.len() ==> expr_children_lt(
            es,
            #[trigger] gs[i].exprs[j],
            gs[i].id as int,
        )
    &&& forall|qi: int| 0 <= qi < q.len() ==> (#[trigger] q[qi]) < gs.len()
}

/// Group id `g` is consumed by an expression built in the current round.
pub open spec fn in_round(es: Seq<ExprView>, rexprs: Seq<usize>, g: usize) -> bool {
    exists|t: int, k: int|
        0 <= t < rexprs.len() && rexprs[t] < es.len() && 0 <= k < es[rexprs[t] as int].children.len()
            && (#[trigger] es[rexprs[t] as int].children[k]) == g
}

proof fn lemma_cos_extend(
    es: Seq<ExprView>,
    es2: Seq<ExprView>,
    gs: Seq<GroupView>,
    gs2: Seq<GroupView>,
    g: usize,
)
    requires
        child_of_some(es, gs, g),
        es2.len() >= es.len(),
        forall|i: int| 0 <= i < es.len() ==> es2[i] == es[i],
        gs2.len() >= gs.len(),
        forall|i: int| 0 <= i < gs.len() ==> gs2[i] == gs[i],
    ensures
        child_of_some(es2, gs2, g),
{
    let (hi, j, k) = choose|hi: int, j: int, k: int|
        0 <= hi < gs.len() && 0 <= j < gs[hi].exprs.len() && gs[hi].exprs[j] < es.len() && 0 <= k
            < es[gs[hi].exprs[j] as int].children.len() && (#[trigger] es[gs[
            hi
        ].exprs[j] as int].children[k]) == g;
    assert(gs2[hi] == gs[hi]);
    assert(es2[gs2[hi].exprs[j] as int].children[k] == g);
}

proof fn lemma_mos_extend(gs: Seq<GroupView>, gs2: Seq<GroupView>, e: usize)
    requires
        member_of_some(gs, e),
        gs2.len() >= gs.len(),
        forall|i: int| 0 <= i < gs.len() ==> gs2[i] == gs[i],
    ensures
        member_of_some(gs2, e),
{
    let (hi, j) = choose|hi: int, j: int|
        0 <= hi < gs.len() && 0 <= j < gs[hi].exprs.len() && (#[trigger] gs[hi].exprs[j]) == e;
    assert(gs2[hi].exprs[j] == e);
}

proof fn lemma_inround_extend(
    es: Seq<ExprView>,
    es2: Seq<ExprView>,
    rexprs: Seq<usize>,
    rexprs2: Seq<usize>,
    g: usize,
)
    requires
        in_round(es, rexprs, g),
        es2.len() >= es.len(),
        forall|i: int| 0 <= i < es.len() ==> es2[i] == es[i],
        rexprs2.len() >= rexprs.len(),
        forall|i: int| 0 <= i < rexprs.len() ==> rexprs2[i] == rexprs[i],
    ensures
        in_round(es2, rexprs2, g),
{
    let (t, k) = choose|t: int, k: int|
        0 <= t < rexprs.len() && rexprs[t] < es.len() && 0 <= k < es[rexprs[t] as int].children.len()
            && (#[trigger] es[rexprs[t] as int].children[k]) == g;
    assert(rexprs2[t] == rexprs[t]);
    assert(es2[rexprs2[t] as int].children[k] == g);
}

proof fn lemma_remove_keeps(q: Seq<usize>, idx: int, g: usize)
    requires
        0 <= idx < q.len(),
        q.contains(g),
        g != q[idx],
    ensures
        q.remove(idx).contains(g),
{
    let wi = choose|wi: int| 0 <= wi < q.len() && q[wi] == g;
    if wi < idx {
        assert(q.remove(idx)[wi] == g);
    } else {
        assert(q.remove(idx)[wi - 1] == g);
    }
}

proof fn lemma_push_keeps(q: Seq<usize>, x: usize, g: usize)
    requires
        q.contains(g),
    ensures
        q.push(x).contains(g),
{
    let wi = choose|wi: int| 0 <= wi < q.len() && q[wi] == g;
    assert(q.push(x)[wi] == g);
}

/// `inv_parts` of a finished state yields the dense well-formedness of the
/// memo it denotes.
proof fn lemma_inv_parts_wf(es: Seq<ExprView>, gs: Seq<GroupView>, q: Seq<usize>)
    requires
        inv_parts(es, gs, q),
        q.len() >= 1,
    ensures
        wf_dense(MemoView { exprs: es, groups: gs, entry: q[0] }),
{
    let m = MemoView { exprs: es, groups: gs, entry: q[0] };
    assert forall|i: int, j: int|
        0 <= i < m.groups.len() && 0 <= j
            < m.groups[i].exprs.len() implies crate::memo::children_below(
        m.exprs,
        #[trigger] m.groups[i].exprs[j],
        m.groups[i].id,
    ) by {
        assert(expr_children_lt(es, gs[i].exprs[j], gs[i].id as int));
    }
    assert(0 <= q[0] < gs.len());
    assert(m.groups[q[0] as int].id == m.entry);
}

impl RawMemo {
    /// Generates a synthetic memo to the requested size and shape.
    ///
    /// Rounds of up to `2 * nexprs - 1` expressions are drawn until at least
    /// `ngroups` groups exist and the pending-operand pool holds one
    /// survivor, which becomes the entry. Every random draw comes from the
    /// ChaCha8 generator seeded with `seed`, so the result is a function of
    /// the arguments alone: it equals `memo_of` of the first finished
    /// machine state. `fuel` bounds the number of draws; if generation does
    /// not finish within it, `GenerationStall` is reported instead.
    #[verifier::rlimit(100)]
    pub fn new(ngroups: usize, nexprs: usize, dag: bool, seed: u64, fuel: u64) -> (r: Result<
        RawMemo,
        MemoError,
    >)
        requires
            1 <= ngroups,
            1 <= nexprs <= usize::MAX / 90,
        ensures
            match r {
                Ok(m) => {
                    &&& exists|k: nat|
                        k <= fuel && #[trigger] first_done(
                            GenParams { ngroups, nexprs, dag },
                            seed,
                            k,
                        ) && m@ == memo_of(state_at(GenParams { ngroups, nexprs, dag }, seed, k))
                    &&& wf_dense(m@)
                    &&& kinds_consistent(m@.exprs)
                    &&& m@.groups.len() >= ngroups
                    &&& forall|g: usize|
                        g < m@.groups.len() ==> #[trigger] reachable(m@, m@.entry, g)
                    &&& forall|e: usize|
                        e < m@.exprs.len() ==> #[trigger] expr_reached(m@, m@.entry, e)
                },
                Err(e) => {
                    &&& e == MemoError::GenerationStall
                    &&& forall|k: nat|
                        k <= fuel ==> !is_done(
                            #[trigger] state_at(GenParams { ngroups, nexprs, dag }, seed, k),
                        )
                },
            },
    {
        let ghost p = GenParams { ngroups, nexprs, dag };
        let mut rng = SeededRng::new(seed);
        let mut mexprs: Vec<RawExpr> = Vec::new();
        let mut mgroups: Vec<RawGroup> = Vec::new();
        let mut queue: Vec<usize> = Vec::new();
        let mut draws: u64 = 0;

        proof {
            assert(state_at(p, seed, 0) == init_state(p));
            assert(cur(mexprs@, mgroups@, queue@).exprs =~= Seq::<ExprView>::empty());
            assert(cur(mexprs@, mgroups@, queue@).groups =~= Seq::<GroupView>::empty());
            assert(state_at(p, seed, 0) == boundary(p, cur(mexprs@, mgroups@, queue@)));
            assert(bounds_at(p, seed, 0) =~= Seq::<int>::empty());
        }

        while mgroups.len() < ngroups || queue.len() > 1
            invariant
                p == (GenParams { ngroups, nexprs, dag }),
                1 <= ngroups,
                1 <= nexprs <= usize::MAX / 90,
                rng.seed() == seed,
                rng.history() == bounds_at(p, seed, draws as nat),
                draws <= fuel,
                forall|j: nat| j < draws ==> !is_done(#[trigger] state_at(p, seed, j)),
                state_at(p, seed, draws as nat) == boundary(p, cur(mexprs@, mgroups@, queue@)),
                inv_parts(exprs_view(mexprs@), groups_view(mgroups@), queue@),
                kinds_consistent(exprs_view(mexprs@)),
                forall|g: usize|
                    g < mgroups@.len() ==> #[trigger] queue@.contains(g) || child_of_some(
                        exprs_view(mexprs@),
                        groups_view(mgroups@),
                        g,
                    ),
                forall|e: usize|
                    e < mexprs@.len() ==> #[trigger] member_of_some(groups_view(mgroups@), e),
                mgroups@.len() >= 1 ==> queue@.len() >= 1,
            decreases fuel - draws,
        {
            let ghost dout = draws;
            let ghost s0 = state_at(p, seed, draws as nat);
            proof {
                assert(!gen_finished(p, cur(mexprs@, mgroups@, queue@)));
                assert(s0.phase == Phase::NeedNgen);
                assert(!is_done(s0));
            }
            if draws == fuel {
                return Err(MemoError::GenerationStall);
            }
            proof {
                assert(nexprs as u64 * 2 <= u64::MAX) by (nonlinear_arith)
                    requires
                        nexprs <= usize::MAX / 90,
                        usize::MAX <= u64::MAX,
                ;
            }
            let bound0: u64 = (nexprs as u64) * 2;
            let v0 = rng.gen_range(bound0);
            proof {
                assert(draw_bound(p, s0) == bound0 as int);
                lemma_step_correspondence(p, seed, draws as nat, s0, bound0 as int, v0 as int);
            }
            draws = draws + 1;
            let ngen = v0 as usize;
            let ghost s1 = state_at(p, seed, draws as nat);
            proof {
                assert(s1 == gen_step(p, s0, v0 as int));
            }
            if ngen > 0 {
                let ghost round_ngen = ngen as int;
                let mut rexprs: Vec<usize> = Vec::new();
                proof {
                    assert(s1 == (GenState {
                        phase: Phase::NeedArity {
                            round: RoundCtx { ngen: round_ngen, exprs: rexprs@ },
                        },
                        ..cur(mexprs@, mgroups@, queue@)
                    }));
                }
                while rexprs.len() < ngen
                    invariant
                        p == (GenParams { ngroups, nexprs, dag }),
                        1 <= ngroups,
                        1 <= nexprs <= usize::MAX / 90,
                        rng.seed() == seed,
                        rng.history() == bounds_at(p, seed, draws as nat),
                        dout < draws <= fuel,
                        forall|j: nat| j < draws ==> !is_done(#[trigger] state_at(p, seed, j)),
                        inv_parts(exprs_view(mexprs@), groups_view(mgroups@), queue@),
                        kinds_consistent(exprs_view(mexprs@)),
                        forall|g: usize|
                            g < mgroups@.len() ==> #[trigger] queue@.contains(g)
                                || child_of_some(
                                exprs_view(mexprs@),
                                groups_view(mgroups@),
                                g,
                            ) || in_round(exprs_view(mexprs@), rexprs@, g),
                        forall|e: usize|
                            e < mexprs@.len() ==> #[trigger] member_of_some(
                                groups_view(mgroups@),
                                e,
                            ) || rexprs@.contains(e),
                        round_ngen == ngen as int,
                        1 <= ngen,
                        rexprs@.len() <= ngen,
                        forall|t: int|
                            0 <= t < rexprs@.len() ==> (#[trigger] rexprs@[t]) < mexprs@.len(),
                        forall|t: int|
                            0 <= t < rexprs@.len() ==> expr_children_lt(
                                exprs_view(mexprs@),
                                #[trigger] rexprs@[t],
                                mgroups@.len() as int,
                            ),
                        rexprs@.len() < ngen ==> state_at(p, seed, draws as nat) == (GenState {
                            phase: Phase::NeedArity {
                                round: RoundCtx { ngen: round_ngen, exprs: rexprs@ },
                            },
                            ..cur(mexprs@, mgroups@, queue@)
                        }),
                        rexprs@.len() == ngen ==> state_at(p, seed, draws as nat) == commit_round(
                            p,
                            cur(mexprs@, mgroups@, queue@),
                            RoundCtx { ngen: round_ngen, exprs: rexprs@ },
                        ),
                    decreases fuel - draws,
                {
                    let ghost dmh = draws;
                    let ghost sa = state_at(p, seed, draws as nat);
                    let ghost round_a = RoundCtx { ngen: round_ngen, exprs: rexprs@ };
                    proof {
                        assert(!is_done(sa));
                    }
                    if draws == fuel {
                        return Err(MemoError::GenerationStall);
                    }
                    let va = rng.gen_range(70);
                    proof {
                        assert(draw_bound(p, sa) == 70);
                        lemma_step_correspondence(p, seed, draws as nat, sa, 70, va as int);
                    }
                    draws = draws + 1;
                    let arity: usize = if va < 10 {
                        0
                    } else if va < 40 {
                        1
                    } else {
                        2
                    };
                    let mut children: Vec<usize> = Vec::new();
                    let mut i: usize = 0;
                    proof {
                        assert(arity as int == arity_of(va as int));
                        assert(state_at(p, seed, draws as nat) == operands(
                            p,
                            cur(mexprs@, mgroups@, queue@),
                            round_a,
                            ExprCtx { arity: arity as int, i: i as int, children: children@ },
                        ));
                    }
                    while i < arity
                        invariant
                            p == (GenParams { ngroups, nexprs, dag }),
                            1 <= ngroups,
                            1 <= nexprs <= usize::MAX / 90,
                            rng.seed() == seed,
                            rng.history() == bounds_at(p, seed, draws as nat),
                            dmh < draws <= fuel,
                            forall|j: nat|
                                j < draws ==> !is_done(#[trigger] state_at(p, seed, j)),
                            inv_parts(exprs_view(mexprs@), groups_view(mgroups@), queue@),
                            kinds_consistent(exprs_view(mexprs@)),
                            forall|g: usize|
                                g < mgroups@.len() ==> #[trigger] queue@.contains(g)
                                    || child_of_some(
                                    exprs_view(mexprs@),
                                    groups_view(mgroups@),
                                    g,
                                ) || in_round(exprs_view(mexprs@), rexprs@, g)
                                    || children@.contains(g),
                            forall|e: usize|
                                e < mexprs@.len() ==> #[trigger] member_of_some(
                                    groups_view(mgroups@),
                                    e,
                                ) || rexprs@.contains(e),
                            round_ngen == ngen as int,
                            round_a == (RoundCtx { ngen: round_ngen, exprs: rexprs@ }),
                            rexprs@.len() < ngen,
                            forall|t: int|
                                0 <= t < rexprs@.len() ==> (#[trigger] rexprs@[t])
                                    < mexprs@.len(),
                            forall|t: int|
                                0 <= t < rexprs@.len() ==> expr_children_lt(
                                    exprs_view(mexprs@),
                                    #[trigger] rexprs@[t],
                                    mgroups@.len() as int,
                                ),
                            i <= arity <= 2,
                            children@.len() == i,
                            forall|t: int|
                                0 <= t < children@.len() ==> (#[trigger] children@[t])
                                    < mgroups@.len(),
                            state_at(p, seed, draws as nat) == operands(
                                p,
                                cur(mexprs@, mgroups@, queue@),
                                round_a,
                                ExprCtx { arity: arity as int, i: i as int, children: children@ },
                            ),
                        decreases arity - i,
                    {
                        let ghost e_pre = mexprs@;
                        let ghost g_pre = mgroups@;
                        let ghost ch_pre = children@;
                        let ghost ec_b = ExprCtx {
                            arity: arity as int,
                            i: i as int,
                            children: children@,
                        };
                        let mut placed = false;
                        let qlen = queue.len();
                        if qlen > 0 {
                            let ghost q_pre = queue@;
                            let ghost sb = state_at(p, seed, draws as nat);
                            proof {
                                assert(sb == (GenState {
                                    phase: Phase::NeedOperand { round: round_a, ec: ec_b },
                                    ..cur(mexprs@, mgroups@, queue@)
                                }));
                                assert(!is_done(sb));
                            }
                            if draws == fuel {
                                return Err(MemoError::GenerationStall);
                            }
                            let vi = rng.gen_range(qlen as u64);
                            proof {
                                assert(draw_bound(p, sb) == qlen as int);
                                lemma_step_correspondence(
                                    p,
                                    seed,
                                    draws as nat,
                                    sb,
                                    qlen as int,
                                    vi as int,
                                );
                            }
                            draws = draws + 1;
                            let idx = vi as usize;
                            let c = queue[idx];
                            if !vec_contains(&children, c) {
                                children.push(c);
                                queue.remove(idx);
                                placed = true;
                                proof {
                                    assert(queue@ == q_pre.remove(vi as int));
                                    assert forall|g: usize|
                                        g < mgroups@.len() implies #[trigger] queue@.contains(g)
                                        || child_of_some(
                                        exprs_view(mexprs@),
                                        groups_view(mgroups@),
                                        g,
                                    ) || in_round(exprs_view(mexprs@), rexprs@, g)
                                        || children@.contains(g) by {
                                        if g == c {
                                            assert(children@.last() == c);
                                            assert(children@.contains(g));
                                        } else if q_pre.contains(g) {
                                            lemma_remove_keeps(q_pre, vi as int, g);
                                        } else if ch_pre.contains(g) {
                                            lemma_push_keeps(ch_pre, c, g);
                                        }
                                    }
                                    assert(state_at(p, seed, draws as nat) == operands(
                                        p,
                                        cur(mexprs@, mgroups@, queue@),
                                        round_a,
                                        ExprCtx {
                                            arity: arity as int,
                                            i: i as int + 1,
                                            children: children@,
                                        },
                                    ));
                                }
                            } else {
                                proof {
                                    assert(state_at(p, seed, draws as nat) == operands(
                                        p,
                                        synth_leaf(cur(mexprs@, mgroups@, queue@)),
                                        round_a,
                                        ExprCtx {
                                            arity: arity as int,
                                            i: i as int + 1,
                                            children: children@.push(mgroups@.len() as usize),
                                        },
                                    ));
                                }
                            }
                        } else {
                            proof {
                                assert(state_at(p, seed, draws as nat) == operands(
                                    p,
                                    synth_leaf(cur(mexprs@, mgroups@, queue@)),
                                    round_a,
                                    ExprCtx {
                                        arity: arity as int,
                                        i: i as int + 1,
                                        children: children@.push(mgroups@.len() as usize),
                                    },
                                ));
                            }
                        }
                        if !placed {
                            let gid = mgroups.len();
                            let eid = mexprs.len();
                            children.push(gid);
                            let mut leafmembers: Vec<usize> = Vec::new();
                            leafmembers.push(eid);
                            let ghost e_now = mexprs@;
                            let ghost g_now = mgroups@;
                            mgroups.push(RawGroup { exprs: leafmembers, id: gid });
                            mexprs.push(RawExpr { op: 0, children: Vec::new() });
                            proof {
                                assert(exprs_view(mexprs@) == exprs_view(e_now).push(
                                    ExprView { op: 0, children: Seq::empty() },
                                )) by {
                                    assert(mexprs@.last()@ == (ExprView {
                                        op: 0,
                                        children: Seq::empty(),
                                    }));
                                    assert(exprs_view(mexprs@) =~= exprs_view(e_now).push(
                                        ExprView { op: 0, children: Seq::empty() },
                                    ));
                                }
                                assert(groups_view(mgroups@) == groups_view(g_now).push(
                                    GroupView { exprs: seq![eid], id: gid },
                                )) by {
                                    assert(mgroups@.last()@.exprs =~= seq![eid]);
                                    assert(groups_view(mgroups@) =~= groups_view(g_now).push(
                                        GroupView { exprs: seq![eid], id: gid },
                                    ));
                                }
                                assert(synth_leaf(cur(e_now, g_now, queue@)) == cur(
                                    mexprs@,
                                    mgroups@,
                                    queue@,
                                ));
                                assert(e_now == e_pre && g_now == g_pre);
                                assert(children@ == ch_pre.push(gid));
                                assert forall|g: usize|
                                    g < mgroups@.len() implies #[trigger] queue@.contains(g)
                                    || child_of_some(
                                    exprs_view(mexprs@),
                                    groups_view(mgroups@),
                                    g,
                                ) || in_round(exprs_view(mexprs@), rexprs@, g)
                                    || children@.contains(g) by {
                                    if g == gid {
                                        assert(children@.last() == gid);
                                        assert(children@.contains(g));
                                    } else {
                                        assert(g < groups_view(g_now).len());
                                        if queue@.contains(g) {
                                        } else if child_of_some(
                                            exprs_view(e_now),
                                            groups_view(g_now),
                                            g,
                                        ) {
                                            lemma_cos_extend(
                                                exprs_view(e_now),
                                                exprs_view(mexprs@),
                                                groups_view(g_now),
                                                groups_view(mgroups@),
                                                g,
                                            );
                                        } else if in_round(exprs_view(e_now), rexprs@, g) {
                                            lemma_inround_extend(
                                                exprs_view(e_now),
                                                exprs_view(mexprs@),
                                                rexprs@,
                                                rexprs@,
                                                g,
                                            );
                                        } else if ch_pre.contains(g) {
                                            lemma_push_keeps(ch_pre, gid, g);
                                        }
                                    }
                                }
                                assert forall|e2: usize|
                                    e2 < mexprs@.len() implies #[trigger] member_of_some(
                                    groups_view(mgroups@),
                                    e2,
                                ) || rexprs@.contains(e2) by {
                                    if e2 == eid {
                                        assert(groups_view(mgroups@)[g_now.len() as int].exprs[0]
                                            == eid);
                                        assert(member_of_some(groups_view(mgroups@), e2));
                                    } else if member_of_some(groups_view(g_now), e2) {
                                        lemma_mos_extend(
                                            groups_view(g_now),
                                            groups_view(mgroups@),
                                            e2,
                                        );
                                    }
                                }
                            }
                        }
                        i += 1;
                    }
                    // the operand list is complete: append the expression
                    let eid = mexprs.len();
                    let oplen = children.len();
                    let ghost ch = children@;
                    let ghost e_fin = mexprs@;
                    let ghost rex_pre = rexprs@;
                    rexprs.push(eid);
                    mexprs.push(RawExpr { op: oplen, children });
                    proof {
                        assert(state_at(p, seed, draws as nat) == finish_expr(
                            p,
                            cur(e_fin, mgroups@, queue@),
                            round_a,
                            ch,
                        )) by {
                            assert(operands(
                                p,
                                cur(e_fin, mgroups@, queue@),
                                round_a,
                                ExprCtx { arity: arity as int, i: arity as int, children: ch },
                            ) == finish_expr(p, cur(e_fin, mgroups@, queue@), round_a, ch));
                        }
                        assert(exprs_view(mexprs@) == exprs_view(e_fin).push(
                            ExprView { op: ch.len() as usize, children: ch },
                        )) by {
                            assert(mexprs@.last()@ == (ExprView {
                                op: ch.len() as usize,
                                children: ch,
                            }));
                            assert(exprs_view(mexprs@) =~= exprs_view(e_fin).push(
                                ExprView { op: ch.len() as usize, children: ch },
                            ));
                        }
                        assert(rexprs@ == rex_pre.push(eid));
                        assert forall|g: usize|
                            g < mgroups@.len() implies #[trigger] queue@.contains(g)
                            || child_of_some(exprs_view(mexprs@), groups_view(mgroups@), g)
                            || in_round(exprs_view(mexprs@), rexprs@, g) by {
                            if queue@.contains(g) {
                            } else if child_of_some(
                                exprs_view(e_fin),
                                groups_view(mgroups@),
                                g,
                            ) {
                                lemma_cos_extend(
                                    exprs_view(e_fin),
                                    exprs_view(mexprs@),
                                    groups_view(mgroups@),
                                    groups_view(mgroups@),
                                    g,
                                );
                            } else if in_round(exprs_view(e_fin), rex_pre, g) {
                                lemma_inround_extend(
                                    exprs_view(e_fin),
                                    exprs_view(mexprs@),
                                    rex_pre,
                                    rexprs@,
                                    g,
                                );
                            } else if ch.contains(g) {
                                let ki = choose|ki: int| 0 <= ki < ch.len() && ch[ki] == g;
                                assert(rexprs@[rex_pre.len() as int] == eid);
                                assert(exprs_view(mexprs@)[eid as int].children[ki] == g);
                                assert(in_round(exprs_view(mexprs@), rexprs@, g));
                            }
                        }
                        assert forall|e2: usize|
                            e2 < mexprs@.len() implies #[trigger] member_of_some(
                            groups_view(mgroups@),
                            e2,
                        ) || rexprs@.contains(e2) by {
                            if e2 == eid {
                                assert(rexprs@.last() == eid);
                                assert(rexprs@.contains(e2));
                            } else if rex_pre.contains(e2) {
                                lemma_push_keeps(rex_pre, eid, e2);
                            }
                        }
                    }
                }
                // the round is complete: commit it as one group
                let gid = mgroups.len();
                let ghost rex = rexprs@;
                let ghost round_c = RoundCtx { ngen: round_ngen, exprs: rex };
                let ghost g_fin = mgroups@;
                mgroups.push(RawGroup { exprs: rexprs, id: gid });
                proof {
                    assert(groups_view(mgroups@) == groups_view(g_fin).push(
                        GroupView { exprs: rex, id: gid },
                    )) by {
                        assert(groups_view(mgroups@) =~= groups_view(g_fin).push(
                            GroupView { exprs: rex, id: gid },
                        ));
                    }
                    assert(state_at(p, seed, draws as nat) == commit_round(
                        p,
                        cur(mexprs@, g_fin, queue@),
                        round_c,
                    ));
                    assert forall|g: usize|
                        g < mgroups@.len() implies g == gid || #[trigger] queue@.contains(g)
                        || child_of_some(exprs_view(mexprs@), groups_view(mgroups@), g) by {
                        if g != gid {
                            assert(g < groups_view(g_fin).len());
                            if queue@.contains(g) {
                            } else if child_of_some(
                                exprs_view(mexprs@),
                                groups_view(g_fin),
                                g,
                            ) {
                                lemma_cos_extend(
                                    exprs_view(mexprs@),
                                    exprs_view(mexprs@),
                                    groups_view(g_fin),
                                    groups_view(mgroups@),
                                    g,
                                );
                            } else if in_round(exprs_view(mexprs@), rex, g) {
                                let (t, k) = choose|t: int, k: int|
                                    0 <= t < rex.len() && rex[t] < exprs_view(mexprs@).len() && 0
                                        <= k < exprs_view(mexprs@)[rex[t] as int].children.len()
                                        && (#[trigger] exprs_view(mexprs@)[rex[
                                        t
                                    ] as int].children[k]) == g;
                                assert(groups_view(mgroups@)[g_fin.len() as int].exprs[t]
                                    == rex[t]);
                                assert(child_of_some(
                                    exprs_view(mexprs@),
                                    groups_view(mgroups@),
                                    g,
                                ));
                            }
                        }
                    }
                    assert forall|e2: usize|
                        e2 < mexprs@.len() implies #[trigger] member_of_some(
                        groups_view(mgroups@),
                        e2,
                    ) by {
                        if member_of_some(groups_view(g_fin), e2) {
                            lemma_mos_extend(groups_view(g_fin), groups_view(mgroups@), e2);
                        } else {
                            assert(rex.contains(e2));
                            let t = choose|t: int| 0 <= t < rex.len() && rex[t] == e2;
                            assert(groups_view(mgroups@)[g_fin.len() as int].exprs[t] == e2);
                        }
                    }
                }
                if gid < ngroups && dag {
                    proof {
                        assert(nexprs * 90 <= usize::MAX) by (nonlinear_arith)
                            requires
                                nexprs <= usize::MAX / 90,
                        ;
                    }
                    let d = nexprs * 90 / 70;
                    proof {
                        assert(d as int == mean_numer(p));
                    }
                    if d > 0 {
                        let ghost sc = state_at(p, seed, draws as nat);
                        proof {
                            assert(sc == (GenState {
                                phase: Phase::NeedRefillCount { gid },
                                ..cur(mexprs@, mgroups@, queue@)
                            }));
                            assert(!is_done(sc));
                        }
                        if draws == fuel {
                            return Err(MemoError::GenerationStall);
                        }
                        proof {
                            assert(d as u64 * 2 <= u64::MAX) by (nonlinear_arith)
                                requires
                                    d <= usize::MAX / 70,
                                    usize::MAX <= u64::MAX,
                            ;
                        }
                        let boundc: u64 = (d as u64) * 2;
                        let vc = rng.gen_range(boundc);
                        proof {
                            assert(draw_bound(p, sc) == boundc as int);
                            lemma_step_correspondence(
                                p,
                                seed,
                                draws as nat,
                                sc,
                                boundc as int,
                                vc as int,
                            );
                        }
                        draws = draws + 1;
                        let ng = vc as usize;
                        let quart = ngroups / 4;
                        let m = if gid >= quart {
                            gid - quart
                        } else {
                            0
                        };
                        proof {
                            assert(m == refill_lo(p, gid));
                        }
                        let mut t: usize = 0;
                        while t < ng
                            invariant
                                p == (GenParams { ngroups, nexprs, dag }),
                                rng.seed() == seed,
                                rng.history() == bounds_at(p, seed, draws as nat),
                                dout < draws <= fuel,
                                forall|j: nat|
                                    j < draws ==> !is_done(#[trigger] state_at(p, seed, j)),
                                inv_parts(exprs_view(mexprs@), groups_view(mgroups@), queue@),
                                forall|g: usize|
                                    g < mgroups@.len() ==> g == gid || #[trigger] queue@.contains(
                                        g,
                                    ) || child_of_some(
                                        exprs_view(mexprs@),
                                        groups_view(mgroups@),
                                        g,
                                    ),
                                forall|e: usize|
                                    e < mexprs@.len() ==> #[trigger] member_of_some(
                                        groups_view(mgroups@),
                                        e,
                                    ),
                                t <= ng,
                                gid < mgroups@.len(),
                                m <= gid,
                                m == refill_lo(p, gid),
                                t < ng ==> state_at(p, seed, draws as nat) == (GenState {
                                    phase: Phase::NeedRefill { gid, left: ng - t },
                                    ..cur(mexprs@, mgroups@, queue@)
                                }),
                                t == ng ==> state_at(p, seed, draws as nat) == boundary(
                                    p,
                                    cur(mexprs@, mgroups@, queue@.push(gid)),
                                ),
                            decreases ng - t,
                        {
                            let ghost sr = state_at(p, seed, draws as nat);
                            proof {
                                assert(!is_done(sr));
                            }
                            if draws == fuel {
                                return Err(MemoError::GenerationStall);
                            }
                            let boundr: u64 = ((gid - m) as u64) + 1;
                            let vr = rng.gen_range(boundr);
                            proof {
                                assert(draw_bound(p, sr) == boundr as int);
                                lemma_step_correspondence(
                                    p,
                                    seed,
                                    draws as nat,
                                    sr,
                                    boundr as int,
                                    vr as int,
                                );
                            }
                            draws = draws + 1;
                            let ghost q_ref = queue@;
                            queue.push(m + (vr as usize));
                            t += 1;
                            proof {
                                assert forall|g: usize|
                                    g < mgroups@.len() implies g == gid
                                    || #[trigger] queue@.contains(g) || child_of_some(
                                    exprs_view(mexprs@),
                                    groups_view(mgroups@),
                                    g,
                                ) by {
                                    if g != gid && q_ref.contains(g) {
                                        lemma_push_keeps(q_ref, (m + vr as usize) as usize, g);
                                    }
                                }
                            }
                        }
                    }
                }
                let ghost q_end = queue@;
                queue.push(gid);
                proof {
                    assert forall|g: usize|
                        g < mgroups@.len() implies #[trigger] queue@.contains(g)
                        || child_of_some(exprs_view(mexprs@), groups_view(mgroups@), g) by {
                        if g == gid {
                            assert(queue@.last() == gid);
                            assert(queue@.contains(g));
                        } else if q_end.contains(g) {
                            lemma_push_keeps(q_end, gid, g);
                        }
                    }
                }
            }
        }
        // the pool's single survivor roots the memo
        proof {
            assert(gen_finished(p, cur(mexprs@, mgroups@, queue@)));
            assert(queue@.len() == 1);
        }
        let entry = queue[0];
        let ghost final_q = queue@;
        let memo = RawMemo { exprs: mexprs, groups: mgroups, entry };
        proof {
            assert(is_done(state_at(p, seed, draws as nat)));
            assert(first_done(p, seed, draws as nat));
            assert(memo@ == memo_of(state_at(p, seed, draws as nat)));
            lemma_inv_parts_wf(exprs_view(memo.exprs@), groups_view(memo.groups@), final_q);
            assert forall|g2: usize|
                g2 < memo@.groups.len() implies g2 == memo@.entry || child_of_some(
                memo@.exprs,
                memo@.groups,
                g2,
            ) by {
                if queue@.contains(g2) {
                    let wi = choose|wi: int| 0 <= wi < queue@.len() && queue@[wi] == g2;
                    assert(wi == 0);
                }
            }
            assert forall|g: usize| g < memo@.groups.len() implies #[trigger] reachable(
                memo@,
                memo@.entry,
                g,
            ) by {
                crate::traverse::lemma_consumed_reachable(memo@, memo@.entry, g);
            }
            assert forall|e: usize| e < memo@.exprs.len() implies #[trigger] expr_reached(
                memo@,
                memo@.entry,
                e,
            ) by {
                assert(member_of_some(memo@.groups, e));
                crate::traverse::lemma_member_expr_reached(memo@, memo@.entry, e);
            }
        }
        Ok(memo)
    }
}

} // verus!
