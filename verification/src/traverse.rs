//! The rule-traversal simulator: an iterative depth-first walk from an entry
//! group that visits every reachable group and expression exactly once —
//! the graph may be a DAG, so both walks are guarded by visited sets — and,
//! at every filter-like expression, scans the single child group for
//! join-like members, recording one match per find.

use crate::memo::{
    children_below, has_group, members_seq, wf_groups, GroupView, MemoView, RawGroup, RawMemo,
};
use crate::MemoError;
use vstd::prelude::*;

verus! {

/// Every child id named anywhere in the memo has a group; a traversal can
/// then never fall off the store.
pub open spec fn ids_covered(m: MemoView) -> bool {
    forall|i: int, k: int|
        0 <= i < m.exprs.len() && 0 <= k < m.exprs[i].children.len() ==> has_group(
            m.groups,
            #[trigger] m.exprs[i].children[k],
        )
}

/// What a traversal needs: structural well-formedness, full id coverage, and
/// an existing entry group. A memo failing this has a dangling reference
/// somewhere, which is fatal for a walk.
pub open spec fn traversable(m: MemoView, entry: usize) -> bool {
    &&& wf_groups(m.exprs, m.groups)
    &&& ids_covered(m)
    &&& has_group(m.groups, entry)
}

/// Some member of logical group `g1` has `g2` among its children.
pub open spec fn edge(m: MemoView, g1: usize, g2: usize) -> bool {
    exists|t: int, k: int|
        0 <= t < members_seq(m.groups, g1).len() && 0 <= k < m.exprs[members_seq(m.groups, g1)[t] as int].children.len()
            && m.exprs[members_seq(m.groups, g1)[t] as int].children[k] == g2
}

/// Group id `g` is consumed: it appears among the children of some member
/// expression of some group.
pub open spec fn child_of_some(es: Seq<crate::memo::ExprView>, gs: Seq<GroupView>, g: usize) -> bool {
    exists|hi: int, j: int, k: int|
        0 <= hi < gs.len() && 0 <= j < gs[hi].exprs.len() && gs[hi].exprs[j] < es.len() && 0 <= k
            < es[gs[hi].exprs[j] as int].children.len() && (#[trigger] es[gs[
            hi
        ].exprs[j] as int].children[k]) == g
}

/// Expression `e` belongs to some group.
pub open spec fn member_of_some(gs: Seq<GroupView>, e: usize) -> bool {
    exists|hi: int, j: int| 0 <= hi < gs.len() && 0 <= j < gs[hi].exprs.len() && (#[trigger] gs[
        hi
    ].exprs[j]) == e
}

/// Group id `tgt` is reachable from `src` along child edges. Well-formed
/// memos only have edges to strictly smaller ids, so the recursion descends.
pub open spec fn reachable(m: MemoView, src: usize, tgt: usize) -> bool
    decreases src,
{
    src == tgt || exists|c: usize| c < src && #[trigger] edge(m, src, c) && reachable(m, c, tgt)
}

/// Expression `e` is reachable: it is a member of some reachable group.
pub open spec fn expr_reached(m: MemoView, entry: usize, e: usize) -> bool {
    exists|g: usize| #[trigger] reachable(m, entry, g) && members_seq(m.groups, g).contains(e)
}

/// The join-like members among `mems`, paired with the scanning filter `e`,
/// in storage order.
pub open spec fn joins_in(m: MemoView, mems: Seq<usize>, e: usize) -> Seq<(usize, usize)>
    decreases mems.len(),
{
    if mems.len() == 0 {
        Seq::empty()
    } else {
        joins_in(m, mems.drop_last(), e) + (if m.exprs[mems.last() as int].children.len() == 2 {
            seq![(e, mems.last())]
        } else {
            Seq::empty()
        })
    }
}

/// The matches the fixed rule records at expression `e`: nothing unless `e`
/// is filter-like (exactly one child); otherwise one match per join-like
/// member of the single child group, in storage order.
pub open spec fn rule_list(m: MemoView, e: usize) -> Seq<(usize, usize)> {
    if m.exprs[e as int].children.len() == 1 {
        joins_in(m, members_seq(m.groups, m.exprs[e as int].children[0]), e)
    } else {
        Seq::empty()
    }
}

/// All matches recorded over the expressions of `es`, in that order.
pub open spec fn matches_of(m: MemoView, es: Seq<usize>) -> Seq<(usize, usize)>
    decreases es.len(),
{
    if es.len() == 0 {
        Seq::empty()
    } else {
        matches_of(m, es.drop_last()) + rule_list(m, es.last())
    }
}

/// Every element of `members_seq` comes from a fragment with that id.
proof fn lemma_members_source(gs: Seq<GroupView>, gid: usize, t: int)
    requires
        0 <= t < members_seq(gs, gid).len(),
    ensures
        exists|j: int, u: int|
            0 <= j < gs.len() && gs[j].id == gid && 0 <= u < gs[j].exprs.len() && (
            #[trigger] gs[j].exprs[u]) == members_seq(gs, gid)[t],
    decreases gs.len(),
{
    if gs.len() > 0 {
        let pre = members_seq(gs.drop_last(), gid);
        if t < pre.len() {
            lemma_members_source(gs.drop_last(), gid, t);
            let (j, u) = choose|j: int, u: int|
                0 <= j < gs.drop_last().len() && gs.drop_last()[j].id == gid && 0 <= u
                    < gs.drop_last()[j].exprs.len() && (#[trigger] gs.drop_last()[j].exprs[u])
                    == pre[t];
            assert(gs[j].id == gid && gs[j].exprs[u] == members_seq(gs, gid)[t]);
        } else {
            let j = gs.len() - 1;
            let u = t - pre.len();
            assert(gs[j].id == gid && gs[j].exprs[u] == members_seq(gs, gid)[t]);
        }
    }
}

/// Conversely, every member of a fragment occurs in `members_seq`.
proof fn lemma_members_cover(gs: Seq<GroupView>, gid: usize, j: int, u: int)
    requires
        0 <= j < gs.len(),
        gs[j].id == gid,
        0 <= u < gs[j].exprs.len(),
    ensures
        members_seq(gs, gid).contains(gs[j].exprs[u]),
    decreases gs.len(),
{
    if j == gs.len() - 1 {
        let pre = members_seq(gs.drop_last(), gid);
        assert(members_seq(gs, gid)[pre.len() + u] == gs[j].exprs[u]);
    } else {
        lemma_members_cover(gs.drop_last(), gid, j, u);
        let pre = members_seq(gs.drop_last(), gid);
        let t = choose|t: int| 0 <= t < pre.len() && pre[t] == gs[j].exprs[u];
        assert(members_seq(gs, gid)[t] == gs[j].exprs[u]);
    }
}

/// Connectivity: in a memo with dense ids where every group but the entry is
/// consumed as an operand of some member expression, every group is
/// reachable from the entry. Consumers have strictly larger ids, so the
/// consumption chain from any group must end at the one unconsumed id.
pub proof fn lemma_consumed_reachable(m: MemoView, entry: usize, g: usize)
    requires
        wf_groups(m.exprs, m.groups),
        forall|i: int| 0 <= i < m.groups.len() ==> (#[trigger] m.groups[i]).id == i,
        forall|g2: usize|
            g2 < m.groups.len() ==> g2 == entry || child_of_some(m.exprs, m.groups, g2),
        g < m.groups.len(),
        entry < m.groups.len(),
    ensures
        reachable(m, entry, g),
    decreases m.groups.len() - g,
{
    if g != entry {
        assert(child_of_some(m.exprs, m.groups, g));
        let (hi, j, k) = choose|hi: int, j: int, k: int|
            0 <= hi < m.groups.len() && 0 <= j < m.groups[hi].exprs.len() && m.groups[hi].exprs[j]
                < m.exprs.len() && 0 <= k < m.exprs[m.groups[hi].exprs[j] as int].children.len()
                && (#[trigger] m.exprs[m.groups[hi].exprs[j] as int].children[k]) == g;
        let e = m.groups[hi].exprs[j];
        let h = m.groups[hi].id;
        lemma_members_cover(m.groups, h, hi, j);
        let t = choose|t: int|
            0 <= t < members_seq(m.groups, h).len() && members_seq(m.groups, h)[t] == e;
        assert(edge(m, h, g));
        assert(children_below(m.exprs, e, h));
        assert(g < h);
        lemma_consumed_reachable(m, entry, h);
        lemma_reach_step(m, entry, h, g);
    }
}

/// Every expression that belongs to some group of such a memo is a reached
/// expression.
pub proof fn lemma_member_expr_reached(m: MemoView, entry: usize, e: usize)
    requires
        wf_groups(m.exprs, m.groups),
        forall|i: int| 0 <= i < m.groups.len() ==> (#[trigger] m.groups[i]).id == i,
        forall|g2: usize|
            g2 < m.groups.len() ==> g2 == entry || child_of_some(m.exprs, m.groups, g2),
        entry < m.groups.len(),
        member_of_some(m.groups, e),
    ensures
        expr_reached(m, entry, e),
{
    let (hi, j) = choose|hi: int, j: int|
        0 <= hi < m.groups.len() && 0 <= j < m.groups[hi].exprs.len() && (#[trigger] m.groups[
            hi
        ].exprs[j]) == e;
    let h = m.groups[hi].id;
    lemma_members_cover(m.groups, h, hi, j);
    lemma_consumed_reachable(m, entry, h);
    assert(reachable(m, entry, h) && members_seq(m.groups, h).contains(e));
}

/// Members of a well-formed memo's groups name existing expressions, and
/// their children stay below the owning id.
proof fn lemma_member_wf(m: MemoView, gid: usize, t: int)
    requires
        wf_groups(m.exprs, m.groups),
        0 <= t < members_seq(m.groups, gid).len(),
    ensures
        members_seq(m.groups, gid)[t] < m.exprs.len(),
        children_below(m.exprs, members_seq(m.groups, gid)[t], gid),
{
    lemma_members_source(m.groups, gid, t);
}

/// Edges of a well-formed memo descend: an edge target lies strictly below
/// its source.
proof fn lemma_edge_below(m: MemoView, g1: usize, g2: usize)
    requires
        wf_groups(m.exprs, m.groups),
        edge(m, g1, g2),
    ensures
        g2 < g1,
{
    let (t, k) = choose|t: int, k: int|
        0 <= t < members_seq(m.groups, g1).len() && 0 <= k < m.exprs[members_seq(
            m.groups,
            g1,
        )[t] as int].children.len() && m.exprs[members_seq(m.groups, g1)[t] as int].children[k]
            == g2;
    lemma_member_wf(m, g1, t);
}

/// Reachability extends across one edge.
proof fn lemma_reach_step(m: MemoView, src: usize, g: usize, c: usize)
    requires
        wf_groups(m.exprs, m.groups),
        reachable(m, src, g),
        edge(m, g, c),
    ensures
        reachable(m, src, c),
    decreases src,
{
    lemma_edge_below(m, g, c);
    if src == g {
        assert(reachable(m, c, c));
    } else {
        let d = choose|d: usize| d < src && #[trigger] edge(m, src, d) && reachable(m, d, g);
        lemma_reach_step(m, d, g, c);
    }
}

/// A visited set that contains the source and is closed under edges
/// contains everything reachable from the source.
proof fn lemma_closed_reach(
    m: MemoView,
    vis: Set<usize>,
    src: usize,
    tgt: usize,
)
    requires
        wf_groups(m.exprs, m.groups),
        vis.contains(src),
        reachable(m, src, tgt),
        forall|g: usize, c: usize| vis.contains(g) && #[trigger] edge(m, g, c) ==> vis.contains(c),
    ensures
        vis.contains(tgt),
    decreases src,
{
    if src != tgt {
        let c = choose|c: usize| c < src && #[trigger] edge(m, src, c) && reachable(m, c, tgt);
        assert(vis.contains(c));
        lemma_closed_reach(m, vis, c, tgt);
    }
}

/// What one traversal produced: the group ids in first-visit order, the
/// expression ids in rule-scan order, and the recorded (filter, join)
/// matches in scan order.
pub struct Traversal {
    pub groups: Vec<usize>,
    pub exprs: Vec<usize>,
    pub matches: Vec<(usize, usize)>,
}

/// Pending work for the iterative walk.
enum Task {
    /// Visit a group: mark it and queue its members.
    Group(usize),
    /// Visit an expression: mark it, queue its children, then its rule scan.
    Expr(usize),
    /// Scan an expression's child group for the fixed rule.
    Scan(usize),
}

spec fn st_has(st: Seq<Task>, t: Task) -> bool {
    exists|i: int| 0 <= i < st.len() && st[i] == t
}

/// What must hold of every pending task.
spec fn task_ok(m: MemoView, entry: usize, evis: Seq<bool>, eorder: Seq<usize>, t: Task) -> bool {
    match t {
        Task::Group(g) => reachable(m, entry, g) && has_group(m.groups, g),
        Task::Expr(e) => e < m.exprs.len() && expr_reached(m, entry, e),
        Task::Scan(e) => e < m.exprs.len() && e < evis.len() && evis[e as int]
            && !eorder.contains(e) && expr_reached(m, entry, e),
    }
}

/// Every member of visited group `g` is visited or pending.
spec fn group_done(m: MemoView, g: usize, evis: Seq<bool>, st: Seq<Task>) -> bool {
    forall|t: int|
        0 <= t < members_seq(m.groups, g).len() ==> (#[trigger] members_seq(m.groups, g)[t])
            < evis.len() && (evis[members_seq(m.groups, g)[t] as int] || st_has(
            st,
            Task::Expr(members_seq(m.groups, g)[t]),
        ))
}

/// Every child of visited expression `e` is visited or pending.
spec fn expr_done(m: MemoView, e: usize, gvis: Seq<bool>, st: Seq<Task>) -> bool {
    forall|k: int|
        0 <= k < m.exprs[e as int].children.len() ==> (
        #[trigger] m.exprs[e as int].children[k]) < gvis.len() && (gvis[m.exprs[
            e as int
        ].children[k] as int] || st_has(st, Task::Group(m.exprs[e as int].children[k])))
}

/// How many entries are still unmarked.
spec fn count_false(s: Seq<bool>) -> nat
    decreases s.len(),
{
    if s.len() == 0 {
        0
    } else {
        count_false(s.drop_last()) + (if s.last() {
            0nat
        } else {
            1nat
        })
    }
}

proof fn lemma_count_false_update(s: Seq<bool>, i: int)
    requires
        0 <= i < s.len(),
        !s[i],
    ensures
        count_false(s.update(i, true)) < count_false(s),
    decreases s.len(),
{
    if i == s.len() - 1 {
        assert(s.update(i, true).drop_last() =~= s.drop_last());
    } else {
        assert(s.update(i, true).drop_last() =~= s.drop_last().update(i, true));
        lemma_count_false_update(s.drop_last(), i);
    }
}

/// A vector of `n` unset marks.
fn vec_false(n: usize) -> (r: Vec<bool>)
    ensures
        r@.len() == n,
        forall|j: int| 0 <= j < n ==> !r@[j],
{
    let mut r: Vec<bool> = Vec::new();
    let mut i: usize = 0;
    while i < n
        invariant
            i <= n,
            r@.len() == i,
            forall|j: int| 0 <= j < i ==> !r@[j],
        decreases n - i,
    {
        r.push(false);
        i += 1;
    }
    r
}

/// Queues one visit task per member of group `g`, last member first, so the
/// walk takes members in storage order.
fn push_member_tasks(m: &RawMemo, g: usize, stack: &mut Vec<Task>)
    ensures
        final(stack)@ == old(stack)@ + Seq::new(
            members_seq(m@.groups, g).len(),
            |t: int| Task::Expr(members_seq(m@.groups, g)[members_seq(m@.groups, g).len() - 1 - t]),
        ),
{
    let mems = m.members_of(g);
    let n = mems.len();
    let ghost target = Seq::new(
        members_seq(m@.groups, g).len(),
        |t: int| Task::Expr(members_seq(m@.groups, g)[members_seq(m@.groups, g).len() - 1 - t]),
    );
    let mut t: usize = n;
    while t > 0
        invariant
            t <= n,
            n == mems.len(),
            mems@ == members_seq(m@.groups, g),
            target == Seq::new(
                members_seq(m@.groups, g).len(),
                |t: int| Task::Expr(
                    members_seq(m@.groups, g)[members_seq(m@.groups, g).len() - 1 - t],
                ),
            ),
            stack@ == old(stack)@ + target.take(n - t),
        decreases t,
    {
        t -= 1;
        stack.push(Task::Expr(mems[t]));
        proof {
            assert(target.take(n - t) =~= target.take(n - t - 1).push(target[n - 1 - t]));
            assert(stack@ =~= old(stack)@ + target.take(n - t));
        }
    }
    proof {
        assert(target.take(n as int) =~= target);
    }
}

/// Queues the rule scan of `e` below one visit task per child of `e`, last
/// child first, so children are explored in order, all before the scan.
fn push_child_tasks(m: &RawMemo, e: usize, stack: &mut Vec<Task>)
    requires
        e < m@.exprs.len(),
    ensures
        final(stack)@ == old(stack)@.push(Task::Scan(e)) + Seq::new(
            m@.exprs[e as int].children.len(),
            |k: int| Task::Group(
                m@.exprs[e as int].children[m@.exprs[e as int].children.len() - 1 - k],
            ),
        ),
{
    stack.push(Task::Scan(e));
    let ghost base = stack@;
    let ghost target = Seq::new(
        m@.exprs[e as int].children.len(),
        |k: int| Task::Group(
            m@.exprs[e as int].children[m@.exprs[e as int].children.len() - 1 - k],
        ),
    );
    let children = &m.exprs[e].children;
    let n = children.len();
    let mut k: usize = n;
    while k > 0
        invariant
            k <= n,
            n == children.len(),
            children@ == m@.exprs[e as int].children,
            e < m@.exprs.len(),
            target == Seq::new(
                m@.exprs[e as int].children.len(),
                |k: int| Task::Group(
                    m@.exprs[e as int].children[m@.exprs[e as int].children.len() - 1 - k],
                ),
            ),
            stack@ == base + target.take(n - k),
        decreases k,
    {
        k -= 1;
        stack.push(Task::Group(children[k]));
        proof {
            assert(target.take(n - k) =~= target.take(n - k - 1).push(target[n - 1 - k]));
            assert(stack@ =~= base + target.take(n - k));
        }
    }
    proof {
        assert(target.take(n as int) =~= target);
    }
}
proof fn lemma_st_pop(st: Seq<Task>, x: Task)
    requires
        st_has(st, x),
        st.len() > 0,
        st.last() != x,
    ensures
        st_has(st.drop_last(), x),
{
    let i = choose|i: int| 0 <= i < st.len() && st[i] == x;
    assert(st.drop_last()[i] == x);
}

proof fn lemma_st_prefix(st_old: Seq<Task>, st_new: Seq<Task>, x: Task)
    requires
        st_has(st_old, x),
        st_new.len() >= st_old.len(),
        forall|i: int| 0 <= i < st_old.len() ==> st_new[i] == st_old[i],
    ensures
        st_has(st_new, x),
{
    let i = choose|i: int| 0 <= i < st_old.len() && st_old[i] == x;
    assert(st_new[i] == x);
}

/// The popped task's demand is met by the current marks and scan order.
spec fn task_resolved(gvis: Seq<bool>, evis: Seq<bool>, eorder: Seq<usize>, t: Task) -> bool {
    match t {
        Task::Group(g) => g < gvis.len() && gvis[g as int],
        Task::Expr(e) => e < evis.len() && evis[e as int],
        Task::Scan(e) => eorder.contains(e),
    }
}

/// One engine step keeps the visited sets closed modulo pending work, as
/// long as marks only grow, every surviving task stays pending, the popped
/// task's demand is met, and whatever was newly marked is already accounted
/// for on the new stack.
proof fn lemma_step_preserves(
    mv: MemoView,
    gvis0: Seq<bool>,
    gvis: Seq<bool>,
    evis0: Seq<bool>,
    evis: Seq<bool>,
    eorder0: Seq<usize>,
    eorder: Seq<usize>,
    st0: Seq<Task>,
    st2: Seq<Task>,
)
    requires
        st0.len() > 0,
        task_resolved(gvis, evis, eorder, st0.last()),
        gvis0.len() == gvis.len(),
        evis0.len() == evis.len(),
        forall|g: int| 0 <= g < gvis0.len() && gvis0[g] ==> gvis[g],
        forall|e: int| 0 <= e < evis0.len() && evis0[e] ==> evis[e],
        forall|e: usize| #[trigger] eorder0.contains(e) ==> eorder.contains(e),
        forall|x: Task| #[trigger] st_has(st0.drop_last(), x) ==> st_has(st2, x),
        forall|g: int|
            0 <= g < gvis0.len() && #[trigger] gvis0[g] ==> group_done(mv, g as usize, evis0, st0),
        forall|e: int|
            0 <= e < evis0.len() && #[trigger] evis0[e] ==> expr_done(mv, e as usize, gvis0, st0),
        forall|e: int|
            0 <= e < evis0.len() && #[trigger] evis0[e] ==> eorder0.contains(e as usize)
                || st_has(st0, Task::Scan(e as usize)),
        forall|g: int|
            0 <= g < gvis.len() && !gvis0[g] && #[trigger] gvis[g] ==> group_done(
                mv,
                g as usize,
                evis,
                st2,
            ),
        forall|e: int|
            0 <= e < evis.len() && !evis0[e] && #[trigger] evis[e] ==> expr_done(
                mv,
                e as usize,
                gvis,
                st2,
            ),
        forall|e: int|
            0 <= e < evis.len() && !evis0[e] && #[trigger] evis[e] ==> eorder.contains(e as usize)
                || st_has(st2, Task::Scan(e as usize)),
    ensures
        forall|g: int|
            0 <= g < gvis.len() && #[trigger] gvis[g] ==> group_done(mv, g as usize, evis, st2),
        forall|e: int|
            0 <= e < evis.len() && #[trigger] evis[e] ==> expr_done(mv, e as usize, gvis, st2),
        forall|e: int|
            0 <= e < evis.len() && #[trigger] evis[e] ==> eorder.contains(e as usize) || st_has(
                st2,
                Task::Scan(e as usize),
            ),
{
    assert forall|g: int| 0 <= g < gvis.len() && #[trigger] gvis[g] implies group_done(
        mv,
        g as usize,
        evis,
        st2,
    ) by {
        if gvis0[g] {
            assert(group_done(mv, g as usize, evis0, st0));
            let gu = g as usize;
            let mems = members_seq(mv.groups, gu);
            assert forall|t: int| 0 <= t < mems.len() implies (#[trigger] mems[t]) < evis.len()
                && (evis[mems[t] as int] || st_has(st2, Task::Expr(mems[t]))) by {
                assert(members_seq(mv.groups, gu)[t] == mems[t]);
                if !evis0[mems[t] as int] {
                    let x = Task::Expr(mems[t]);
                    assert(st_has(st0, x));
                    if st0.last() == x {
                        assert(evis[mems[t] as int]);
                    } else {
                        lemma_st_pop(st0, x);
                    }
                }
            }
        }
    }
    assert forall|e: int| 0 <= e < evis.len() && #[trigger] evis[e] implies expr_done(
        mv,
        e as usize,
        gvis,
        st2,
    ) by {
        if evis0[e] {
            assert(expr_done(mv, e as usize, gvis0, st0));
            let eu = e as usize;
            let ch = mv.exprs[eu as int].children;
            assert forall|k: int| 0 <= k < ch.len() implies (#[trigger] ch[k]) < gvis.len() && (
            gvis[ch[k] as int] || st_has(st2, Task::Group(ch[k]))) by {
                assert(mv.exprs[eu as int].children[k] == ch[k]);
                if !gvis0[ch[k] as int] {
                    let x = Task::Group(ch[k]);
                    assert(st_has(st0, x));
                    if st0.last() == x {
                        assert(gvis[ch[k] as int]);
                    } else {
                        lemma_st_pop(st0, x);
                    }
                }
            }
        }
    }
    assert forall|e: int| 0 <= e < evis.len() && #[trigger] evis[e] implies eorder.contains(
        e as usize,
    ) || st_has(st2, Task::Scan(e as usize)) by {
        if evis0[e] {
            if !eorder0.contains(e as usize) {
                let x = Task::Scan(e as usize);
                assert(st_has(st0, x));
                if st0.last() == x {
                    assert(eorder.contains(e as usize));
                } else {
                    lemma_st_pop(st0, x);
                }
            }
        }
    }
}

/// The walk itself, on a memo already known to be traversable.
#[verifier::rlimit(100)]
fn explore_core(m: &RawMemo, entry: usize) -> (tr: Traversal)
    requires
        traversable(m@, entry),
    ensures
        tr.groups@.no_duplicates(),
        forall|g: usize|
            #[trigger] tr.groups@.contains(g) <==> reachable(m@, entry, g) && has_group(
                m@.groups,
                g,
            ),
        tr.exprs@.no_duplicates(),
        forall|e: usize| #[trigger] tr.exprs@.contains(e) <==> expr_reached(m@, entry, e),
        tr.matches@ == matches_of(m@, tr.exprs@),
{
    let ghost mv = m@;
    let ng = m.groups.len();
    let ne = m.exprs.len();
    let mut gvis = vec_false(ng);
    let mut evis = vec_false(ne);
    let mut gorder: Vec<usize> = Vec::new();
    let mut eorder: Vec<usize> = Vec::new();
    let mut matches: Vec<(usize, usize)> = Vec::new();
    let mut stack: Vec<Task> = Vec::new();
    stack.push(Task::Group(entry));
    proof {
        assert(reachable(mv, entry, entry));
        assert(stack@[0] == Task::Group(entry));
        assert(st_has(stack@, Task::Group(entry)));
        assert(matches_of(mv, eorder@) =~= Seq::<(usize, usize)>::empty());
    }
    while stack.len() > 0
        invariant
            traversable(mv, entry),
            mv == m@,
            gvis@.len() == mv.groups.len(),
            evis@.len() == mv.exprs.len(),
            gorder@.no_duplicates(),
            forall|g: usize|
                #[trigger] gorder@.contains(g) ==> g < gvis@.len() && gvis@[g as int],
            forall|g: int|
                0 <= g < gvis@.len() && #[trigger] gvis@[g] ==> gorder@.contains(g as usize),
            eorder@.no_duplicates(),
            forall|e: usize|
                #[trigger] eorder@.contains(e) ==> e < evis@.len() && evis@[e as int],
            forall|g: int|
                0 <= g < gvis@.len() && #[trigger] gvis@[g] ==> reachable(mv, entry, g as usize)
                    && has_group(mv.groups, g as usize),
            forall|e: int|
                0 <= e < evis@.len() && #[trigger] evis@[e] ==> expr_reached(
                    mv,
                    entry,
                    e as usize,
                ),
            forall|ti: int|
                0 <= ti < stack@.len() ==> task_ok(mv, entry, evis@, eorder@, #[trigger] stack@[ti]),
            forall|i1: int, i2: int|
                #![trigger stack@[i1], stack@[i2]]
                0 <= i1 < i2 < stack@.len() && (stack@[i1] is Scan) ==> stack@[i1] != stack@[i2],
            forall|g: int|
                0 <= g < gvis@.len() && #[trigger] gvis@[g] ==> group_done(
                    mv,
                    g as usize,
                    evis@,
                    stack@,
                ),
            forall|e: int|
                0 <= e < evis@.len() && #[trigger] evis@[e] ==> expr_done(
                    mv,
                    e as usize,
                    gvis@,
                    stack@,
                ),
            forall|e: int|
                0 <= e < evis@.len() && #[trigger] evis@[e] ==> eorder@.contains(e as usize)
                    || st_has(stack@, Task::Scan(e as usize)),
            entry < gvis@.len() ==> gvis@[entry as int] || st_has(stack@, Task::Group(entry)),
            matches@ == matches_of(mv, eorder@),
        decreases count_false(gvis@) + count_false(evis@), stack@.len(),
    {
        let ghost st0 = stack@;
        let ghost gvis0 = gvis@;
        let ghost evis0 = evis@;
        let ghost eorder0 = eorder@;
        let topt = stack.pop();
        let t = topt.unwrap();
        proof {
            assert(t == st0.last());
            assert(stack@ == st0.drop_last());
            assert(task_ok(mv, entry, evis@, eorder@, st0[st0.len() - 1]));
        }
        match t {
            Task::Group(g) => {
                proof {
                    let w = choose|w: int|
                        0 <= w < mv.groups.len() && (#[trigger] mv.groups[w]).id == g;
                    assert(mv.groups[w].id <= w);
                    assert(g < gvis@.len());
                }
                if !gvis[g] {
                    gvis.set(g, true);
                    let ghost gorder_pre = gorder@;
                    gorder.push(g);
                    let ghost st1 = stack@;
                    push_member_tasks(m, g, &mut stack);
                    proof {
                        lemma_count_false_update(gvis0, g as int);
                        let mems = members_seq(mv.groups, g);
                        let news = Seq::new(
                            mems.len(),
                            |t: int| Task::Expr(mems[mems.len() - 1 - t]),
                        );
                        assert(stack@ == st1 + news);
                        assert forall|i: int| 0 <= i < st1.len() implies stack@[i] == st1[i] by {}
                        // the new group's members are all pending
                        assert(group_done(mv, g, evis@, stack@)) by {
                            assert forall|tt: int| 0 <= tt < mems.len() implies (
                            #[trigger] mems[tt]) < evis@.len() && (evis@[mems[tt] as int]
                                || st_has(stack@, Task::Expr(mems[tt]))) by {
                                lemma_member_wf(mv, g, tt);
                                assert(stack@[st1.len() + (mems.len() - 1 - tt)] == Task::Expr(
                                    mems[tt],
                                ));
                            }
                        }
                        assert forall|x: Task| #[trigger] st_has(st0.drop_last(), x) implies st_has(
                            stack@,
                            x,
                        ) by {
                            lemma_st_prefix(st1, stack@, x);
                        }
                        lemma_step_preserves(
                            mv,
                            gvis0,
                            gvis@,
                            evis0,
                            evis@,
                            eorder0,
                            eorder@,
                            st0,
                            stack@,
                        );
                        // pending tasks keep their guarantees
                        assert forall|ti: int| 0 <= ti < stack@.len() implies task_ok(
                            mv,
                            entry,
                            evis@,
                            eorder@,
                            stack@[ti],
                        ) by {
                            if ti < st1.len() {
                                assert(stack@[ti] == st0[ti]);
                                assert(task_ok(mv, entry, evis@, eorder@, st0[ti]));
                            } else {
                                let mi = mems.len() - 1 - (ti - st1.len());
                                lemma_member_wf(mv, g, mi);
                                assert(mems.contains(mems[mi]));
                                assert(stack@[ti] == Task::Expr(mems[mi]));
                                assert(expr_reached(mv, entry, mems[mi]));
                            }
                        }
                        assert forall|i1: int, i2: int|
                            0 <= i1 < i2 < stack@.len() && (#[trigger] stack@[i1] is
                        Scan) implies stack@[i1] != #[trigger] stack@[i2] by {
                            if i1 < st1.len() {
                                assert(stack@[i1] == st0[i1]);
                                if i2 < st1.len() {
                                    assert(stack@[i2] == st0[i2]);
                                } else {
                                    let mi = mems.len() - 1 - (i2 - st1.len());
                                    assert(stack@[i2] == Task::Expr(mems[mi]));
                                }
                            } else {
                                let mi = mems.len() - 1 - (i1 - st1.len());
                                assert(stack@[i1] == Task::Expr(mems[mi]));
                            }
                        }
                        // the visit orders track the marks
                        assert(gorder@.drop_last() =~= gorder_pre);
                        assert(gorder@.no_duplicates()) by {
                            assert forall|i1: int, i2: int|
                                0 <= i1 < i2 < gorder@.len() implies gorder@[i1] != gorder@[i2] by {
                                if i2 == gorder@.len() - 1 {
                                    assert(gorder_pre.contains(gorder@[i1]) || true);
                                    if gorder@[i1] == g {
                                        assert(gorder_pre[i1] == g);
                                        assert(gorder_pre.contains(g));
                                        assert(gvis0[g as int]);
                                    }
                                } else {
                                    assert(gorder_pre[i1] == gorder@[i1]);
                                    assert(gorder_pre[i2] == gorder@[i2]);
                                }
                            }
                        }
                        assert forall|g2: usize| #[trigger] gorder@.contains(g2) implies g2
                            < gvis@.len() && gvis@[g2 as int] by {
                            let wi = choose|wi: int|
                                0 <= wi < gorder@.len() && gorder@[wi] == g2;
                            if wi < gorder_pre.len() {
                                assert(gorder_pre.contains(g2));
                            }
                        }
                        assert forall|g2: int|
                            0 <= g2 < gvis@.len() && #[trigger] gvis@[g2] implies gorder@.contains(
                            g2 as usize,
                        ) by {
                            if g2 == g {
                                assert(gorder@.last() == g);
                            } else {
                                assert(gvis0[g2]);
                                assert(gorder_pre.contains(g2 as usize));
                                let wi = choose|wi: int|
                                    0 <= wi < gorder_pre.len() && gorder_pre[wi] == g2 as usize;
                                assert(gorder@[wi] == g2 as usize);
                            }
                        }
                        // entry stays accounted for
                        if entry != g && !gvis0[entry as int] {
                            lemma_st_pop(st0, Task::Group(entry));
                            lemma_st_prefix(st1, stack@, Task::Group(entry));
                        }
                    }
                } else {
                    proof {
                        assert forall|x: Task|
                            #[trigger] st_has(st0.drop_last(), x) implies st_has(stack@, x) by {}
                        lemma_step_preserves(
                            mv,
                            gvis0,
                            gvis@,
                            evis0,
                            evis@,
                            eorder0,
                            eorder@,
                            st0,
                            stack@,
                        );
                        assert forall|ti: int| 0 <= ti < stack@.len() implies task_ok(
                            mv,
                            entry,
                            evis@,
                            eorder@,
                            stack@[ti],
                        ) by {
                            assert(stack@[ti] == st0[ti]);
                            assert(task_ok(mv, entry, evis@, eorder@, st0[ti]));
                        }
                        if !gvis@[entry as int] {
                            assert(entry != g);
                            lemma_st_pop(st0, Task::Group(entry));
                        }
                    }
                }
            },
            Task::Expr(e) => {
                if !evis[e] {
                    evis.set(e, true);
                    let ghost st1 = stack@;
                    push_child_tasks(m, e, &mut stack);
                    proof {
                        lemma_count_false_update(evis0, e as int);
                        let ch = mv.exprs[e as int].children;
                        let news = Seq::new(
                            ch.len(),
                            |k: int| Task::Group(ch[ch.len() - 1 - k]),
                        );
                        assert(stack@ == st1.push(Task::Scan(e)) + news);
                        assert forall|i: int| 0 <= i < st1.len() implies stack@[i] == st1[i] by {}
                        assert(stack@[st1.len() as int] == Task::Scan(e));
                        assert forall|k: int| 0 <= k < ch.len() implies stack@[st1.len() + 1 + (
                        ch.len() - 1 - k)] == Task::Group(ch[k]) by {
                            assert(news[ch.len() - 1 - k] == Task::Group(ch[k]));
                        }
                        // children of a reachable member are reachable, with groups
                        let gw = choose|gw: usize|
                            #[trigger] reachable(mv, entry, gw) && members_seq(
                                mv.groups,
                                gw,
                            ).contains(e);
                        assert forall|k: int| 0 <= k < ch.len() implies reachable(
                            mv,
                            entry,
                            ch[k],
                        ) && has_group(mv.groups, ch[k]) && ch[k] < gvis@.len() by {
                            let ti = choose|ti: int|
                                0 <= ti < members_seq(mv.groups, gw).len() && members_seq(
                                    mv.groups,
                                    gw,
                                )[ti] == e;
                            assert(mv.exprs[members_seq(mv.groups, gw)[ti] as int].children[k]
                                == ch[k]);
                            assert(edge(mv, gw, ch[k]));
                            lemma_reach_step(mv, entry, gw, ch[k]);
                            assert(has_group(mv.groups, mv.exprs[e as int].children[k]));
                            let w2 = choose|w2: int|
                                0 <= w2 < mv.groups.len() && (#[trigger] mv.groups[w2]).id
                                    == ch[k];
                            assert(mv.groups[w2].id <= w2);
                        }
                        // the new expression's children are all pending
                        assert(expr_done(mv, e, gvis@, stack@)) by {
                            assert forall|k: int|
                                0 <= k < mv.exprs[e as int].children.len() implies (
                            #[trigger] mv.exprs[e as int].children[k]) < gvis@.len() && (gvis@[
                            mv.exprs[e as int].children[k] as int] || st_has(
                                stack@,
                                Task::Group(mv.exprs[e as int].children[k]),
                            )) by {
                                assert(stack@[st1.len() + 1 + (ch.len() - 1 - k)] == Task::Group(
                                    ch[k],
                                ));
                            }
                        }
                        assert(st_has(stack@, Task::Scan(e)));
                        assert forall|x: Task| #[trigger] st_has(st0.drop_last(), x) implies st_has(
                            stack@,
                            x,
                        ) by {
                            lemma_st_prefix(st1, stack@, x);
                        }
                        lemma_step_preserves(
                            mv,
                            gvis0,
                            gvis@,
                            evis0,
                            evis@,
                            eorder0,
                            eorder@,
                            st0,
                            stack@,
                        );
                        assert forall|ti: int| 0 <= ti < stack@.len() implies task_ok(
                            mv,
                            entry,
                            evis@,
                            eorder@,
                            stack@[ti],
                        ) by {
                            if ti < st1.len() {
                                assert(stack@[ti] == st0[ti]);
                                assert(task_ok(mv, entry, evis0, eorder@, st0[ti]));
                            } else if ti == st1.len() {
                                assert(stack@[ti] == Task::Scan(e));
                                assert(expr_reached(mv, entry, e));
                            } else {
                                let k = ch.len() - 1 - (ti - st1.len() - 1);
                                assert(stack@[ti] == Task::Group(ch[k]));
                            }
                        }
                        assert forall|i1: int, i2: int|
                            0 <= i1 < i2 < stack@.len() && (#[trigger] stack@[i1] is
                        Scan) implies stack@[i1] != #[trigger] stack@[i2] by {
                            if i1 < st1.len() {
                                assert(stack@[i1] == st0[i1]);
                                if i2 < st1.len() {
                                    assert(stack@[i2] == st0[i2]);
                                } else if i2 == st1.len() {
                                    match st0[i1] {
                                        Task::Scan(e2) => {
                                            assert(task_ok(mv, entry, evis0, eorder0, st0[i1]));
                                            assert(evis0[e2 as int]);
                                            assert(e2 != e);
                                        },
                                        _ => {},
                                    }
                                } else {
                                    let k = ch.len() - 1 - (i2 - st1.len() - 1);
                                    assert(stack@[i2] == Task::Group(ch[k]));
                                }
                            } else if i1 == st1.len() {
                                let k = ch.len() - 1 - (i2 - st1.len() - 1);
                                assert(stack@[i2] == Task::Group(ch[k]));
                            } else {
                                let k = ch.len() - 1 - (i1 - st1.len() - 1);
                                assert(stack@[i1] == Task::Group(ch[k]));
                            }
                        }
                        if entry < gvis@.len() && !gvis@[entry as int] {
                            lemma_st_pop(st0, Task::Group(entry));
                            lemma_st_prefix(st1, stack@, Task::Group(entry));
                        }
                    }
                } else {
                    proof {
                        assert forall|x: Task|
                            #[trigger] st_has(st0.drop_last(), x) implies st_has(stack@, x) by {}
                        lemma_step_preserves(
                            mv,
                            gvis0,
                            gvis@,
                            evis0,
                            evis@,
                            eorder0,
                            eorder@,
                            st0,
                            stack@,
                        );
                        assert forall|ti: int| 0 <= ti < stack@.len() implies task_ok(
                            mv,
                            entry,
                            evis@,
                            eorder@,
                            stack@[ti],
                        ) by {
                            assert(stack@[ti] == st0[ti]);
                            assert(task_ok(mv, entry, evis@, eorder@, st0[ti]));
                        }
                        if entry < gvis@.len() && !gvis@[entry as int] {
                            lemma_st_pop(st0, Task::Group(entry));
                        }
                    }
                }
            },
            Task::Scan(e) => {
                let ghost eorder_pre = eorder@;
                let echildren = &m.exprs[e].children;
                if echildren.len() == 1 {
                    let cg = echildren[0];
                    let mems2 = m.members_of(cg);
                    let n2 = mems2.len();
                    let mut t3: usize = 0;
                    while t3 < n2
                        invariant
                            mv == m@,
                            traversable(mv, entry),
                            t3 <= n2,
                            n2 == mems2@.len(),
                            mems2@ == members_seq(mv.groups, cg),
                            e < mv.exprs.len(),
                            cg == mv.exprs[e as int].children[0],
                            mv.exprs[e as int].children.len() == 1,
                            matches@ == matches_of(mv, eorder_pre) + joins_in(
                                mv,
                                mems2@.take(t3 as int),
                                e,
                            ),
                        decreases n2 - t3,
                    {
                        proof {
                            lemma_member_wf(mv, cg, t3 as int);
                        }
                        let me2 = mems2[t3];
                        if m.exprs[me2].children.len() == 2 {
                            matches.push((e, me2));
                        }
                        proof {
                            assert(mems2@.take(t3 + 1).drop_last() =~= mems2@.take(t3 as int));
                            assert(mems2@.take(t3 + 1).last() == mems2@[t3 as int]);
                        }
                        t3 += 1;
                    }
                    proof {
                        assert(mems2@.take(n2 as int) =~= mems2@);
                        assert(matches@ == matches_of(mv, eorder_pre) + rule_list(mv, e));
                    }
                } else {
                    proof {
                        assert(rule_list(mv, e) =~= Seq::<(usize, usize)>::empty());
                        assert(matches@ =~= matches_of(mv, eorder_pre) + rule_list(mv, e));
                    }
                }
                eorder.push(e);
                proof {
                    assert(eorder@.drop_last() =~= eorder_pre);
                    assert(eorder@.last() == e);
                    assert(eorder@.contains(e));
                    assert(matches_of(mv, eorder@) == matches_of(mv, eorder_pre) + rule_list(
                        mv,
                        e,
                    ));
                    assert(eorder@.no_duplicates()) by {
                        assert forall|i1: int, i2: int|
                            0 <= i1 < i2 < eorder@.len() implies eorder@[i1] != eorder@[i2] by {
                            if i2 == eorder@.len() - 1 {
                                if eorder@[i1] == e {
                                    assert(eorder_pre[i1] == e);
                                    assert(eorder_pre.contains(e));
                                }
                            } else {
                                assert(eorder_pre[i1] == eorder@[i1]);
                                assert(eorder_pre[i2] == eorder@[i2]);
                            }
                        }
                    }
                    assert forall|e2: usize| #[trigger] eorder@.contains(e2) implies e2
                        < evis@.len() && evis@[e2 as int] by {
                        let wi = choose|wi: int| 0 <= wi < eorder@.len() && eorder@[wi] == e2;
                        if wi < eorder_pre.len() {
                            assert(eorder_pre.contains(e2));
                        }
                    }
                    assert forall|e2: usize|
                        #[trigger] eorder_pre.contains(e2) implies eorder@.contains(e2) by {
                        let wi = choose|wi: int|
                            0 <= wi < eorder_pre.len() && eorder_pre[wi] == e2;
                        assert(eorder@[wi] == e2);
                    }
                    assert forall|x: Task|
                        #[trigger] st_has(st0.drop_last(), x) implies st_has(stack@, x) by {}
                    lemma_step_preserves(
                        mv,
                        gvis0,
                        gvis@,
                        evis0,
                        evis@,
                        eorder0,
                        eorder@,
                        st0,
                        stack@,
                    );
                    assert forall|ti: int| 0 <= ti < stack@.len() implies task_ok(
                        mv,
                        entry,
                        evis@,
                        eorder@,
                        stack@[ti],
                    ) by {
                        assert(stack@[ti] == st0[ti]);
                        assert(task_ok(mv, entry, evis@, eorder0, st0[ti]));
                        match st0[ti] {
                            Task::Scan(e2) => {
                                assert(st0[st0.len() - 1] == Task::Scan(e));
                                assert(e2 != e);
                                if eorder@.contains(e2) {
                                    let wi = choose|wi: int|
                                        0 <= wi < eorder@.len() && eorder@[wi] == e2;
                                    assert(wi < eorder_pre.len());
                                    assert(eorder_pre.contains(e2));
                                    assert(false);
                                }
                            },
                            _ => {},
                        }
                    }
                    if entry < gvis@.len() && !gvis@[entry as int] {
                        lemma_st_pop(st0, Task::Group(entry));
                    }
                }
            },
        }
    }
    // the stack is empty: the visited sets are closed, so they are exactly
    // the reachable sets
    proof {
        let vis = Set::new(|g: usize| g < gvis@.len() && gvis@[g as int]);
        assert forall|g: usize, c: usize|
            vis.contains(g) && #[trigger] edge(mv, g, c) implies vis.contains(c) by {
            let (tt, k) = choose|tt: int, k: int|
                0 <= tt < members_seq(mv.groups, g).len() && 0 <= k < mv.exprs[members_seq(
                    mv.groups,
                    g,
                )[tt] as int].children.len() && mv.exprs[members_seq(
                    mv.groups,
                    g,
                )[tt] as int].children[k] == c;
            let e = members_seq(mv.groups, g)[tt];
            lemma_member_wf(mv, g, tt);
            assert(group_done(mv, g, evis@, stack@));
            assert(evis@[e as int]);
            assert(expr_done(mv, e, gvis@, stack@));
            assert(gvis@[c as int]);
        }
        assert forall|g: usize|
            reachable(mv, entry, g) && has_group(mv.groups, g) implies gorder@.contains(g) by {
            assert(entry < gvis@.len()) by {
                let w = choose|w: int|
                    0 <= w < mv.groups.len() && (#[trigger] mv.groups[w]).id == entry;
                assert(mv.groups[w].id <= w);
            }
            assert(vis.contains(entry));
            lemma_closed_reach(mv, vis, entry, g);
        }
        assert forall|e: usize| expr_reached(mv, entry, e) implies eorder@.contains(e) by {
            let g = choose|g: usize|
                #[trigger] reachable(mv, entry, g) && members_seq(mv.groups, g).contains(e);
            let tt = choose|tt: int|
                0 <= tt < members_seq(mv.groups, g).len() && members_seq(mv.groups, g)[tt] == e;
            lemma_members_source(mv.groups, g, tt);
            let (j, u) = choose|j: int, u: int|
                0 <= j < mv.groups.len() && mv.groups[j].id == g && 0 <= u
                    < mv.groups[j].exprs.len() && (#[trigger] mv.groups[j].exprs[u])
                    == members_seq(mv.groups, g)[tt];
            assert(has_group(mv.groups, g));
            assert(gorder@.contains(g));
            assert(gvis@[g as int]);
            assert(group_done(mv, g, evis@, stack@));
            assert(evis@[e as int]);
        }
    }
    Traversal { groups: gorder, exprs: eorder, matches }
}

/// Whether some group carries id `gid`, decided by a scan.
fn has_group_exec(groups: &Vec<RawGroup>, gid: usize) -> (b: bool)
    ensures
        b == has_group(crate::memo::groups_view(groups@), gid),
{
    let n = groups.len();
    let mut i: usize = 0;
    while i < n
        invariant
            i <= n,
            n == groups.len(),
            forall|w: int| 0 <= w < i ==> (#[trigger] crate::memo::groups_view(groups@)[w]).id
                != gid,
        decreases n - i,
    {
        if groups[i].id == gid {
            proof {
                assert(crate::memo::groups_view(groups@)[i as int].id == gid);
            }
            return true;
        }
        i += 1;
    }
    false
}

/// Decides whether the memo can be walked from `entry`: every group id at or
/// below its position, every member an existing expression, every child
/// below its owner's id, every referenced id backed by a group, and the
/// entry backed by a group.
fn check_traversable(m: &RawMemo, entry: usize) -> (b: bool)
    ensures
        b == traversable(m@, entry),
{
    let ghost mv = m@;
    let ngroups = m.groups.len();
    let nexprs = m.exprs.len();
    let mut i: usize = 0;
    while i < ngroups
        invariant
            mv == m@,
            i <= ngroups,
            ngroups == m.groups.len(),
            nexprs == m.exprs.len(),
            forall|i2: int| 0 <= i2 < i ==> (#[trigger] mv.groups[i2]).id <= i2,
            forall|i2: int, j: int|
                0 <= i2 < i && 0 <= j < mv.groups[i2].exprs.len() ==> (
                #[trigger] mv.groups[i2].exprs[j]) < nexprs,
            forall|i2: int, j: int|
                0 <= i2 < i && 0 <= j < mv.groups[i2].exprs.len() ==> children_below(
                    mv.exprs,
                    #[trigger] mv.groups[i2].exprs[j],
                    mv.groups[i2].id,
                ),
        decreases ngroups - i,
    {
        let gid = m.groups[i].id;
        if gid > i {
            proof {
                assert(mv.groups[i as int].id > i);
            }
            return false;
        }
        let nmem = m.groups[i].exprs.len();
        let mut j: usize = 0;
        while j < nmem
            invariant
                mv == m@,
                i < m.groups.len(),
                j <= nmem,
                nmem == m.groups[i as int].exprs.len(),
                nexprs == m.exprs.len(),
                gid == mv.groups[i as int].id,
                forall|j2: int|
                    0 <= j2 < j ==> (#[trigger] mv.groups[i as int].exprs[j2]) < nexprs,
                forall|j2: int|
                    0 <= j2 < j ==> children_below(
                        mv.exprs,
                        #[trigger] mv.groups[i as int].exprs[j2],
                        mv.groups[i as int].id,
                    ),
            decreases nmem - j,
        {
            let e = m.groups[i].exprs[j];
            if e >= nexprs {
                proof {
                    assert(mv.groups[i as int].exprs[j as int] >= mv.exprs.len());
                }
                return false;
            }
            let nch = m.exprs[e].children.len();
            let mut k: usize = 0;
            while k < nch
                invariant
                    mv == m@,
                    e < m.exprs.len(),
                    i < m.groups.len(),
                    j < mv.groups[i as int].exprs.len(),
                    e == mv.groups[i as int].exprs[j as int],
                    gid == mv.groups[i as int].id,
                    k <= nch,
                    nch == m.exprs[e as int].children.len(),
                    forall|k2: int|
                        0 <= k2 < k ==> (#[trigger] mv.exprs[e as int].children[k2]) < gid,
                decreases nch - k,
            {
                if m.exprs[e].children[k] >= gid {
                    proof {
                        assert(mv.exprs[e as int].children[k as int] >= gid);
                        assert(!children_below(mv.exprs, mv.groups[i as int].exprs[j as int], mv.groups[i as int].id));
                    }
                    return false;
                }
                k += 1;
            }
            proof {
                assert(children_below(mv.exprs, mv.groups[i as int].exprs[j as int], mv.groups[i as int].id));
            }
            j += 1;
        }
        i += 1;
    }
    let mut a: usize = 0;
    while a < nexprs
        invariant
            mv == m@,
            a <= nexprs,
            nexprs == m.exprs.len(),
            forall|a2: int, k: int|
                0 <= a2 < a && 0 <= k < mv.exprs[a2].children.len() ==> has_group(
                    mv.groups,
                    #[trigger] mv.exprs[a2].children[k],
                ),
        decreases nexprs - a,
    {
        let nch = m.exprs[a].children.len();
        let mut k: usize = 0;
        while k < nch
            invariant
                mv == m@,
                a < m.exprs.len(),
                k <= nch,
                nch == m.exprs[a as int].children.len(),
                forall|k2: int|
                    0 <= k2 < k ==> has_group(mv.groups, #[trigger] mv.exprs[a as int].children[k2]),
            decreases nch - k,
        {
            let c = m.exprs[a].children[k];
            if !has_group_exec(&m.groups, c) {
                proof {
                    assert(!has_group(mv.groups, mv.exprs[a as int].children[k as int]));
                    assert(!ids_covered(mv));
                }
                return false;
            }
            k += 1;
        }
        a += 1;
    }
    if !has_group_exec(&m.groups, entry) {
        return false;
    }
    proof {
        assert(wf_groups(mv.exprs, mv.groups));
        assert(ids_covered(mv));
    }
    true
}

/// Explores the memo depth-first from group id `entry`, children before
/// parents, visiting every reachable group and every reachable expression
/// exactly once even under DAG fan-in, and recording one match per join-like
/// member found in the single child group of each filter-like expression.
/// A memo with any dangling reference is rejected whole, never silently
/// skipped.
impl RawMemo {
    pub fn explore(&self, entry: usize) -> (r: Result<Traversal, MemoError>)
        ensures
            match r {
                Ok(tr) => {
                    &&& traversable(self@, entry)
                    &&& tr.groups@.no_duplicates()
                    &&& forall|g: usize|
                        #[trigger] tr.groups@.contains(g) <==> reachable(self@, entry, g)
                            && has_group(self@.groups, g)
                    &&& tr.exprs@.no_duplicates()
                    &&& forall|e: usize|
                        #[trigger] tr.exprs@.contains(e) <==> expr_reached(self@, entry, e)
                    &&& tr.matches@ == matches_of(self@, tr.exprs@)
                },
                Err(e) => e == MemoError::ReferentialIntegrity && !traversable(self@, entry),
            },
    {
        if check_traversable(self, entry) {
            Ok(explore_core(self, entry))
        } else {
            Err(MemoError::ReferentialIntegrity)
        }
    }
}

} // verus!
