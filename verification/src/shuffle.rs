//! The group shuffler: a pure transform that fragments every group holding
//! more than `chunk` members, re-scanning newly created fragments until none
//! is oversized. Fragments keep the original group's id, so they stay
//! fragments of one logical group; the expression set and the entry are
//! untouched.

use crate::memo::{
    copy_exprs, copy_groups, groups_view, lemma_groups_view_push, lemma_groups_view_update,
    GroupView, MemoView, RawGroup, RawMemo,
};
use vstd::prelude::*;

verus! {

broadcast use lemma_groups_view_push, lemma_groups_view_update;

/// The first `chunk` members, kept in place by a split.
pub open spec fn split_kept(g: GroupView, chunk: int) -> GroupView {
    GroupView { exprs: g.exprs.take(chunk), id: g.id }
}

/// The fragment a split moves out. Lookup policy repeats the last kept
/// member at the head of the remainder; merge policy appends the group's
/// first member after the remainder, planting one deliberate duplicate.
pub open spec fn split_rest(g: GroupView, chunk: int, merge: bool) -> GroupView {
    GroupView {
        exprs: if merge {
            g.exprs.skip(chunk).push(g.exprs[0])
        } else {
            g.exprs.skip(chunk - 1)
        },
        id: g.id,
    }
}

/// One split step: group `i` is cut down to its first `chunk` members and
/// the remainder fragment is appended for a later re-scan.
pub open spec fn split_step(gs: Seq<GroupView>, i: int, chunk: int, merge: bool) -> Seq<
    GroupView,
> {
    gs.update(i, split_kept(gs[i], chunk)).push(split_rest(gs[i], chunk, merge))
}

/// The work left from position `i`: member count plus one per group, which
/// every split strictly shrinks.
pub open spec fn shuffle_work(gs: Seq<GroupView>, i: int) -> nat
    decreases gs.len() - i,
{
    if i < 0 || i >= gs.len() {
        0
    } else {
        (gs[i].exprs.len() + 1 + shuffle_work(gs, i + 1)) as nat
    }
}

proof fn lemma_work_push(gs: Seq<GroupView>, i: int, g: GroupView)
    requires
        0 <= i <= gs.len(),
    ensures
        shuffle_work(gs.push(g), i) == shuffle_work(gs, i) + g.exprs.len() + 1,
    decreases gs.len() - i,
{
    if i == gs.len() {
        assert(gs.push(g)[i] == g);
        assert(shuffle_work(gs.push(g), i + 1) == 0);
        assert(shuffle_work(gs, i) == 0);
    } else {
        lemma_work_push(gs, i + 1, g);
        assert(gs.push(g)[i] == gs[i]);
    }
}

proof fn lemma_work_update(gs: Seq<GroupView>, j: int, g: GroupView, i: int)
    requires
        0 <= j < i <= gs.len(),
        0 <= j < gs.len(),
    ensures
        shuffle_work(gs.update(j, g), i) == shuffle_work(gs, i),
    decreases gs.len() - i,
{
    if i < gs.len() {
        lemma_work_update(gs, j, g, i + 1);
        assert(gs.update(j, g)[i] == gs[i]);
    }
}

/// The shuffled group list: scanning from position `i`, every oversized
/// group is split and its remainder re-queued until none exceeds `chunk`.
pub open spec fn shuffle_groups(gs: Seq<GroupView>, i: int, chunk: int, merge: bool) -> Seq<
    GroupView,
>
    decreases shuffle_work(gs, i),
    via shuffle_groups_dec
{
    if i < 0 || i >= gs.len() {
        gs
    } else if 2 <= chunk && gs[i].exprs.len() > chunk {
        shuffle_groups(split_step(gs, i, chunk, merge), i + 1, chunk, merge)
    } else {
        shuffle_groups(gs, i + 1, chunk, merge)
    }
}

/// A split strictly shrinks the remaining work.
proof fn lemma_split_work(gs: Seq<GroupView>, i: int, chunk: int, merge: bool)
    requires
        0 <= i < gs.len(),
        2 <= chunk,
        gs[i].exprs.len() > chunk,
    ensures
        shuffle_work(split_step(gs, i, chunk, merge), i + 1) < shuffle_work(gs, i),
{
    let kept = split_kept(gs[i], chunk);
    let rest = split_rest(gs[i], chunk, merge);
    let gs1 = gs.update(i, kept);
    lemma_work_update(gs, i, kept, i + 1);
    lemma_work_push(gs1, i + 1, rest);
    assert(rest.exprs.len() < gs[i].exprs.len());
}

#[via_fn]
proof fn shuffle_groups_dec(gs: Seq<GroupView>, i: int, chunk: int, merge: bool) {
    if 0 <= i < gs.len() {
        if 2 <= chunk && gs[i].exprs.len() > chunk {
            lemma_split_work(gs, i, chunk, merge);
        }
    }
}

/// Every group among the first `upto` holds at most `chunk` members.
pub open spec fn groups_bounded(gs: Seq<GroupView>, chunk: int, upto: int) -> bool {
    forall|j: int| 0 <= j < upto && j < gs.len() ==> (#[trigger] gs[j]).exprs.len() <= chunk
}

/// The members listed under id `gid`, over all fragments, as a set.
pub open spec fn id_members(gs: Seq<GroupView>, gid: usize) -> Set<usize> {
    Set::new(
        |e: usize|
            exists|j: int| 0 <= j < gs.len() && (#[trigger] gs[j]).id == gid && gs[j].exprs.contains(
                e,
            ),
    )
}

/// One split step moves members between fragments of one id but neither
/// loses nor invents any: every id's member set is unchanged.
proof fn lemma_split_step_members(gs: Seq<GroupView>, i: int, chunk: int, merge: bool, gid: usize)
    requires
        0 <= i < gs.len(),
        2 <= chunk,
        gs[i].exprs.len() > chunk,
    ensures
        id_members(split_step(gs, i, chunk, merge), gid) == id_members(gs, gid),
{
    let gs2 = split_step(gs, i, chunk, merge);
    let g = gs[i];
    assert forall|e: usize| id_members(gs2, gid).contains(e) implies id_members(
        gs,
        gid,
    ).contains(e) by {
        let j = choose|j: int| 0 <= j < gs2.len() && (#[trigger] gs2[j]).id == gid
            && gs2[j].exprs.contains(e);
        if j < gs.len() && j != i {
            assert(gs[j].id == gid && gs[j].exprs.contains(e));
        } else if j == i {
            let t = choose|t: int| 0 <= t < gs2[i].exprs.len() && gs2[i].exprs[t] == e;
            assert(g.exprs[t] == e);
            assert(gs[i].exprs.contains(e));
        } else {
            // the pushed remainder fragment
            let t = choose|t: int| 0 <= t < gs2[j].exprs.len() && gs2[j].exprs[t] == e;
            if merge {
                if t < g.exprs.skip(chunk).len() {
                    assert(g.exprs[chunk + t] == e);
                } else {
                    assert(g.exprs[0] == e);
                }
            } else {
                assert(g.exprs[chunk - 1 + t] == e);
            }
            assert(gs[i].exprs.contains(e));
        }
    }
    assert forall|e: usize| id_members(gs, gid).contains(e) implies id_members(
        gs2,
        gid,
    ).contains(e) by {
        let j = choose|j: int| 0 <= j < gs.len() && (#[trigger] gs[j]).id == gid
            && gs[j].exprs.contains(e);
        if j != i {
            assert(gs2[j].id == gid && gs2[j].exprs.contains(e));
        } else {
            let t = choose|t: int| 0 <= t < g.exprs.len() && g.exprs[t] == e;
            if t < chunk {
                assert(gs2[i].exprs[t] == e);
                assert(gs2[i].id == gid && gs2[i].exprs.contains(e));
            } else {
                let rest = split_rest(g, chunk, merge).exprs;
                if merge {
                    assert(rest[t - chunk] == e);
                } else {
                    assert(rest[t - (chunk - 1)] == e);
                }
                assert(gs2[gs.len() as int].id == gid);
                assert(gs2[gs.len() as int].exprs.contains(e));
            }
        }
    }
    assert(id_members(gs2, gid) =~= id_members(gs, gid));
}

/// Shuffle invariant, shared by both policies: fragmentation changes how an
/// id's members are spread over fragments, never which members an id has.
pub proof fn lemma_shuffle_members(gs: Seq<GroupView>, i: int, chunk: int, merge: bool)
    ensures
        forall|gid: usize|
            id_members(shuffle_groups(gs, i, chunk, merge), gid) == id_members(gs, gid),
    decreases shuffle_work(gs, i),
{
    if 0 <= i < gs.len() {
        if 2 <= chunk && gs[i].exprs.len() > chunk {
            let gs2 = split_step(gs, i, chunk, merge);
            assert forall|gid: usize| id_members(gs2, gid) == id_members(gs, gid) by {
                lemma_split_step_members(gs, i, chunk, merge, gid);
            }
            lemma_split_work(gs, i, chunk, merge);
            lemma_shuffle_members(gs2, i + 1, chunk, merge);
        } else {
            lemma_shuffle_members(gs, i + 1, chunk, merge);
        }
    }
}

/// Lookup-shuffle bound law, first half: after the scan no group exceeds
/// `chunk` members, under either policy.
pub proof fn lemma_shuffle_bounded(gs: Seq<GroupView>, i: int, chunk: int, merge: bool)
    requires
        2 <= chunk,
        0 <= i,
        groups_bounded(gs, chunk, i),
    ensures
        groups_bounded(
            shuffle_groups(gs, i, chunk, merge),
            chunk,
            shuffle_groups(gs, i, chunk, merge).len() as int,
        ),
    decreases shuffle_work(gs, i),
{
    if i >= gs.len() {
    } else if gs[i].exprs.len() > chunk {
        let gs2 = split_step(gs, i, chunk, merge);
        assert(gs2[i].exprs.len() == chunk);
        assert(groups_bounded(gs2, chunk, i + 1));
        lemma_split_work(gs, i, chunk, merge);
        lemma_shuffle_bounded(gs2, i + 1, chunk, merge);
    } else {
        assert(groups_bounded(gs, chunk, i + 1));
        lemma_shuffle_bounded(gs, i + 1, chunk, merge);
    }
}

/// Lookup-shuffle bound law, second half: on a memo with no oversized group
/// the shuffle is the identity, so the multiset of all members is preserved
/// exactly, with no duplication. (An oversized group's split necessarily
/// repeats one member under either policy — see `lemma_split_duplicates` —
/// so this is the largest input class on which exact multiset preservation
/// can hold.)
pub proof fn lemma_shuffle_identity_on_bounded(gs: Seq<GroupView>, i: int, chunk: int, merge: bool)
    requires
        0 <= i,
        groups_bounded(gs, chunk, gs.len() as int),
    ensures
        shuffle_groups(gs, i, chunk, merge) == gs,
    decreases shuffle_work(gs, i),
{
    if i < gs.len() {
        assert(gs[i].exprs.len() <= chunk);
        lemma_shuffle_identity_on_bounded(gs, i + 1, chunk, merge);
    }
}

/// What one split duplicates, exactly. Merge policy repeats precisely the
/// group's first member: the kept part plus the remainder-without-its-last
/// re-assemble the original member list, and the appended last is the first
/// member, already present in the kept part. Lookup policy instead repeats
/// precisely the last kept member at the remainder's head. Either way a
/// split introduces exactly one duplicated member id.
pub proof fn lemma_split_duplicates(g: GroupView, chunk: int)
    requires
        2 <= chunk < g.exprs.len(),
    ensures
        split_kept(g, chunk).exprs + split_rest(g, chunk, true).exprs.drop_last() == g.exprs,
        split_rest(g, chunk, true).exprs.last() == g.exprs[0],
        split_kept(g, chunk).exprs.contains(g.exprs[0]),
        split_rest(g, chunk, false).exprs[0] == g.exprs[chunk - 1],
        split_kept(g, chunk).exprs + split_rest(g, chunk, false).exprs.skip(1) == g.exprs,
        split_kept(g, chunk).exprs.contains(g.exprs[chunk - 1]),
    {
    assert(split_kept(g, chunk).exprs + split_rest(g, chunk, true).exprs.drop_last()
        =~= g.exprs);
    assert(split_kept(g, chunk).exprs[0] == g.exprs[0]);
    assert(split_kept(g, chunk).exprs[chunk - 1] == g.exprs[chunk - 1]);
    assert(split_kept(g, chunk).exprs + split_rest(g, chunk, false).exprs.skip(1) =~= g.exprs);
}

proof fn lemma_shuffle_wf_rec(
    es: Seq<crate::memo::ExprView>,
    gs: Seq<GroupView>,
    entry: usize,
    i: int,
    chunk: int,
    merge: bool,
)
    requires
        2 <= chunk,
        0 <= i,
        crate::memo::wf_memo(MemoView { exprs: es, groups: gs, entry }),
    ensures
        crate::memo::wf_memo(
            MemoView { exprs: es, groups: shuffle_groups(gs, i, chunk, merge), entry },
        ),
    decreases shuffle_work(gs, i),
{
    if 0 <= i < gs.len() {
        if gs[i].exprs.len() > chunk {
            let m = MemoView { exprs: es, groups: gs, entry };
            let gs2 = split_step(gs, i, chunk, merge);
            let m2 = MemoView { exprs: es, groups: gs2, entry };
            let g = gs[i];
            assert(crate::memo::wf_memo(m2)) by {
                assert forall|j: int, t: int|
                    0 <= j < m2.groups.len() && 0 <= t < m2.groups[j].exprs.len() implies (
                #[trigger] m2.groups[j].exprs[t]) < m2.exprs.len() && crate::memo::children_below(
                    m2.exprs,
                    m2.groups[j].exprs[t],
                    m2.groups[j].id,
                ) by {
                    let e = gs2[j].exprs[t];
                    if j < gs.len() && j != i {
                        assert(gs[j].exprs[t] == e);
                        assert(crate::memo::children_below(es, e, gs[j].id));
                    } else if j == i {
                        assert(g.exprs[t] == e);
                        assert(crate::memo::children_below(es, e, g.id));
                    } else {
                        if merge {
                            if t < g.exprs.skip(chunk).len() {
                                assert(g.exprs[chunk + t] == e);
                            } else {
                                assert(g.exprs[0] == e);
                            }
                        } else {
                            assert(g.exprs[chunk - 1 + t] == e);
                        }
                        assert(g.exprs.contains(e));
                        let t0 = choose|t0: int| 0 <= t0 < g.exprs.len() && g.exprs[t0] == e;
                        assert(crate::memo::children_below(es, e, g.id));
                    }
                }
                assert forall|j: int| 0 <= j < m2.groups.len() implies (#[trigger] m2.groups[j]).id
                    <= j by {
                    if j < gs.len() {
                        assert(gs[j].id <= j);
                    } else {
                        assert(gs2[j].id == g.id);
                        assert(g.id <= i);
                    }
                }
                let w = choose|w: int| 0 <= w < gs.len() && (#[trigger] gs[w]).id == entry;
                assert(0 <= w < m2.groups.len() && m2.groups[w].id == m2.entry);
            }
            lemma_split_work(gs, i, chunk, merge);
            lemma_shuffle_wf_rec(es, gs2, entry, i + 1, chunk, merge);
        } else {
            lemma_shuffle_wf_rec(es, gs, entry, i + 1, chunk, merge);
        }
    }
}

/// Shuffling preserves well-formedness: every fragment's id stays at or
/// below its position, members keep naming existing expressions, children
/// stay below the owning id, and the entry still names a group. Pre- and
/// post-shuffle memos are therefore both valid traversal inputs.
pub proof fn lemma_shuffle_wf(m: MemoView, chunk: int, merge: bool)
    requires
        2 <= chunk,
        crate::memo::wf_memo(m),
    ensures
        crate::memo::wf_memo(
            MemoView {
                exprs: m.exprs,
                groups: shuffle_groups(m.groups, 0, chunk, merge),
                entry: m.entry,
            },
        ),
{
    lemma_shuffle_wf_rec(m.exprs, m.groups, m.entry, 0, chunk, merge);
}

/// The total number of member slots over all groups.
pub open spec fn member_count(gs: Seq<GroupView>) -> nat
    decreases gs.len(),
{
    if gs.len() == 0 {
        0
    } else {
        member_count(gs.drop_last()) + gs.last().exprs.len()
    }
}

proof fn lemma_mc_push(gs: Seq<GroupView>, g: GroupView)
    ensures
        member_count(gs.push(g)) == member_count(gs) + g.exprs.len(),
{
    assert(gs.push(g).drop_last() =~= gs);
}

proof fn lemma_mc_update(gs: Seq<GroupView>, j: int, g: GroupView)
    requires
        0 <= j < gs.len(),
    ensures
        member_count(gs.update(j, g)) + gs[j].exprs.len() == member_count(gs) + g.exprs.len(),
    decreases gs.len(),
{
    if j == gs.len() - 1 {
        assert(gs.update(j, g).drop_last() =~= gs.drop_last());
    } else {
        assert(gs.update(j, g).drop_last() =~= gs.drop_last().update(j, g));
        lemma_mc_update(gs.drop_last(), j, g);
    }
}

/// How many splits the scan from position `i` performs.
pub open spec fn split_count(gs: Seq<GroupView>, i: int, chunk: int, merge: bool) -> nat
    decreases shuffle_work(gs, i),
    via split_count_dec
{
    if i < 0 || i >= gs.len() {
        0
    } else if 2 <= chunk && gs[i].exprs.len() > chunk {
        1 + split_count(split_step(gs, i, chunk, merge), i + 1, chunk, merge)
    } else {
        split_count(gs, i + 1, chunk, merge)
    }
}

#[via_fn]
proof fn split_count_dec(gs: Seq<GroupView>, i: int, chunk: int, merge: bool) {
    if 0 <= i < gs.len() {
        if 2 <= chunk && gs[i].exprs.len() > chunk {
            lemma_split_work(gs, i, chunk, merge);
        }
    }
}

/// Duplication is pinned down exactly: the shuffled memo holds precisely one
/// member occurrence more per split than the input — each split repeats one
/// already-present id (see `lemma_split_duplicates`) and, by
/// `lemma_shuffle_members`, invents none.
pub proof fn lemma_shuffle_duplication_count(gs: Seq<GroupView>, i: int, chunk: int, merge: bool)
    requires
        0 <= i,
    ensures
        member_count(shuffle_groups(gs, i, chunk, merge)) == member_count(gs) + split_count(
            gs,
            i,
            chunk,
            merge,
        ),
    decreases shuffle_work(gs, i),
{
    if 0 <= i < gs.len() {
        if 2 <= chunk && gs[i].exprs.len() > chunk {
            let gs2 = split_step(gs, i, chunk, merge);
            lemma_mc_update(gs, i, split_kept(gs[i], chunk));
            lemma_mc_push(
                gs.update(i, split_kept(gs[i], chunk)),
                split_rest(gs[i], chunk, merge),
            );
            assert(member_count(gs2) == member_count(gs) + 1);
            lemma_split_work(gs, i, chunk, merge);
            lemma_shuffle_duplication_count(gs2, i + 1, chunk, merge);
        } else {
            lemma_shuffle_duplication_count(gs, i + 1, chunk, merge);
        }
    }
}

/// Two group lists of the same shape: equal length, and pointwise equal ids
/// and member counts.
pub open spec fn same_shape(a: Seq<GroupView>, b: Seq<GroupView>) -> bool {
    &&& a.len() == b.len()
    &&& forall|j: int|
        0 <= j < a.len() ==> (#[trigger] a[j]).id == b[j].id && a[j].exprs.len()
            == b[j].exprs.len()
}

proof fn lemma_same_shape_work(a: Seq<GroupView>, b: Seq<GroupView>, i: int)
    requires
        same_shape(a, b),
    ensures
        shuffle_work(a, i) == shuffle_work(b, i),
    decreases a.len() - i,
{
    if 0 <= i < a.len() {
        lemma_same_shape_work(a, b, i + 1);
    }
}

proof fn lemma_modes_shape(a: Seq<GroupView>, b: Seq<GroupView>, i: int, chunk: int)
    requires
        2 <= chunk,
        same_shape(a, b),
    ensures
        same_shape(shuffle_groups(a, i, chunk, false), shuffle_groups(b, i, chunk, true)),
        split_count(a, i, chunk, false) == split_count(b, i, chunk, true),
    decreases shuffle_work(a, i),
{
    if 0 <= i < a.len() {
        if a[i].exprs.len() > chunk {
            let a2 = split_step(a, i, chunk, false);
            let b2 = split_step(b, i, chunk, true);
            assert(same_shape(a2, b2)) by {
                assert(forall|j: int|
                    0 <= j < a2.len() ==> (#[trigger] a2[j]).id == b2[j].id && a2[j].exprs.len()
                        == b2[j].exprs.len());
            }
            lemma_split_work(a, i, chunk, false);
            lemma_same_shape_work(a2, b2, i + 1);
            lemma_modes_shape(a2, b2, i + 1, chunk);
        } else {
            lemma_modes_shape(a, b, i + 1, chunk);
        }
    }
}

/// Merge-shuffle shape law: on one input, the merge policy fragments the
/// groups exactly as the lookup policy does — the same number of fragments,
/// with pointwise the same ids and member counts. The two partitions differ
/// only in which member each split duplicates: the group's first member
/// under merge, the last kept member under lookup
/// (see `lemma_split_duplicates`).
pub proof fn lemma_shuffle_modes_same_shape(gs: Seq<GroupView>, chunk: int)
    requires
        2 <= chunk,
    ensures
        same_shape(shuffle_groups(gs, 0, chunk, false), shuffle_groups(gs, 0, chunk, true)),
        split_count(gs, 0, chunk, false) == split_count(gs, 0, chunk, true),
{
    lemma_modes_shape(gs, gs, 0, chunk);
}

impl RawMemo {
    /// Splits every group holding more than `chunk` members: the first
    /// `chunk` members stay in place and the remainder moves to a new group
    /// fragment with the same id, re-scanned until no group is oversized.
    /// With `merge` the remainder additionally repeats the group's first
    /// member; without it the last kept member heads the remainder. The
    /// expression set and the entry are unchanged, and the input memo is
    /// untouched.
    pub fn shuffle(&self, chunk: usize, merge: bool) -> (r: RawMemo)
        requires
            chunk >= 2,
        ensures
            r@.exprs == self@.exprs,
            r@.entry == self@.entry,
            r@.groups == shuffle_groups(self@.groups, 0, chunk as int, merge),
    {
        let exprs = copy_exprs(&self.exprs);
        let mut groups = copy_groups(&self.groups);
        let mut i: usize = 0;
        while i < groups.len()
            invariant
                chunk >= 2,
                i <= groups@.len(),
                shuffle_groups(groups_view(groups@), i as int, chunk as int, merge)
                    == shuffle_groups(self@.groups, 0, chunk as int, merge),
            decreases shuffle_work(groups_view(groups@), i as int),
        {
            let ghost gv_pre = groups_view(groups@);
            let glen = groups[i].exprs.len();
            if glen > chunk {
                let gid = groups[i].id;
                let mut kept: Vec<usize> = Vec::new();
                let mut j: usize = 0;
                while j < chunk
                    invariant
                        j <= chunk,
                        chunk < glen,
                        i < groups@.len(),
                        glen == groups@[i as int].exprs@.len(),
                        kept@ == groups@[i as int].exprs@.take(j as int),
                    decreases chunk - j,
                {
                    kept.push(groups[i].exprs[j]);
                    proof {
                        assert(groups@[i as int].exprs@.take(j + 1) =~= groups@[
                            i as int
                        ].exprs@.take(j as int).push(groups@[i as int].exprs@[j as int]));
                    }
                    j += 1;
                }
                let start = if merge {
                    chunk
                } else {
                    chunk - 1
                };
                let mut rest: Vec<usize> = Vec::new();
                let mut j2: usize = start;
                while j2 < glen
                    invariant
                        start <= j2 <= glen,
                        i < groups@.len(),
                        glen == groups@[i as int].exprs@.len(),
                        rest@ == groups@[i as int].exprs@.subrange(start as int, j2 as int),
                    decreases glen - j2,
                {
                    rest.push(groups[i].exprs[j2]);
                    proof {
                        assert(groups@[i as int].exprs@.subrange(start as int, j2 + 1)
                            =~= groups@[i as int].exprs@.subrange(start as int, j2 as int).push(
                            groups@[i as int].exprs@[j2 as int],
                        ));
                    }
                    j2 += 1;
                }
                if merge {
                    let first = groups[i].exprs[0];
                    rest.push(first);
                }
                proof {
                    assert(kept@ =~= gv_pre[i as int].exprs.take(chunk as int));
                    if merge {
                        assert(rest@ =~= gv_pre[i as int].exprs.skip(chunk as int).push(
                            gv_pre[i as int].exprs[0],
                        ));
                    } else {
                        assert(rest@ =~= gv_pre[i as int].exprs.skip(chunk as int - 1));
                    }
                }
                groups.set(i, RawGroup { exprs: kept, id: gid });
                groups.push(RawGroup { exprs: rest, id: gid });
                proof {
                    assert(groups_view(groups@) == split_step(
                        gv_pre,
                        i as int,
                        chunk as int,
                        merge,
                    ));
                    lemma_work_update(
                        gv_pre,
                        i as int,
                        split_kept(gv_pre[i as int], chunk as int),
                        i as int + 1,
                    );
                    lemma_work_push(
                        gv_pre.update(i as int, split_kept(gv_pre[i as int], chunk as int)),
                        i as int + 1,
                        split_rest(gv_pre[i as int], chunk as int, merge),
                    );
                }
            }
            i += 1;
        }
        RawMemo { exprs, groups, entry: self.entry }
    }
}

} // verus!
