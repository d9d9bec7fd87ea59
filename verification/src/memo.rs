//! The memo data model: expressions, equivalence-class groups, and the memo
//! that bundles them with an entry group, together with its well-formedness
//! invariants.

use vstd::prelude::*;

verus! {

/// One operator node. `op` is the kind tag derived from the arity
/// (0 = scan-like leaf, 1 = filter-like, 2 = join-like); `children` lists the
/// operand group ids in order. Operands always reference groups, never
/// expressions.
pub struct RawExpr {
    pub op: usize,
    pub children: Vec<usize>,
}

/// An equivalence class: its id and the member expression ids in creation
/// order. After a shuffle, several groups may share one id: they are
/// fragments of one logical group.
pub struct RawGroup {
    pub exprs: Vec<usize>,
    pub id: usize,
}

/// A full synthetic workload: all expressions, all groups, and the entry
/// group id that roots the plan.
pub struct RawMemo {
    pub exprs: Vec<RawExpr>,
    pub groups: Vec<RawGroup>,
    pub entry: usize,
}

#[verifier::ext_equal]
pub ghost struct ExprView {
    pub op: usize,
    pub children: Seq<usize>,
}

#[verifier::ext_equal]
pub ghost struct GroupView {
    pub exprs: Seq<usize>,
    pub id: usize,
}

#[verifier::ext_equal]
pub ghost struct MemoView {
    pub exprs: Seq<ExprView>,
    pub groups: Seq<GroupView>,
    pub entry: usize,
}

impl View for RawExpr {
    type V = ExprView;

    open spec fn view(&self) -> ExprView {
        ExprView { op: self.op, children: self.children@ }
    }
}

impl View for RawGroup {
    type V = GroupView;

    open spec fn view(&self) -> GroupView {
        GroupView { exprs: self.exprs@, id: self.id }
    }
}

/// The abstract contents of an expression vector.
pub open spec fn exprs_view(s: Seq<RawExpr>) -> Seq<ExprView> {
    s.map_values(|e: RawExpr| e@)
}

/// The abstract contents of a group vector.
pub open spec fn groups_view(s: Seq<RawGroup>) -> Seq<GroupView> {
    s.map_values(|g: RawGroup| g@)
}

pub broadcast proof fn lemma_exprs_view_push(s: Seq<RawExpr>, x: RawExpr)
    ensures
        #[trigger] exprs_view(s.push(x)) == exprs_view(s).push(x@),
{
    assert(exprs_view(s.push(x)) =~= exprs_view(s).push(x@));
}

pub broadcast proof fn lemma_groups_view_push(s: Seq<RawGroup>, x: RawGroup)
    ensures
        #[trigger] groups_view(s.push(x)) == groups_view(s).push(x@),
{
    assert(groups_view(s.push(x)) =~= groups_view(s).push(x@));
}

pub broadcast proof fn lemma_groups_view_update(s: Seq<RawGroup>, i: int, x: RawGroup)
    requires
        0 <= i < s.len(),
    ensures
        #[trigger] groups_view(s.update(i, x)) == groups_view(s).update(i, x@),
{
    assert(groups_view(s.update(i, x)) =~= groups_view(s).update(i, x@));
}

impl View for RawMemo {
    type V = MemoView;

    open spec fn view(&self) -> MemoView {
        MemoView {
            exprs: exprs_view(self.exprs@),
            groups: groups_view(self.groups@),
            entry: self.entry,
        }
    }
}

/// Copies an id vector.
pub fn copy_ids(v: &Vec<usize>) -> (r: Vec<usize>)
    ensures
        r@ == v@,
{
    let n = v.len();
    let mut r: Vec<usize> = Vec::new();
    let mut i: usize = 0;
    while i < n
        invariant
            i <= n,
            n == v.len(),
            r@ == v@.take(i as int),
        decreases n - i,
    {
        r.push(v[i]);
        proof {
            assert(v@.take(i + 1) =~= v@.take(i as int).push(v@[i as int]));
        }
        i += 1;
    }
    proof {
        assert(v@.take(n as int) =~= v@);
    }
    r
}

/// Copies an expression vector; the copy denotes the same expressions.
pub fn copy_exprs(v: &Vec<RawExpr>) -> (r: Vec<RawExpr>)
    ensures
        exprs_view(r@) == exprs_view(v@),
{
    broadcast use lemma_exprs_view_push;

    let n = v.len();
    let mut r: Vec<RawExpr> = Vec::new();
    let mut i: usize = 0;
    while i < n
        invariant
            i <= n,
            n == v.len(),
            exprs_view(r@) == exprs_view(v@).take(i as int),
        decreases n - i,
    {
        let e = RawExpr { op: v[i].op, children: copy_ids(&v[i].children) };
        proof {
            assert(e@ == v@[i as int]@);
        }
        r.push(e);
        proof {
            assert(exprs_view(v@).take(i + 1) =~= exprs_view(v@).take(i as int).push(
                v@[i as int]@,
            ));
        }
        i += 1;
    }
    proof {
        assert(exprs_view(v@).take(n as int) =~= exprs_view(v@));
    }
    r
}

/// Copies a group vector; the copy denotes the same groups.
pub fn copy_groups(v: &Vec<RawGroup>) -> (r: Vec<RawGroup>)
    ensures
        groups_view(r@) == groups_view(v@),
{
    broadcast use lemma_groups_view_push;

    let n = v.len();
    let mut r: Vec<RawGroup> = Vec::new();
    let mut i: usize = 0;
    while i < n
        invariant
            i <= n,
            n == v.len(),
            groups_view(r@) == groups_view(v@).take(i as int),
        decreases n - i,
    {
        let g = RawGroup { exprs: copy_ids(&v[i].exprs), id: v[i].id };
        proof {
            assert(g@ == v@[i as int]@);
        }
        r.push(g);
        proof {
            assert(groups_view(v@).take(i + 1) =~= groups_view(v@).take(i as int).push(
                v@[i as int]@,
            ));
        }
        i += 1;
    }
    proof {
        assert(groups_view(v@).take(n as int) =~= groups_view(v@));
    }
    r
}

/// Whether `v` holds `x`, decided by a scan.
pub fn vec_contains(v: &Vec<usize>, x: usize) -> (r: bool)
    ensures
        r == v@.contains(x),
{
    let n = v.len();
    let mut i: usize = 0;
    while i < n
        invariant
            i <= n,
            n == v.len(),
            forall|j: int| 0 <= j < i ==> v@[j] != x,
        decreases n - i,
    {
        if v[i] == x {
            return true;
        }
        i += 1;
    }
    false
}

/// Every child id of expression `e` is strictly below `bound`.
pub open spec fn children_below(es: Seq<ExprView>, e: usize, bound: usize) -> bool {
    forall|k: int| 0 <= k < es[e as int].children.len() ==> es[e as int].children[k] < bound
}

/// Every expression's kind tag is derived from its arity: the tag equals the
/// child count, which never exceeds two.
pub open spec fn kinds_consistent(es: Seq<ExprView>) -> bool {
    forall|i: int|
        0 <= i < es.len() ==> (#[trigger] es[i]).op == es[i].children.len()
            && es[i].children.len() <= 2
}

/// Some group carries id `gid`.
pub open spec fn has_group(gs: Seq<GroupView>, gid: usize) -> bool {
    exists|i: int| 0 <= i < gs.len() && (#[trigger] gs[i]).id == gid
}

/// Well-formedness shared by generated and shuffled memos:
/// - a group's id never exceeds its position, so ids stay below the group count;
/// - member ids name existing expressions;
/// - every child of a member lies strictly below the owning group's id, so
///   references only ever point at earlier-created groups (acyclicity);
/// - the entry id names at least one group.
pub open spec fn wf_groups(es: Seq<ExprView>, gs: Seq<GroupView>) -> bool {
    &&& forall|i: int| 0 <= i < gs.len() ==> (#[trigger] gs[i]).id <= i
    &&& forall|i: int, j: int|
        0 <= i < gs.len() && 0 <= j < gs[i].exprs.len() ==> (#[trigger] gs[i].exprs[j])
            < es.len()
    &&& forall|i: int, j: int|
        0 <= i < gs.len() && 0 <= j < gs[i].exprs.len() ==> children_below(
            es,
            #[trigger] gs[i].exprs[j],
            gs[i].id,
        )
}

pub open spec fn wf_memo(m: MemoView) -> bool {
    &&& wf_groups(m.exprs, m.groups)
    &&& has_group(m.groups, m.entry)
}

/// The stronger shape that generation guarantees: group ids are dense and
/// equal to positions, and the entry id is in range.
pub open spec fn wf_dense(m: MemoView) -> bool {
    &&& wf_memo(m)
    &&& forall|i: int| 0 <= i < m.groups.len() ==> (#[trigger] m.groups[i]).id == i
    &&& m.entry < m.groups.len()
}

/// The members listed under logical group id `gid`: the concatenation, in
/// storage order, of the member lists of every group fragment carrying that id.
pub open spec fn members_seq(groups: Seq<GroupView>, gid: usize) -> Seq<usize>
    decreases groups.len(),
{
    if groups.len() == 0 {
        Seq::empty()
    } else {
        members_seq(groups.drop_last(), gid)
            + (if groups.last().id == gid {
                groups.last().exprs
            } else {
                Seq::empty()
            })
    }
}

impl RawMemo {
    /// The workload size: how many expressions the memo holds.
    pub fn len(&self) -> (n: usize)
        ensures
            n == self@.exprs.len(),
    {
        self.exprs.len()
    }

    /// Collects the members of logical group `gid`: the concatenation of the
    /// member lists of all fragments with that id, in storage order.
    pub fn members_of(&self, gid: usize) -> (r: Vec<usize>)
        ensures
            r@ == members_seq(self@.groups, gid),
    {
        let mut r: Vec<usize> = Vec::new();
        let n = self.groups.len();
        let mut i: usize = 0;
        while i < n
            invariant
                i <= n,
                n == self.groups.len(),
                r@ == members_seq(self@.groups.take(i as int), gid),
            decreases n - i,
        {
            proof {
                assert(self@.groups.take(i + 1).drop_last() =~= self@.groups.take(i as int));
                assert(self@.groups.take(i + 1).last() =~= self@.groups[i as int]);
            }
            if self.groups[i].id == gid {
                let g = &self.groups[i];
                let mut j: usize = 0;
                let glen = g.exprs.len();
                while j < glen
                    invariant
                        j <= glen,
                        glen == g.exprs.len(),
                        g == &self.groups[i as int],
                        i < self.groups.len(),
                        r@ == members_seq(self@.groups.take(i as int), gid)
                            + self@.groups[i as int].exprs.take(j as int),
                    decreases glen - j,
                {
                    r.push(g.exprs[j]);
                    proof {
                        assert(self@.groups[i as int].exprs.take(j + 1)
                            =~= self@.groups[i as int].exprs.take(j as int).push(
                            self@.groups[i as int].exprs[j as int],
                        ));
                        assert(members_seq(self@.groups.take(i as int), gid)
                            + self@.groups[i as int].exprs.take(j + 1)
                            =~= (members_seq(self@.groups.take(i as int), gid)
                            + self@.groups[i as int].exprs.take(j as int)).push(
                            self@.groups[i as int].exprs[j as int],
                        ));
                    }
                    j += 1;
                }
                proof {
                    assert(self@.groups[i as int].exprs.take(glen as int)
                        =~= self@.groups[i as int].exprs);
                }
            } else {
                proof {
                    assert(r@ =~= members_seq(self@.groups.take(i as int), gid)
                        + Seq::<usize>::empty());
                }
            }
            i += 1;
        }
        proof {
            assert(self@.groups.take(n as int) =~= self@.groups);
        }
        r
    }
}

} // verus!
