//! Ranking the references of single-reference modes, and dropping compound
//! modes by that ranking.

use vstd::prelude::*;

use crate::arith::{max_int, min_int, shr_i64};
use crate::pred_mode::{
    candidate_mv,
    compound_ref0_mode,
    compound_ref1_mode,
    drl_count,
    get_candidate_mv,
    get_drl_refmv_count,
    PredMode,
    RefMvRow,
    GOLDEN_FRAME,
};
use crate::tpl_model::Mv;

verus! {

/// Number of single-reference modes.
pub const SINGLE_INTER_MODE_NUM: usize = 4;

/// Most references of one direction.
pub const FWD_REFS: usize = 4;

/// Number of a mode among the inter modes.
pub fn inter_offset(mode: PredMode) -> (r: usize)
    requires
        mode.index() >= 13,
    ensures
        r == mode.index() - 13,
{
    (mode.to_i32() - 13) as usize
}

/// What is known of a reference in a mode.
#[derive(Clone, Copy, Debug, PartialEq, Eq, Structural)]
pub struct SingleState {
    /// Cost; `i64::MAX` where it was not measured.
    pub rd: i64,
    pub ref_frame: Option<i32>,
    /// The reference is still in the race.
    pub valid: bool,
}

impl SingleState {
    pub open spec fn unset() -> SingleState {
        SingleState { rd: i64::MAX, ref_frame: None, valid: false }
    }
}

impl Default for SingleState {
    fn default() -> (r: Self)
        ensures
            r == SingleState::unset(),
    {
        SingleState { rd: i64::MAX, ref_frame: None, valid: false }
    }
}

/// The references of one direction and mode, by ascending cost.
#[derive(Clone, Copy, Debug, PartialEq, Eq)]
pub struct StateList {
    pub entries: [SingleState; 4],
    /// Number of entries in use.
    pub count: usize,
}

impl Default for StateList {
    fn default() -> (r: Self)
        ensures
            r.count == 0,
            forall|i: int| 0 <= i < 4 ==> #[trigger] r.entries[i] == SingleState::unset(),
    {
        let e = SingleState::default();
        StateList { entries: [e, e, e, e], count: 0 }
    }
}

/// `e` put behind all entries that cost no more, counted from the end.
pub open spec fn ranked_in(s: Seq<SingleState>, e: SingleState) -> Seq<SingleState>
    decreases s.len(),
{
    if s.len() == 0 || s.last().rd <= e.rd {
        s.push(e)
    } else {
        ranked_in(s.drop_last(), e).push(s.last())
    }
}

/// Ascending in cost.
pub open spec fn is_ranked(s: Seq<SingleState>) -> bool {
    forall|i: int, j: int| 0 <= i <= j < s.len() ==> (#[trigger] s[i]).rd <= (#[trigger] s[j]).rd
}

/// Putting an entry in its place keeps a list in order, and keeps all of its
/// entries.
pub proof fn law_ranking_is_kept(s: Seq<SingleState>, e: SingleState)
    requires
        is_ranked(s),
    ensures
        is_ranked(ranked_in(s, e)),
        ranked_in(s, e).len() == s.len() + 1,
        ranked_in(s, e).to_multiset() == s.to_multiset().insert(e),
    decreases s.len(),
{
    broadcast use vstd::seq_lib::group_to_multiset_ensures;

    if s.len() != 0 && s.last().rd > e.rd {
        let t = s.drop_last();
        assert(is_ranked(t)) by {
            assert forall|i: int, j: int| 0 <= i <= j < t.len() implies (#[trigger] t[i]).rd <= (
            #[trigger] t[j]).rd by {
                assert(s[i].rd <= s[j].rd);
            }
        }
        law_ranking_is_kept(t, e);
        let u = ranked_in(t, e);
        lemma_ranked_top(t, e, s.last().rd as int);
        assert(s =~= t.push(s.last()));
        assert(ranked_in(s, e).to_multiset() =~= s.to_multiset().insert(e));
    }
}

proof fn lemma_ranked_top(s: Seq<SingleState>, e: SingleState, top: int)
    requires
        forall|i: int| 0 <= i < s.len() ==> (#[trigger] s[i]).rd <= top,
        e.rd <= top,
    ensures
        forall|i: int|
            0 <= i < ranked_in(s, e).len() ==> (#[trigger] ranked_in(s, e)[i]).rd <= top,
    decreases s.len(),
{
    if s.len() != 0 && s.last().rd > e.rd {
        let t = s.drop_last();
        assert forall|i: int| 0 <= i < t.len() implies (#[trigger] t[i]).rd <= top by {
            assert(s[i].rd <= top);
        }
        lemma_ranked_top(t, e, top);
        assert(s[s.len() - 1].rd <= top);
    }
}

impl StateList {
    /// The entries in use.
    pub open spec fn list(self) -> Seq<SingleState> {
        self.entries@.take(self.count as int)
    }

    pub open spec fn valid(self) -> bool {
        self.count <= 4
    }

    /// The entries past those in use are as they were in `before`.
    pub open spec fn keeps_rest(self, before: StateList) -> bool {
        forall|i: int| self.count <= i < 4 ==> #[trigger] self.entries[i] == before.entries[i]
    }

    /// Put an entry in its place.
    pub fn insert(&mut self, state: SingleState)
        requires
            old(self).count < 4,
        ensures
            final(self).count == old(self).count + 1,
            final(self).list() == ranked_in(old(self).list(), state),
            final(self).keeps_rest(*old(self)),
    {
        let ghost l0 = self.list();
        let ghost e0 = self.entries@;
        let mut j: usize = self.count;
        assert(l0.take(j as int) =~= l0);
        while j > 0 && self.entries[j - 1].rd > state.rd
            invariant
                j <= self.count < 4,
                self.count == l0.len(),
                l0 == e0.take(self.count as int),
                e0.len() == 4,
                forall|i: int| 0 <= i < j ==> #[trigger] self.entries@[i] == e0[i],
                forall|i: int| j < i <= self.count ==> #[trigger] self.entries@[i] == e0[i - 1],
                forall|i: int| self.count < i < 4 ==> #[trigger] self.entries@[i] == e0[i],
                ranked_in(l0, state) == ranked_in(l0.take(j as int), state) + l0.skip(j as int),
            decreases j,
        {
            proof {
                let t = l0.take(j as int);
                assert(t.last() == e0[j - 1]);
                assert(t.drop_last() =~= l0.take(j - 1));
                assert(ranked_in(l0.take(j - 1), state).push(t.last()) + l0.skip(j as int)
                    =~= ranked_in(l0.take(j - 1), state) + l0.skip(j - 1));
            }
            self.entries[j] = self.entries[j - 1];
            j = j - 1;
        }
        self.entries[j] = state;
        self.count = self.count + 1;
        proof {
            let t = l0.take(j as int);
            assert(ranked_in(t, state) =~= t.push(state));
            assert(self.list() =~= t.push(state) + l0.skip(j as int));
        }
    }
}

/// The single-reference results of a block, by direction and mode.
#[derive(Clone, Copy, Debug, PartialEq, Eq)]
pub struct SingleStates {
    /// Ranked by the cost as measured.
    pub simple: [[StateList; 4]; 2],
    /// Ranked by the cost as modelled.
    pub modelled: [[StateList; 4]; 2],
    /// The references in the order compound modes should try them.
    pub order: [[[Option<i32>; 4]; 4]; 2],
}

/// The smallest of the first `n` costs.
pub open spec fn least(s: Seq<i64>, n: int) -> int
    decreases n,
{
    if n <= 0 {
        i64::MAX as int
    } else {
        min_int(least(s, n - 1), s[n - 1] as int)
    }
}

fn least_of(v: &[i64], n: usize) -> (r: i64)
    requires
        n <= v.len(),
    ensures
        r == least(v@, n as int),
{
    let mut best: i64 = i64::MAX;
    for k in 0..n
        invariant
            n <= v.len(),
            best == least(v@, k as int),
    {
        if v[k] < best {
            best = v[k];
        }
    }
    best
}

/// Direction of a reference: 0 for forward, 1 for backward.
pub open spec fn dir_of(ref_frame: int) -> int {
    if ref_frame > GOLDEN_FRAME {
        1
    } else {
        0
    }
}

fn dir_index(ref_frame: i32) -> (r: usize)
    ensures
        r == dir_of(ref_frame as int),
        r < 2,
{
    if ref_frame > GOLDEN_FRAME {
        1
    } else {
        0
    }
}

impl Default for SingleStates {
    fn default() -> (r: Self)
        ensures
            r.is_blank(),
    {
        SingleStates::init()
    }
}

impl SingleStates {
    /// The lists are within their capacity.
    pub open spec fn valid(self) -> bool {
        &&& forall|d: int, m: int|
            0 <= d < 2 && 0 <= m < 4 ==> (#[trigger] self.simple[d][m]).valid()
        &&& forall|d: int, m: int|
            0 <= d < 2 && 0 <= m < 4 ==> (#[trigger] self.modelled[d][m]).valid()
    }

    /// Nothing is known.
    pub open spec fn is_blank(self) -> bool {
        &&& self.valid()
        &&& forall|d: int, m: int|
            0 <= d < 2 && 0 <= m < 4 ==> (#[trigger] self.simple[d][m]).count == 0
        &&& forall|d: int, m: int|
            0 <= d < 2 && 0 <= m < 4 ==> (#[trigger] self.modelled[d][m]).count == 0
        &&& forall|d: int, m: int, i: int|
            0 <= d < 2 && 0 <= m < 4 && 0 <= i < 4 ==> #[trigger] self.simple[d][m].entries[i]
                == SingleState::unset()
        &&& forall|d: int, m: int, i: int|
            0 <= d < 2 && 0 <= m < 4 && 0 <= i < 4 ==> #[trigger] self.modelled[d][m].entries[i]
                == SingleState::unset()
        &&& forall|d: int, m: int, i: int|
            0 <= d < 2 && 0 <= m < 4 && 0 <= i < 4 ==> #[trigger] self.order[d][m][i] is None
    }

    /// Lists of which nothing is known.
    pub fn init() -> (r: Self)
        ensures
            r.is_blank(),
    {
        let e = StateList::default();
        let n: [Option<i32>; 4] = [None, None, None, None];
        SingleStates {
            simple: [[e, e, e, e], [e, e, e, e]],
            modelled: [[e, e, e, e], [e, e, e, e]],
            order: [[n, n, n, n], [n, n, n, n]],
        }
    }

    /// File a finished candidate: under its cheapest measured and its cheapest
    /// modelled cost over the candidate vectors that were tried.
    pub fn collect(
        &mut self,
        this_mode: PredMode,
        ref_frame: i32,
        row: &RefMvRow,
        simple_rd: &[i64],
        modelled_rd: &[i64],
    )
        requires
            this_mode.is_single(),
            drl_count(this_mode, row.count as int) <= simple_rd.len(),
            drl_count(this_mode, row.count as int) <= modelled_rd.len(),
            old(self).simple[dir_of(ref_frame as int)][this_mode.index() - 13].count < 4,
            old(self).modelled[dir_of(ref_frame as int)][this_mode.index() - 13].count < 4,
        ensures
            ({
                let (d, m) = (dir_of(ref_frame as int), this_mode.index() - 13);
                let n = drl_count(this_mode, row.count as int);
                &&& final(self).simple[d][m].list() == ranked_in(
                    old(self).simple[d][m].list(),
                    SingleState {
                        rd: least(simple_rd@, n) as i64,
                        ref_frame: Some(ref_frame),
                        valid: true,
                    },
                )
                &&& final(self).modelled[d][m].list() == ranked_in(
                    old(self).modelled[d][m].list(),
                    SingleState {
                        rd: least(modelled_rd@, n) as i64,
                        ref_frame: Some(ref_frame),
                        valid: true,
                    },
                )
                &&& final(self).simple[d][m].count == old(self).simple[d][m].count + 1
                &&& final(self).modelled[d][m].count == old(self).modelled[d][m].count + 1
                &&& final(self).simple[d][m].keeps_rest(old(self).simple[d][m])
                &&& final(self).modelled[d][m].keeps_rest(old(self).modelled[d][m])
                &&& forall|c: int, k: int|
                    0 <= c < 2 && 0 <= k < 4 && !(c == d && k == m)
                        ==> #[trigger] final(self).simple[c][k] == old(self).simple[c][k]
                &&& forall|c: int, k: int|
                    0 <= c < 2 && 0 <= k < 4 && !(c == d && k == m)
                        ==> #[trigger] final(self).modelled[c][k] == old(self).modelled[c][k]
            }),
            final(self).order == old(self).order,
    {
        let dir: usize = dir_index(ref_frame);
        let mode_offset: usize = inter_offset(this_mode);
        let ref_set: usize = get_drl_refmv_count(this_mode, row.count);
        let s = SingleState {
            rd: least_of(simple_rd, ref_set),
            ref_frame: Some(ref_frame),
            valid: true,
        };
        let mut list: StateList = self.simple[dir][mode_offset];
        list.insert(s);
        self.simple[dir][mode_offset] = list;
        let m = SingleState {
            rd: least_of(modelled_rd, ref_set),
            ref_frame: Some(ref_frame),
            valid: true,
        };
        let mut list: StateList = self.modelled[dir][mode_offset];
        list.insert(m);
        self.modelled[dir][mode_offset] = list;
    }
}

/// An entry is far from the best: six (or five) eighths of its cost are more.
pub open spec fn is_far(e: SingleState, factor: int, best: int) -> bool {
    e.rd != i64::MAX && (e.rd as int / 8) * factor > best
}

/// A list whose far entries are out of the race; the first never is.
pub open spec fn is_pruned_list(l: StateList, r: StateList, factor: int, best: int) -> bool {
    &&& r.count == l.count
    &&& forall|i: int|
        0 <= i < 4 ==> #[trigger] r.entries[i] == if 1 <= i < l.count && is_far(
            l.entries[i],
            factor,
            best,
        ) {
            SingleState { valid: false, ..l.entries[i] }
        } else {
            l.entries[i]
        }
}

fn prune_list(l: &StateList, factor: i64, best: i64) -> (r: StateList)
    requires
        l.valid(),
        factor == 5 || factor == 6,
    ensures
        is_pruned_list(*l, r, factor as int, best as int),
{
    let mut r: StateList = *l;
    let mut i: usize = 1;
    while i < l.count
        invariant
            1 <= i,
            i <= l.count || i == 1,
            l.valid(),
            factor == 5 || factor == 6,
            r.count == l.count,
            forall|k: int|
                0 <= k < 4 ==> #[trigger] r.entries[k] == if 1 <= k < i && is_far(
                    l.entries[k],
                    factor as int,
                    best as int,
                ) {
                    SingleState { valid: false, ..l.entries[k] }
                } else {
                    l.entries[k]
                },
        decreases l.count - i,
    {
        proof {
            crate::arith::lemma_pow2i_values();
        }
        let rd: i64 = l.entries[i].rd;
        let eighth: i64 = shr_i64(rd, 3);
        if rd != i64::MAX && eighth * factor > best {
            let mut e: SingleState = l.entries[i];
            e.valid = false;
            r.entries[i] = e;
        }
        i = i + 1;
    }
    r
}

/// The references of valid entries, up to the first that was not measured,
/// behind `acc`.
pub open spec fn simple_order(s: Seq<SingleState>, i: int, acc: Seq<Option<i32>>) -> Seq<Option<i32>>
    decreases s.len() - i,
{
    if i >= s.len() || s[i].rd == i64::MAX {
        acc
    } else if s[i].valid {
        simple_order(s, i + 1, acc.push(s[i].ref_frame))
    } else {
        simple_order(s, i + 1, acc)
    }
}

/// The first entry of a reference from `i` on is valid, or there is none.
pub open spec fn admits(s: Seq<SingleState>, i: int, r: Option<i32>) -> bool
    decreases s.len() - i,
{
    if i >= s.len() {
        true
    } else if s[i].ref_frame == r {
        s[i].valid
    } else {
        admits(s, i + 1, r)
    }
}

/// The references of the modelled list that the measured one admits, behind
/// `acc`, until there are `most`.
pub open spec fn modelled_order(
    s: Seq<SingleState>,
    m: Seq<SingleState>,
    i: int,
    acc: Seq<Option<i32>>,
    most: int,
) -> Seq<Option<i32>>
    decreases m.len() - i,
{
    if i >= m.len() || acc.len() >= most || m[i].rd == i64::MAX {
        acc
    } else if m[i].valid && !acc.contains(m[i].ref_frame) && admits(s, 0, m[i].ref_frame) {
        modelled_order(s, m, i + 1, acc.push(m[i].ref_frame), most)
    } else {
        modelled_order(s, m, i + 1, acc, most)
    }
}

/// The references of a direction and mode in order: those of the measured
/// ranking, then what the modelled one adds.
pub open spec fn merged_order(s: Seq<SingleState>, m: Seq<SingleState>) -> Seq<Option<i32>> {
    modelled_order(
        s,
        m,
        0,
        simple_order(s, 0, Seq::empty()),
        max_int(s.len() as int, m.len() as int),
    )
}

/// `r` starts with `head` and goes on as `old` does.
pub open spec fn starts_with_order(
    r: Seq<Option<i32>>,
    head: Seq<Option<i32>>,
    old: Seq<Option<i32>>,
) -> bool {
    &&& r.len() == 4
    &&& head.len() <= 4
    &&& forall|k: int|
        0 <= k < 4 ==> #[trigger] r[k] == if k < head.len() {
            head[k]
        } else {
            old[k]
        }
}

proof fn lemma_simple_order_len(s: Seq<SingleState>, i: int, acc: Seq<Option<i32>>)
    requires
        0 <= i <= s.len(),
    ensures
        acc.len() <= simple_order(s, i, acc).len() <= acc.len() + s.len() - i,
    decreases s.len() - i,
{
    if i < s.len() && s[i].rd != i64::MAX {
        if s[i].valid {
            lemma_simple_order_len(s, i + 1, acc.push(s[i].ref_frame));
        } else {
            lemma_simple_order_len(s, i + 1, acc);
        }
    }
}

fn is_admitted(s: &StateList, r: Option<i32>) -> (b: bool)
    requires
        s.valid(),
    ensures
        b == admits(s.list(), 0, r),
{
    let ghost l = s.list();
    for i in 0..s.count
        invariant
            s.valid(),
            l == s.list(),
            admits(l, 0, r) == admits(l, i as int, r),
    {
        assert(l[i as int] == s.entries[i as int]);
        if s.entries[i].ref_frame == r {
            return s.entries[i].valid;
        }
    }
    true
}

fn is_listed(order: &[Option<i32>; 4], n: usize, r: Option<i32>) -> (b: bool)
    requires
        n <= 4,
    ensures
        b == order@.take(n as int).contains(r),
{
    for i in 0..n
        invariant
            n <= 4,
            forall|k: int| 0 <= k < i ==> #[trigger] order@[k] != r,
    {
        if order[i] == r {
            assert(order@.take(n as int)[i as int] == r);
            return true;
        }
    }
    false
}

fn merge_order(simple: &StateList, modelled: &StateList, old_order: &[Option<i32>; 4]) -> (r: [Option<
    i32,
>; 4])
    requires
        simple.valid(),
        modelled.valid(),
    ensures
        starts_with_order(r@, merged_order(simple.list(), modelled.list()), old_order@),
{
    let ghost (s, m, o) = (simple.list(), modelled.list(), old_order@);
    let most: usize = if simple.count < modelled.count {
        modelled.count
    } else {
        simple.count
    };
    let mut order: [Option<i32>; 4] = *old_order;
    let mut count: usize = 0;
    let mut i: usize = 0;
    let ghost first = simple_order(s, 0, Seq::empty());
    proof {
        assert(order@.take(0) =~= Seq::<Option<i32>>::empty());
        lemma_simple_order_len(s, 0, Seq::empty());
    }
    while i < simple.count && simple.entries[i].rd != i64::MAX
        invariant
            simple.valid(),
            s == simple.list(),
            o.len() == 4,
            first == simple_order(s, 0, Seq::empty()),
            count <= i <= simple.count,
            first == simple_order(s, i as int, order@.take(count as int)),
            forall|k: int| count <= k < 4 ==> #[trigger] order@[k] == o[k],
        decreases simple.count - i,
    {
        assert(s[i as int] == simple.entries[i as int]);
        if simple.entries[i].valid {
            let ghost before = order@;
            order[count] = simple.entries[i].ref_frame;
            assert(order@.take(count + 1) =~= before.take(count as int).push(
                simple.entries[i as int].ref_frame,
            ));
            count = count + 1;
        }
        i = i + 1;
    }
    assert(i < simple.count ==> s[i as int] == simple.entries[i as int]);
    assert(order@.take(count as int) == first);
    let ghost all = merged_order(s, m);
    let mut i: usize = 0;
    while i < modelled.count && count < most && modelled.entries[i].rd != i64::MAX
        invariant
            simple.valid(),
            modelled.valid(),
            s == simple.list(),
            m == modelled.list(),
            o.len() == 4,
            most == max_int(s.len() as int, m.len() as int),
            most <= 4,
            i <= modelled.count,
            count <= most,
            all == modelled_order(s, m, i as int, order@.take(count as int), most as int),
            forall|k: int| count <= k < 4 ==> #[trigger] order@[k] == o[k],
        decreases modelled.count - i,
    {
        let e: SingleState = modelled.entries[i];
        assert(m[i as int] == e);
        if e.valid && !is_listed(&order, count, e.ref_frame) && is_admitted(simple, e.ref_frame) {
            let ghost before = order@;
            order[count] = e.ref_frame;
            assert(order@.take(count + 1) =~= before.take(count as int).push(e.ref_frame));
            count = count + 1;
        }
        i = i + 1;
    }
    assert(i < modelled.count ==> m[i as int] == modelled.entries[i as int]);
    assert(order@.take(count as int) == all);
    assert forall|k: int| 0 <= k < 4 implies #[trigger] order@[k] == if k < all.len() {
        all[k]
    } else {
        o[k]
    } by {
        if k < count {
            assert(order@.take(count as int)[k] == order@[k]);
        }
    }
    order
}

/// The yardstick of a direction: the best of the new and the global mode.
pub open spec fn yardstick(lists: [StateList; 4]) -> int {
    min_int(lists[3].entries[0].rd as int, lists[2].entries[0].rd as int)
}

/// The share of a cost that is held against the yardstick, in eighths.
pub open spec fn prune_factor(prune_level: int) -> int {
    if prune_level >= 2 {
        6
    } else {
        5
    }
}

fn prune_direction(lists: &[StateList; 4], factor: i64) -> (r: [StateList; 4])
    requires
        factor == 5 || factor == 6,
        forall|m: int| 0 <= m < 4 ==> (#[trigger] lists[m]).valid(),
    ensures
        forall|m: int|
            0 <= m < 4 ==> is_pruned_list(
                lists[m],
                #[trigger] r[m],
                factor as int,
                yardstick(*lists),
            ),
{
    let a: i64 = lists[3].entries[0].rd;
    let b: i64 = lists[2].entries[0].rd;
    let best: i64 = if a < b {
        a
    } else {
        b
    };
    [
        prune_list(&lists[0], factor, best),
        prune_list(&lists[1], factor, best),
        prune_list(&lists[2], factor, best),
        prune_list(&lists[3], factor, best),
    ]
}

impl SingleStates {
    /// Take the entries that are far from the best out of the race, and put
    /// the references of each direction and mode in order.
    pub fn analyze(&mut self, prune_level: i32)
        requires
            old(self).valid(),
            prune_level >= 1,
        ensures
            final(self).valid(),
            forall|d: int, m: int|
                0 <= d < 2 && 0 <= m < 4 ==> is_pruned_list(
                    old(self).simple[d][m],
                    #[trigger] final(self).simple[d][m],
                    prune_factor(prune_level as int),
                    yardstick(old(self).simple[d]),
                ),
            forall|d: int, m: int|
                0 <= d < 2 && 0 <= m < 4 ==> is_pruned_list(
                    old(self).modelled[d][m],
                    #[trigger] final(self).modelled[d][m],
                    prune_factor(prune_level as int),
                    yardstick(old(self).modelled[d]),
                ),
            forall|d: int, m: int|
                0 <= d < 2 && 0 <= m < 4 ==> starts_with_order(
                    (#[trigger] final(self).order[d][m])@,
                    merged_order(
                        final(self).simple[d][m].list(),
                        final(self).modelled[d][m].list(),
                    ),
                    old(self).order[d][m]@,
                ),
    {
        let ghost s0 = *self;
        let factor: i64 = if prune_level >= 2 {
            6
        } else {
            5
        };
        for d in 0usize..2
            invariant
                factor == prune_factor(prune_level as int),
                factor == 5 || factor == 6,
                forall|c: int, m: int|
                    0 <= c < 2 && 0 <= m < 4 ==> (#[trigger] s0.simple[c][m]).valid(),
                forall|c: int, m: int|
                    0 <= c < 2 && 0 <= m < 4 ==> (#[trigger] s0.modelled[c][m]).valid(),
                self.order == s0.order,
                forall|c: int| d <= c < 2 ==> #[trigger] self.simple[c] == s0.simple[c],
                forall|c: int| d <= c < 2 ==> #[trigger] self.modelled[c] == s0.modelled[c],
                forall|c: int, m: int|
                    0 <= c < d && 0 <= m < 4 ==> is_pruned_list(
                        s0.simple[c][m],
                        #[trigger] self.simple[c][m],
                        factor as int,
                        yardstick(s0.simple[c]),
                    ),
                forall|c: int, m: int|
                    0 <= c < d && 0 <= m < 4 ==> is_pruned_list(
                        s0.modelled[c][m],
                        #[trigger] self.modelled[c][m],
                        factor as int,
                        yardstick(s0.modelled[c]),
                    ),
        {
            assert(self.simple[d as int] == s0.simple[d as int]);
            assert(self.modelled[d as int] == s0.modelled[d as int]);
            let a = prune_direction(&self.simple[d], factor);
            self.simple[d] = a;
            let b = prune_direction(&self.modelled[d], factor);
            self.modelled[d] = b;
        }
        let ghost s1 = *self;
        assert forall|d: int, m: int| 0 <= d < 2 && 0 <= m < 4 implies (
        #[trigger] s1.simple[d][m]).valid() by {
            assert(s0.simple[d][m].valid());
        }
        assert forall|d: int, m: int| 0 <= d < 2 && 0 <= m < 4 implies (
        #[trigger] s1.modelled[d][m]).valid() by {
            assert(s0.modelled[d][m].valid());
        }
        for d in 0usize..2
            invariant
                s1.valid(),
                s1.order == s0.order,
                self.simple == s1.simple,
                self.modelled == s1.modelled,
                forall|c: int, m: int|
                    d <= c < 2 && 0 <= m < 4 ==> #[trigger] self.order[c][m] == s0.order[c][m],
                forall|c: int, m: int|
                    0 <= c < d && 0 <= m < 4 ==> starts_with_order(
                        (#[trigger] self.order[c][m])@,
                        merged_order(s1.simple[c][m].list(), s1.modelled[c][m].list()),
                        s0.order[c][m]@,
                    ),
        {
            for k in 0usize..4
                invariant
                    d < 2,
                    s1.valid(),
                    self.simple == s1.simple,
                    self.modelled == s1.modelled,
                    forall|c: int, m: int|
                        0 <= m < 4 && ((d < c < 2) || (c == d && m >= k)) ==> #[trigger] self.order[c][m]
                            == s0.order[c][m],
                    forall|c: int, m: int|
                        0 <= m < 4 && ((0 <= c < d) || (c == d && m < k)) ==> starts_with_order(
                            (#[trigger] self.order[c][m])@,
                            merged_order(s1.simple[c][m].list(), s1.modelled[c][m].list()),
                            s0.order[c][m]@,
                        ),
            {
                assert(s1.simple[d as int][k as int].valid() && s1.modelled[d as int][k as int].valid());
                let order = merge_order(
                    &self.simple[d][k],
                    &self.modelled[d][k],
                    &self.order[d][k],
                );
                self.order[d][k] = order;
            }
        }
    }
}

/// Number of references in an order, up to the first gap.
pub open spec fn order_len(order: Seq<Option<i32>>, i: int) -> int
    decreases 4 - i,
{
    if i >= 4 || order[i] is None {
        i
    } else {
        order_len(order, i + 1)
    }
}

impl SingleStates {
    /// How many references of an order compound modes may use.
    pub open spec fn candidate_count(self, prune_level: int, dir: int, mode: PredMode) -> int {
        let k = mode.index() - 13;
        let all = order_len(self.order[dir][k]@, 0);
        let (s, m) = (self.simple[dir][k].entries[0], self.modelled[dir][k].entries[0]);
        let agreed = s.rd != i64::MAX && m.rd != i64::MAX && s.ref_frame == m.ref_frame;
        if prune_level < 2 {
            all
        } else if prune_level == 2 {
            min_int(all, 2)
        } else if agreed || mode is NearMv || mode is GlobalMv {
            1
        } else if prune_level == 3 {
            min_int(all, 2)
        } else {
            min_int(all, 1)
        }
    }

    /// See [`SingleStates::candidate_count`].
    pub fn candidates(&self, prune_level: i32, dir: usize, mode: PredMode) -> (r: usize)
        requires
            dir < 2,
            mode.is_single(),
        ensures
            r == self.candidate_count(prune_level as int, dir as int, mode),
            r <= 4,
    {
        let k: usize = inter_offset(mode);
        let ghost order = self.order[dir as int][k as int]@;
        let mut candidates: usize = 0;
        while candidates < 4 && self.order[dir][k][candidates].is_some()
            invariant
                dir < 2,
                k < 4,
                candidates <= 4,
                order == self.order[dir as int][k as int]@,
                order_len(order, 0) == order_len(order, candidates as int),
            decreases 4 - candidates,
        {
            candidates = candidates + 1;
        }
        if prune_level >= 2 && candidates > 2 {
            candidates = 2;
        }
        if prune_level >= 3 {
            let s: SingleState = self.simple[dir][k].entries[0];
            let m: SingleState = self.modelled[dir][k].entries[0];
            if s.rd != i64::MAX && m.rd != i64::MAX && s.ref_frame == m.ref_frame {
                candidates = 1;
            }
            if matches!(mode, PredMode::NearMv | PredMode::GlobalMv) {
                candidates = 1;
            }
        }
        if prune_level >= 4 && candidates > 1 {
            candidates = 1;
        }
        candidates
    }
}

/// The candidate vectors of a pair of references, and of each on its own.
pub struct CompoundRows<'a> {
    pub compound: &'a RefMvRow,
    pub single: [&'a RefMvRow; 2],
}

/// A reference is in a list.
pub open spec fn is_searched(l: Seq<SingleState>, r: int) -> bool {
    exists|i: int| 0 <= i < l.len() && (#[trigger] l[i]).ref_frame == Some(r as i32)
}

/// A half of a compound mode uses the vectors that its single mode used, at
/// each of the first `n` candidates. A new or global half is not compared.
pub open spec fn same_vectors(
    rows: CompoundRows,
    half: PredMode,
    i: int,
    n: int,
    global: Mv,
) -> bool {
    (half is NearestMv || half is NearMv) ==> forall|k: int|
        0 <= k < n ==> #[trigger] candidate_mv(*rows.single[i], half is NearMv, false, k, global)
            == candidate_mv(*rows.compound, half is NearMv, i == 1, k, global)
}

/// Half `i` of a compound mode rules it out: its reference was searched with
/// the same vectors, and did not come out among the first.
pub open spec fn half_rules_out(
    states: SingleStates,
    prune_level: int,
    this_mode: PredMode,
    refs: [i32; 2],
    rows: CompoundRows,
    global_mvs: [Mv; 8],
    i: int,
) -> bool {
    let half = this_mode.half(i == 1).unwrap();
    let (d, k) = (dir_of(refs[i] as int), half.index() - 13);
    &&& is_searched(states.simple[d][k].list(), refs[i] as int)
    &&& same_vectors(
        rows,
        half,
        i,
        drl_count(this_mode, rows.compound.count as int),
        global_mvs[refs[i] as int],
    )
    &&& !states.order[d][k]@.take(states.candidate_count(prune_level, d, half)).contains(
        Some(refs[i]),
    )
}

fn was_searched(list: &StateList, r: i32) -> (b: bool)
    requires
        list.valid(),
    ensures
        b == is_searched(list.list(), r as int),
{
    let ghost l = list.list();
    for i in 0..list.count
        invariant
            list.valid(),
            l == list.list(),
            forall|k: int| 0 <= k < i ==> (#[trigger] l[k]).ref_frame != Some(r),
    {
        assert(l[i as int] == list.entries[i as int]);
        if list.entries[i].ref_frame == Some(r) {
            return true;
        }
    }
    false
}

fn uses_same_vectors(rows: &CompoundRows<'_>, half: PredMode, i: usize, n: usize, global: Mv) -> (b:
    bool)
    requires
        i < 2,
        n <= 3,
    ensures
        b == same_vectors(*rows, half, i as int, n as int, global),
{
    let near: bool = matches!(half, PredMode::NearMv);
    if !near && !matches!(half, PredMode::NearestMv) {
        return true;
    }
    for k in 0..n
        invariant
            i < 2,
            n <= 3,
            near == half is NearMv,
            half is NearestMv || half is NearMv,
            forall|j: int|
                0 <= j < k ==> #[trigger] candidate_mv(
                    *rows.single[i as int],
                    near,
                    false,
                    j,
                    global,
                ) == candidate_mv(*rows.compound, near, i == 1, j, global),
    {
        let a: Mv = get_candidate_mv(rows.single[i], near, false, k, global);
        let b: Mv = get_candidate_mv(rows.compound, near, i == 1, k, global);
        if a != b {
            return false;
        }
    }
    true
}

fn rules_out(
    states: &SingleStates,
    prune_level: i32,
    this_mode: PredMode,
    half: PredMode,
    refs: [i32; 2],
    rows: &CompoundRows<'_>,
    global_mvs: &[Mv; 8],
    i: usize,
) -> (b: bool)
    requires
        i < 2,
        states.valid(),
        0 <= refs[i as int] < 8,
        this_mode.half(i == 1) == Some(half),
        half.is_single(),
    ensures
        b == half_rules_out(
            *states,
            prune_level as int,
            this_mode,
            refs,
            *rows,
            *global_mvs,
            i as int,
        ),
{
    let r: i32 = refs[i];
    let dir: usize = dir_index(r);
    let k: usize = inter_offset(half);
    assert(states.simple[dir as int][k as int].valid());
    if !was_searched(&states.simple[dir][k], r) {
        return false;
    }
    let n: usize = get_drl_refmv_count(this_mode, rows.compound.count);
    if !uses_same_vectors(rows, half, i, n, global_mvs[r as usize]) {
        return false;
    }
    let candidates: usize = states.candidates(prune_level, dir, half);
    !is_listed(&states.order[dir][k], candidates, Some(r))
}

/// A compound mode need not be tried: one of its halves rules it out.
pub fn compound_skip_by_single_states(
    states: &SingleStates,
    prune_level: i32,
    this_mode: PredMode,
    refs: [i32; 2],
    rows: &CompoundRows<'_>,
    global_mvs: &[Mv; 8],
) -> (r: bool)
    requires
        states.valid(),
        this_mode.index() >= 17 ==> 0 <= refs[0] < 8 && 0 <= refs[1] < 8,
    ensures
        r == (this_mode.index() >= 17 && (half_rules_out(
            *states,
            prune_level as int,
            this_mode,
            refs,
            *rows,
            *global_mvs,
            0,
        ) || half_rules_out(
            *states,
            prune_level as int,
            this_mode,
            refs,
            *rows,
            *global_mvs,
            1,
        ))),
{
    proof {
        crate::pred_mode::law_halves_are_single(this_mode, false);
        crate::pred_mode::law_halves_are_single(this_mode, true);
    }
    let mode0 = match compound_ref0_mode(this_mode) {
        Some(m) => m,
        None => {
            return false;
        },
    };
    let mode1 = match compound_ref1_mode(this_mode) {
        Some(m) => m,
        None => {
            return false;
        },
    };
    rules_out(states, prune_level, this_mode, mode0, refs, rows, global_mvs, 0) || rules_out(
        states,
        prune_level,
        this_mode,
        mode1,
        refs,
        rows,
        global_mvs,
        1,
    )
}

/// The cheaper mode that has the vector of `this_mode` for sure, by the number
/// of candidates and by whether the global motion is a translation.
pub open spec fn same_vector_mode(
    this_mode: PredMode,
    ref_mv_count: int,
    translational: bool,
) -> Option<PredMode> {
    if this_mode is NearMv && ref_mv_count == 0 {
        Some(PredMode::NearestMv)
    } else if this_mode is NearMv && ref_mv_count == 1 && translational {
        Some(PredMode::GlobalMv)
    } else if this_mode is GlobalMv && ref_mv_count == 0 && translational {
        Some(PredMode::NearestMv)
    } else if this_mode is GlobalMv && ref_mv_count == 1 {
        Some(PredMode::NearMv)
    } else {
        None
    }
}

/// A single-reference mode need not be tried: a searched mode has the same
/// vector and costs less to signal. Its modelled cost is then taken over.
/// `mode_costs` are the signalling costs of the four single modes.
pub fn skip_repeated_mv(
    this_mode: PredMode,
    is_comp_pred: bool,
    ref_mv_count: usize,
    gm_wmtype_is_translational: bool,
    mode_costs: &[i32; 4],
    modelled_rd: &mut [i64; 25],
) -> (r: bool)
    ensures
        ({
            let other = same_vector_mode(
                this_mode,
                ref_mv_count as int,
                gm_wmtype_is_translational,
            );
            &&& r == (!is_comp_pred && other is Some && old(modelled_rd)[other.unwrap().index()]
                != i64::MAX && mode_costs[this_mode.index() - 13] > mode_costs[other.unwrap().index()
                - 13])
            &&& final(modelled_rd)@ == if r {
                old(modelled_rd)@.update(
                    this_mode.index(),
                    old(modelled_rd)[other.unwrap().index()],
                )
            } else {
                old(modelled_rd)@
            }
        }),
{
    if is_comp_pred {
        return false;
    }
    let compare_mode: Option<PredMode> = match this_mode {
        PredMode::NearMv => if ref_mv_count == 0 {
            Some(PredMode::NearestMv)
        } else if ref_mv_count == 1 && gm_wmtype_is_translational {
            Some(PredMode::GlobalMv)
        } else {
            None
        },
        PredMode::GlobalMv => if ref_mv_count == 0 && gm_wmtype_is_translational {
            Some(PredMode::NearestMv)
        } else if ref_mv_count == 1 {
            Some(PredMode::NearMv)
        } else {
            None
        },
        _ => None,
    };
    let other: PredMode = match compare_mode {
        Some(m) => m,
        None => {
            return false;
        },
    };
    let i: usize = other.to_i32() as usize;
    let k: usize = this_mode.to_i32() as usize;
    if modelled_rd[i] == i64::MAX {
        return false;
    }
    if mode_costs[k - 13] <= mode_costs[i - 13] {
        return false;
    }
    modelled_rd[k] = modelled_rd[i];
    true
}

/// All costs of a buffer become unknown where the level that reads them is on.
pub open spec fn is_reset(before: Seq<i64>, after: Seq<i64>, on: bool) -> bool {
    &&& after.len() == before.len()
    &&& forall|i: int|
        0 <= i < after.len() ==> #[trigger] after[i] == if on {
            i64::MAX
        } else {
            before[i]
        }
}

fn reset(buf: &mut [i64])
    ensures
        is_reset(old(buf)@, final(buf)@, true),
{
    let n: usize = buf.len();
    for i in 0..n
        invariant
            buf.len() == n,
            n == old(buf).len(),
            forall|k: int| 0 <= k < i ==> #[trigger] buf[k] == i64::MAX,
    {
        buf[i] = i64::MAX;
    }
}

/// Forget the estimated costs of compound averages, at any level but 0.
pub fn init_comp_avg_est_rd(buf: &mut [i64], skip_cmp_using_top_cmp_avg_est_rd_lvl: i32)
    ensures
        is_reset(old(buf)@, final(buf)@, skip_cmp_using_top_cmp_avg_est_rd_lvl != 0),
{
    if skip_cmp_using_top_cmp_avg_est_rd_lvl == 0 {
        return;
    }
    reset(buf)
}

/// Forget the best costs of unsplit transforms, at any level but 0.
pub fn init_top_tx_no_split_rd_for_inter_modes(
    buf: &mut [i64],
    prune_inter_tx_split_rd_eval_lvl: i32,
)
    ensures
        is_reset(old(buf)@, final(buf)@, prune_inter_tx_split_rd_eval_lvl != 0),
{
    if prune_inter_tx_split_rd_eval_lvl == 0 {
        return;
    }
    reset(buf)
}

/// A candidate for the full transform search.
#[derive(Clone, Copy, Debug, PartialEq, Eq, Structural)]
pub struct InterModeInfoEntry {
    pub mode_rate: i32,
    pub sse: i64,
    /// Estimated cost, by which candidates are ranked.
    pub est_rd: i64,
}

impl Default for InterModeInfoEntry {
    fn default() -> (r: Self)
        ensures
            r == (InterModeInfoEntry { mode_rate: 0, sse: 0, est_rd: 0 }),
    {
        InterModeInfoEntry { mode_rate: 0, sse: 0, est_rd: 0 }
    }
}

/// Most candidates of a block.
pub const MAX_INTER_MODES: usize = 1024;

/// Add a candidate, unless there are as many as there may be.
pub fn inter_modes_info_push(list: &mut Vec<InterModeInfoEntry>, entry: InterModeInfoEntry) -> (r:
    bool)
    ensures
        r == (old(list).len() < MAX_INTER_MODES),
        final(list)@ == if r {
            old(list)@.push(entry)
        } else {
            old(list)@
        },
{
    if list.len() >= MAX_INTER_MODES {
        return false;
    }
    list.push(entry);
    true
}

pub const SIMPLE_TRANSLATION: i32 = 0;

pub const OBMC_CAUSAL: i32 = 1;

pub const WARPED_CAUSAL: i32 = 2;

pub const MODE_GOOD: i32 = 0;

pub const MODE_REALTIME: i32 = 1;

pub const SINGLE_REFERENCE: i32 = 0;

/// The interpolation filters are not searched: in real-time coding on frames
/// with single references where either feature is on, in good quality for
/// single predictions where the first is.
pub fn skip_interp_filter_search(
    encoding_mode: i32,
    reference_mode: i32,
    sf_skip_interp_filter_search: bool,
    winner_mode_ifs: bool,
    is_single_pred: bool,
) -> (r: bool)
    ensures
        r == if encoding_mode == MODE_REALTIME {
            reference_mode == SINGLE_REFERENCE && (sf_skip_interp_filter_search || winner_mode_ifs)
        } else if encoding_mode == MODE_GOOD {
            sf_skip_interp_filter_search && is_single_pred
        } else {
            false
        },
{
    if encoding_mode == MODE_REALTIME {
        return reference_mode == SINGLE_REFERENCE && (sf_skip_interp_filter_search
            || winner_mode_ifs);
    }
    if encoding_mode == MODE_GOOD {
        return sf_skip_interp_filter_search && is_single_pred;
    }
    false
}

/// A cost with what the decoding effort of its motion mode weighs.
pub open spec fn biased(rd: i64, mode: int, warp_bias: i64, obmc_bias: i64) -> int {
    rd + (if mode == WARPED_CAUSAL {
        warp_bias as int
    } else if mode == OBMC_CAUSAL {
        obmc_bias as int
    } else {
        0
    })
}

/// Add to the costs of two motion modes what their decoding effort weighs,
/// unless one of the costs is unknown. Each cost comes with its weights for
/// warped and for overlapped motion.
pub fn increase_motion_mode_rd(
    best_motion_mode: i32,
    this_motion_mode: i32,
    best_scaled_rd: &mut i64,
    this_scaled_rd: &mut i64,
    best_bias: (i64, i64),
    this_bias: (i64, i64),
)
    requires
        *old(best_scaled_rd) != i64::MAX && *old(this_scaled_rd) != i64::MAX ==> i64::MIN <= biased(
            *old(best_scaled_rd),
            best_motion_mode as int,
            best_bias.0,
            best_bias.1,
        ) <= i64::MAX && i64::MIN <= biased(
            *old(this_scaled_rd),
            this_motion_mode as int,
            this_bias.0,
            this_bias.1,
        ) <= i64::MAX,
    ensures
        ({
            let known = *old(best_scaled_rd) != i64::MAX && *old(this_scaled_rd) != i64::MAX;
            &&& *final(best_scaled_rd) == if known {
                biased(*old(best_scaled_rd), best_motion_mode as int, best_bias.0, best_bias.1)
            } else {
                *old(best_scaled_rd) as int
            }
            &&& *final(this_scaled_rd) == if known {
                biased(*old(this_scaled_rd), this_motion_mode as int, this_bias.0, this_bias.1)
            } else {
                *old(this_scaled_rd) as int
            }
        }),
{
    if *best_scaled_rd == i64::MAX || *this_scaled_rd == i64::MAX {
        return;
    }
    if best_motion_mode == WARPED_CAUSAL {
        *best_scaled_rd = *best_scaled_rd + best_bias.0;
    } else if best_motion_mode == OBMC_CAUSAL {
        *best_scaled_rd = *best_scaled_rd + best_bias.1;
    }
    if this_motion_mode == WARPED_CAUSAL {
        *this_scaled_rd = *this_scaled_rd + this_bias.0;
    } else if this_motion_mode == OBMC_CAUSAL {
        *this_scaled_rd = *this_scaled_rd + this_bias.1;
    }
}

/// No reference stands in a list twice.
pub open spec fn refs_apart(s: Seq<SingleState>) -> bool {
    forall|i: int, j: int|
        0 <= i < j < s.len() ==> (#[trigger] s[i]).ref_frame != (#[trigger] s[j]).ref_frame
}

/// A reference stands in a list as valid.
pub open spec fn holds_valid(s: Seq<SingleState>, r: Option<i32>) -> bool {
    exists|k: int| 0 <= k < s.len() && (#[trigger] s[k]).valid && s[k].ref_frame == r
}

proof fn lemma_simple_order_apart(s: Seq<SingleState>, i: int, acc: Seq<Option<i32>>)
    requires
        0 <= i <= s.len(),
        refs_apart(s),
        acc.no_duplicates(),
        forall|k: int| i <= k < s.len() ==> !acc.contains((#[trigger] s[k]).ref_frame),
        forall|r: Option<i32>| #[trigger] acc.contains(r) ==> holds_valid(s, r),
    ensures
        simple_order(s, i, acc).no_duplicates(),
        forall|r: Option<i32>| #[trigger]
            simple_order(s, i, acc).contains(r) ==> holds_valid(s, r),
    decreases s.len() - i,
{
    if i < s.len() && s[i].rd != i64::MAX {
        if s[i].valid {
            let more = acc.push(s[i].ref_frame);
            assert forall|r: Option<i32>| #[trigger] more.contains(r) implies holds_valid(s, r) by {
                let k = choose|k: int| 0 <= k < more.len() && more[k] == r;
                if k < acc.len() {
                    assert(acc[k] == r);
                    assert(acc.contains(r));
                } else {
                    assert(s[i].valid && s[i].ref_frame == r);
                }
            }
            assert forall|k: int| i + 1 <= k < s.len() implies !more.contains(
                (#[trigger] s[k]).ref_frame,
            ) by {
                let r = s[k].ref_frame;
                if more.contains(r) {
                    let j = choose|j: int| 0 <= j < more.len() && more[j] == r;
                    if j < acc.len() {
                        assert(acc[j] == r);
                        assert(acc.contains(r));
                    }
                }
            }
            assert(more.no_duplicates()) by {
                assert forall|a: int, b: int| 0 <= a < more.len() && 0 <= b < more.len() && a
                    != b implies more[a] != more[b] by {
                    if a < acc.len() {
                        assert(acc.contains(acc[a]));
                    }
                    if b < acc.len() {
                        assert(acc.contains(acc[b]));
                    }
                }
            }
            lemma_simple_order_apart(s, i + 1, more);
        } else {
            lemma_simple_order_apart(s, i + 1, acc);
        }
    }
}

proof fn lemma_modelled_order_apart(
    s: Seq<SingleState>,
    m: Seq<SingleState>,
    i: int,
    acc: Seq<Option<i32>>,
    most: int,
)
    requires
        0 <= i <= m.len(),
        acc.no_duplicates(),
        forall|r: Option<i32>| #[trigger]
            acc.contains(r) ==> holds_valid(s, r) || admits(s, 0, r),
    ensures
        modelled_order(s, m, i, acc, most).no_duplicates(),
        forall|r: Option<i32>| #[trigger]
            modelled_order(s, m, i, acc, most).contains(r) ==> holds_valid(s, r) || admits(s, 0, r),
    decreases m.len() - i,
{
    if i < m.len() && acc.len() < most && m[i].rd != i64::MAX {
        let e = m[i].ref_frame;
        if m[i].valid && !acc.contains(e) && admits(s, 0, e) {
            let more = acc.push(e);
            assert forall|r: Option<i32>| #[trigger] more.contains(r) implies holds_valid(s, r)
                || admits(s, 0, r) by {
                let k = choose|k: int| 0 <= k < more.len() && more[k] == r;
                if k < acc.len() {
                    assert(acc[k] == r);
                    assert(acc.contains(r));
                }
            }
            assert(more.no_duplicates()) by {
                assert forall|a: int, b: int| 0 <= a < more.len() && 0 <= b < more.len() && a
                    != b implies more[a] != more[b] by {
                    if a < acc.len() {
                        assert(acc.contains(acc[a]));
                    }
                    if b < acc.len() {
                        assert(acc.contains(acc[b]));
                    }
                }
            }
            lemma_modelled_order_apart(s, m, i + 1, more, most);
        } else {
            lemma_modelled_order_apart(s, m, i + 1, acc, most);
        }
    }
}

proof fn lemma_not_admitted(s: Seq<SingleState>, i: int, k: int)
    requires
        refs_apart(s),
        0 <= i <= k < s.len(),
        !s[k].valid,
    ensures
        !admits(s, i, s[k].ref_frame),
    decreases k - i,
{
    if i < k {
        lemma_not_admitted(s, i + 1, k);
    }
}

/// The merged order of two rankings holds no reference twice, and none that
/// the measured ranking has pruned, where that ranking holds each reference
/// once.
pub proof fn law_merged_order(s: Seq<SingleState>, m: Seq<SingleState>)
    requires
        refs_apart(s),
    ensures
        merged_order(s, m).no_duplicates(),
        forall|k: int|
            0 <= k < s.len() && !(#[trigger] s[k]).valid ==> !merged_order(s, m).contains(
                s[k].ref_frame,
            ),
{
    let first = simple_order(s, 0, Seq::empty());
    lemma_simple_order_apart(s, 0, Seq::empty());
    lemma_modelled_order_apart(s, m, 0, first, max_int(s.len() as int, m.len() as int));
    assert forall|k: int| 0 <= k < s.len() && !(#[trigger] s[k]).valid implies !merged_order(
        s,
        m,
    ).contains(s[k].ref_frame) by {
        lemma_not_admitted(s, 0, k);
        if holds_valid(s, s[k].ref_frame) {
            let j = choose|j: int|
                0 <= j < s.len() && (#[trigger] s[j]).valid && s[j].ref_frame == s[k].ref_frame;
            assert(j != k);
            if j < k {
                assert(s[j].ref_frame != s[k].ref_frame);
            } else {
                assert(s[k].ref_frame != s[j].ref_frame);
            }
        }
    }
}

/// The best entry of a list is never pruned.
pub proof fn law_own_best_is_kept(l: StateList, r: StateList, factor: int, best: int)
    requires
        is_pruned_list(l, r, factor, best),
    ensures
        r.entries[0] == l.entries[0],
        r.count == l.count,
{
}

/// The smallest cost is one of the costs tried, and none of them is smaller;
/// with none tried it is unknown.
pub proof fn law_least_cost_is_one_tried(s: Seq<i64>, n: int, k: int)
    requires
        0 <= k < n <= s.len(),
    ensures
        least(s, n) <= s[k],
        exists|j: int| 0 <= j < n && least(s, n) == #[trigger] s[j],
        least(s, 0) == i64::MAX,
    decreases n,
{
    if n == 1 {
        assert(least(s, 0) == i64::MAX);
        assert(least(s, 1) == s[0]);
    } else {
        law_least_cost_is_one_tried(s, n - 1, if k < n - 1 { k } else { 0 });
        let j = choose|j: int| 0 <= j < n - 1 && least(s, n - 1) == #[trigger] s[j];
        if least(s, n) == least(s, n - 1) {
            assert(least(s, n) == s[j]);
        } else {
            assert(least(s, n) == s[n - 1]);
        }
    }
}

/// An entry is put before all that cost more and behind all that cost no more,
/// so of equal costs the one that came first stays first; the others keep
/// their order.
pub proof fn law_equal_costs_keep_their_order(s: Seq<SingleState>, e: SingleState) -> (p: int)
    requires
        is_ranked(s),
    ensures
        0 <= p <= s.len(),
        ranked_in(s, e) == s.take(p).push(e) + s.skip(p),
        forall|i: int| 0 <= i < p ==> (#[trigger] s[i]).rd <= e.rd,
        forall|i: int| p <= i < s.len() ==> (#[trigger] s[i]).rd > e.rd,
    decreases s.len(),
{
    if s.len() == 0 || s.last().rd <= e.rd {
        let p = s.len() as int;
        assert(s.take(p) =~= s);
        assert(s.take(p).push(e) + s.skip(p) =~= s.push(e));
        assert forall|i: int| 0 <= i < p implies (#[trigger] s[i]).rd <= e.rd by {
            assert(s[i].rd <= s[s.len() - 1].rd);
        }
        p
    } else {
        let t = s.drop_last();
        assert forall|i: int, j: int| 0 <= i <= j < t.len() implies (#[trigger] t[i]).rd <= (
        #[trigger] t[j]).rd by {
            assert(s[i].rd <= s[j].rd);
        }
        let p = law_equal_costs_keep_their_order(t, e);
        assert((t.take(p).push(e) + t.skip(p)).push(s.last()) =~= s.take(p).push(e) + s.skip(p));
        assert forall|i: int| 0 <= i < p implies (#[trigger] s[i]).rd <= e.rd by {
            assert(t[i] == s[i]);
        }
        assert forall|i: int| p <= i < s.len() implies (#[trigger] s[i]).rd > e.rd by {
            if i < t.len() {
                assert(t[i] == s[i]);
            }
        }
        p
    }
}

/// A reference leaves the race where its cost, less the share that is allowed
/// for, exceeds the best of its direction: five eighths of the cost are held
/// against the best at the first level and six at the higher ones, to within
/// the eighth that rounding may lose. A cost that is not known never leaves.
pub proof fn law_far_reference_leaves(e: SingleState, prune_level: int, best: int)
    ensures
        ({
            let f = if prune_level >= 2 { 6int } else { 5int };
            let far = is_far(e, prune_factor(prune_level), best);
            &&& (far ==> f * e.rd > 8 * best)
            &&& (e.rd != i64::MAX && f * (e.rd - 7) > 8 * best ==> far)
            &&& (e.rd == i64::MAX ==> !far)
        }),
        0 <= e.rd <= best ==> !is_far(e, prune_factor(prune_level), best),
{
}

/// A reference that leaves at one level leaves at every higher one.
pub proof fn law_higher_level_drops_more(e: SingleState, low: int, high: int, best: int)
    requires
        low <= high,
        0 <= e.rd,
        is_far(e, prune_factor(low), best),
    ensures
        is_far(e, prune_factor(high), best),
{
}

/// The references of a direction are held against the cheapest new or global
/// mode: against one of the two, and against none that is cheaper.
pub proof fn law_yardstick_is_cheapest_new_or_global(lists: [StateList; 4])
    ensures
        ({
            let (global, new) = (
                lists[PredMode::GlobalMv.index() - 13].entries[0].rd as int,
                lists[PredMode::NewMv.index() - 13].entries[0].rd as int,
            );
            &&& yardstick(lists) <= global
            &&& yardstick(lists) <= new
            &&& yardstick(lists) == global || yardstick(lists) == new
        }),
{
}

proof fn lemma_simple_order_keeps(s: Seq<SingleState>, i: int, acc: Seq<Option<i32>>)
    requires
        0 <= i <= s.len(),
    ensures
        acc.len() <= simple_order(s, i, acc).len(),
        forall|k: int| 0 <= k < acc.len() ==> simple_order(s, i, acc)[k] == #[trigger] acc[k],
    decreases s.len() - i,
{
    if i < s.len() && s[i].rd != i64::MAX {
        if s[i].valid {
            let more = acc.push(s[i].ref_frame);
            lemma_simple_order_keeps(s, i + 1, more);
            assert forall|k: int| 0 <= k < acc.len() implies simple_order(s, i, acc)[k]
                == #[trigger] acc[k] by {
                assert(more[k] == acc[k]);
            }
        } else {
            lemma_simple_order_keeps(s, i + 1, acc);
        }
    }
}

proof fn lemma_modelled_order_keeps(
    s: Seq<SingleState>,
    m: Seq<SingleState>,
    i: int,
    acc: Seq<Option<i32>>,
    most: int,
)
    requires
        0 <= i <= m.len(),
    ensures
        acc.len() <= modelled_order(s, m, i, acc, most).len(),
        forall|k: int|
            0 <= k < acc.len() ==> modelled_order(s, m, i, acc, most)[k] == #[trigger] acc[k],
    decreases m.len() - i,
{
    if !(i >= m.len() || acc.len() >= most || m[i].rd == i64::MAX) {
        if m[i].valid && !acc.contains(m[i].ref_frame) && admits(s, 0, m[i].ref_frame) {
            let more = acc.push(m[i].ref_frame);
            lemma_modelled_order_keeps(s, m, i + 1, more, most);
            assert forall|k: int| 0 <= k < acc.len() implies modelled_order(s, m, i, acc, most)[k]
                == #[trigger] acc[k] by {
                assert(more[k] == acc[k]);
            }
        } else {
            lemma_modelled_order_keeps(s, m, i + 1, acc, most);
        }
    }
}

/// Where two entries of a ranking come out in an order.
pub open spec fn comes_before(
    order: Seq<Option<i32>>,
    first: Option<i32>,
    second: Option<i32>,
) -> bool {
    exists|p: int, q: int|
        0 <= p < q < order.len() && #[trigger] order[p] == first && #[trigger] order[q] == second
}

proof fn lemma_simple_order_holds(
    s: Seq<SingleState>,
    i: int,
    acc: Seq<Option<i32>>,
    a: int,
) -> (p: int)
    requires
        0 <= i <= a < s.len(),
        s[a].valid,
        forall|k: int| i <= k <= a ==> (#[trigger] s[k]).rd != i64::MAX,
    ensures
        acc.len() <= p < simple_order(s, i, acc).len(),
        simple_order(s, i, acc)[p] == s[a].ref_frame,
    decreases a - i,
{
    assert(s[i].rd != i64::MAX);
    let next = if s[i].valid { acc.push(s[i].ref_frame) } else { acc };
    if i == a {
        lemma_simple_order_keeps(s, i + 1, next);
        assert(next[acc.len() as int] == s[a].ref_frame);
        acc.len() as int
    } else {
        lemma_simple_order_holds(s, i + 1, next, a)
    }
}

proof fn lemma_simple_order_in_turn(
    s: Seq<SingleState>,
    i: int,
    acc: Seq<Option<i32>>,
    a: int,
    b: int,
) -> (pq: (int, int))
    requires
        0 <= i <= a < b < s.len(),
        s[a].valid,
        s[b].valid,
        forall|k: int| i <= k <= b ==> (#[trigger] s[k]).rd != i64::MAX,
    ensures
        acc.len() <= pq.0 < pq.1 < simple_order(s, i, acc).len(),
        simple_order(s, i, acc)[pq.0] == s[a].ref_frame,
        simple_order(s, i, acc)[pq.1] == s[b].ref_frame,
    decreases a - i,
{
    assert(s[i].rd != i64::MAX);
    let next = if s[i].valid { acc.push(s[i].ref_frame) } else { acc };
    if i == a {
        lemma_simple_order_keeps(s, i + 1, next);
        assert(next[acc.len() as int] == s[a].ref_frame);
        let q = lemma_simple_order_holds(s, i + 1, next, b);
        (acc.len() as int, q)
    } else {
        lemma_simple_order_in_turn(s, i + 1, next, a, b)
    }
}

/// Every reference that is still in the race by its measured cost is tried,
/// and the cheaper of two is tried first.
pub proof fn law_cheaper_reference_is_tried_first(
    s: Seq<SingleState>,
    m: Seq<SingleState>,
    a: int,
    b: int,
)
    requires
        is_ranked(s),
        0 <= a < b < s.len(),
        s[a].valid,
        s[b].valid,
        s[b].rd != i64::MAX,
    ensures
        comes_before(merged_order(s, m), s[a].ref_frame, s[b].ref_frame),
{
    assert forall|k: int| 0 <= k <= b implies (#[trigger] s[k]).rd != i64::MAX by {
        assert(s[k].rd <= s[b].rd);
    }
    let first = simple_order(s, 0, Seq::empty());
    let (p, q) = lemma_simple_order_in_turn(s, 0, Seq::empty(), a, b);
    lemma_modelled_order_keeps(s, m, 0, first, max_int(s.len() as int, m.len() as int));
    let all = merged_order(s, m);
    assert(first[p] == all[p] && first[q] == all[q]);
    assert(all[p] == s[a].ref_frame && all[q] == s[b].ref_frame);
}

/// A reference that only the modelled ranking knows is tried as well, as long
/// as there is room behind those tried before it.
pub proof fn law_modelled_reference_is_tried(s: Seq<SingleState>, m: Seq<SingleState>, k: int)
    requires
        is_ranked(m),
        0 <= k < m.len(),
        m[k].valid,
        m[k].rd != i64::MAX,
        forall|i: int| 0 <= i < s.len() ==> (#[trigger] s[i]).ref_frame != m[k].ref_frame,
    ensures
        merged_order(s, m).contains(m[k].ref_frame) || merged_order(s, m).len() >= s.len(),
        merged_order(s, m).contains(m[k].ref_frame) || merged_order(s, m).len() >= m.len(),
{
    let most = max_int(s.len() as int, m.len() as int);
    let first = simple_order(s, 0, Seq::empty());
    assert forall|i: int| 0 <= i <= k implies (#[trigger] m[i]).rd != i64::MAX by {
        assert(m[i].rd <= m[k].rd);
    }
    lemma_unknown_is_admitted(s, 0, m[k].ref_frame);
    lemma_modelled_order_reaches(s, m, 0, first, most, k);
}

proof fn lemma_unknown_is_admitted(s: Seq<SingleState>, i: int, r: Option<i32>)
    requires
        0 <= i <= s.len(),
        forall|j: int| 0 <= j < s.len() ==> (#[trigger] s[j]).ref_frame != r,
    ensures
        admits(s, i, r),
    decreases s.len() - i,
{
    if i < s.len() {
        lemma_unknown_is_admitted(s, i + 1, r);
    }
}

proof fn lemma_modelled_order_reaches(
    s: Seq<SingleState>,
    m: Seq<SingleState>,
    i: int,
    acc: Seq<Option<i32>>,
    most: int,
    k: int,
)
    requires
        0 <= i <= k < m.len(),
        m[k].valid,
        admits(s, 0, m[k].ref_frame),
        forall|j: int| i <= j <= k ==> (#[trigger] m[j]).rd != i64::MAX,
    ensures
        modelled_order(s, m, i, acc, most).contains(m[k].ref_frame) || modelled_order(
            s,
            m,
            i,
            acc,
            most,
        ).len() >= most,
    decreases k - i,
{
    let all = modelled_order(s, m, i, acc, most);
    assert(m[i].rd != i64::MAX);
    lemma_modelled_order_keeps(s, m, i, acc, most);
    if acc.len() < most {
        let takes = m[i].valid && !acc.contains(m[i].ref_frame) && admits(s, 0, m[i].ref_frame);
        let next = if takes { acc.push(m[i].ref_frame) } else { acc };
        if i < k {
            lemma_modelled_order_reaches(s, m, i + 1, next, most, k);
        } else {
            lemma_modelled_order_keeps(s, m, i + 1, next, most);
            if takes {
                assert(next[acc.len() as int] == m[k].ref_frame);
                assert(all[acc.len() as int] == m[k].ref_frame);
            } else {
                let j = choose|j: int| 0 <= j < acc.len() && acc[j] == m[k].ref_frame;
                assert(all[j] == acc[j]);
            }
        }
    }
}

impl SingleStates {
    /// A higher level leaves a compound mode no more references, and one at
    /// least where there are any.
    pub proof fn law_higher_level_leaves_fewer(
        self,
        low: int,
        high: int,
        dir: int,
        mode: PredMode,
    )
        requires
            low <= high,
            0 <= dir < 2,
            mode.is_single(),
            self.order[dir][mode.index() - 13][0] is Some,
        ensures
            1 <= self.candidate_count(high, dir, mode) <= self.candidate_count(low, dir, mode) <= 4,
            high >= 2 ==> self.candidate_count(high, dir, mode) <= 2,
            high >= 4 ==> self.candidate_count(high, dir, mode) == 1,
    {
        let order = self.order[dir][mode.index() - 13]@;
        reveal_with_fuel(order_len, 6);
        assert(1 <= order_len(order, 0) <= 4);
    }

    /// Below the second level every reference of an order may be used, up to
    /// the first gap.
    pub proof fn law_low_level_leaves_all(
        self,
        level: int,
        dir: int,
        mode: PredMode,
        n: int,
    )
        requires
            level < 2,
            0 <= dir < 2,
            mode.is_single(),
            0 <= n <= 4,
            forall|i: int|
                0 <= i < n ==> (#[trigger] self.order[dir][mode.index() - 13][i]) is Some,
            n < 4 ==> self.order[dir][mode.index() - 13][n] is None,
        ensures
            self.candidate_count(level, dir, mode) == n,
    {
        let order = self.order[dir][mode.index() - 13]@;
        reveal_with_fuel(order_len, 6);
        if n > 0 {
            assert(order[0] is Some);
        }
        if n > 1 {
            assert(order[1] is Some);
        }
        if n > 2 {
            assert(order[2] is Some);
        }
        if n > 3 {
            assert(order[3] is Some);
        }
    }
}

/// The vector that a single-reference mode uses for its first candidate.
pub open spec fn first_vector(mode: PredMode, row: RefMvRow, global: Mv) -> Mv {
    match mode {
        PredMode::NearestMv => candidate_mv(row, false, false, 0, global),
        PredMode::NearMv => candidate_mv(row, true, false, 0, global),
        _ => global,
    }
}

/// A mode is passed over only for another that uses the same vector, and with
/// a translation as the global motion both the near and the global mode are
/// passed over wherever there is at most one candidate.
pub proof fn law_repeated_mode_has_the_same_vector(
    mode: PredMode,
    row: RefMvRow,
    translational: bool,
    global: Mv,
)
    requires
        mode.is_single(),
    ensures
        same_vector_mode(mode, row.count as int, translational) matches Some(o) ==> {
            &&& o != mode
            &&& (o is NearestMv || o is NearMv || o is GlobalMv)
            &&& first_vector(o, row, global) == first_vector(mode, row, global)
        },
        translational && row.count <= 1 && (mode is NearMv || mode is GlobalMv)
            ==> same_vector_mode(mode, row.count as int, translational) is Some,
        row.count >= 2 || mode is NewMv || mode is NearestMv ==> same_vector_mode(
            mode,
            row.count as int,
            translational,
        ) is None,
{
}

/// A half rules nothing out whose reference was never searched, or which is
/// among the first that compound modes may use; nor does one at the nearest or
/// a near vector that the single mode did not try.
pub proof fn law_untried_reference_rules_nothing_out(
    states: SingleStates,
    prune_level: int,
    mode: PredMode,
    refs: [i32; 2],
    rows: CompoundRows,
    global_mvs: [Mv; 8],
    i: int,
    k: int,
)
    requires
        i == 0 || i == 1,
        17 <= mode.index(),
        half_rules_out(states, prune_level, mode, refs, rows, global_mvs, i),
    ensures
        ({
            let half = mode.half(i == 1).unwrap();
            let d = if refs[i] > GOLDEN_FRAME { 1int } else { 0 };
            let m = half.index() - 13;
            &&& is_searched(states.simple[d][m].list(), refs[i] as int)
            &&& (0 <= k < states.candidate_count(prune_level, d, half) && k < 4
                ==> states.order[d][m][k] != Some(refs[i]))
            &&& (half is NearestMv ==> candidate_mv(
                *rows.single[i],
                false,
                false,
                0,
                global_mvs[refs[i] as int],
            ) == candidate_mv(*rows.compound, false, i == 1, 0, global_mvs[refs[i] as int]))
            &&& (half is NearMv && 0 <= k < drl_count(mode, rows.compound.count as int)
                ==> candidate_mv(
                *rows.single[i],
                true,
                false,
                k,
                global_mvs[refs[i] as int],
            ) == candidate_mv(*rows.compound, true, i == 1, k, global_mvs[refs[i] as int]))
        }),
{
    let half = mode.half(i == 1).unwrap();
    let d = dir_of(refs[i] as int);
    let m = half.index() - 13;
    let n = states.candidate_count(prune_level, d, half);
    let order = states.order[d][m]@;
    reveal_with_fuel(order_len, 6);
    assert(0 <= n <= 4);
    if 0 <= k < n && k < 4 {
        assert(order.take(n)[k] == order[k]);
        assert(states.order[d][m][k] != Some(refs[i]));
    }
    let tries = drl_count(mode, rows.compound.count as int);
    assert(tries >= 1);
    let global = global_mvs[refs[i] as int];
    assert(same_vectors(rows, half, i, tries, global));
    if half is NearestMv {
        assert(candidate_mv(*rows.single[i], half is NearMv, false, 0, global) == candidate_mv(
            *rows.compound,
            half is NearMv,
            i == 1,
            0,
            global,
        ));
    }
    if half is NearMv && 0 <= k < tries {
        assert(candidate_mv(*rows.single[i], half is NearMv, false, k, global) == candidate_mv(
            *rows.compound,
            half is NearMv,
            i == 1,
            k,
            global,
        ));
    }
}

/// Warped and overlapped motion are weighed by their own effort, and plain
/// translation by none.
pub proof fn law_translation_is_not_weighed(rd: i64, warp: i64, obmc: i64)
    ensures
        biased(rd, SIMPLE_TRANSLATION as int, warp, obmc) == rd,
        biased(rd, WARPED_CAUSAL as int, warp, obmc) - rd == warp,
        biased(rd, OBMC_CAUSAL as int, warp, obmc) - rd == obmc,
{
}

} // verus!
