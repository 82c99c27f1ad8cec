//! The transform-type search of one transform block.
//!
//! The signal path (forward transform, quantization, entropy cost,
//! reconstruction) is the caller's; its results for a type are handed in as a
//! [`TypeOutcome`]. Which types are tried, in which order, which distortion
//! counts, which type wins and when the search stops is decided here.

use vstd::prelude::*;

use crate::rd::{rd_value, rdcost};
use crate::tx_search::{flag_has, TX_SIZE_2D_TBL, TX_TYPES};
use crate::arith::pow2i;

verus! {

/// Bound on the distortions a caller hands in.
pub const MAX_TXB_DIST: i64 = 0x20_0000_0000_0000;

/// Which quantizer a search uses.
#[derive(Clone, Copy, Debug, PartialEq, Eq, Structural)]
pub enum QuantKind {
    /// The fast quantizer, followed by the trellis.
    Fp,
    /// The dead-zone quantizer, without trellis.
    B,
}

/// Everything that is fixed before the first type is tried.
#[derive(Clone, Copy, Debug)]
pub struct TypeSearchPlan {
    pub tx_size: usize,
    pub rdmult: i32,
    /// Bit `t` is set when type `t` may be tried.
    pub allowed_tx_mask: u16,
    /// The order of the search; entries of 16 and above are padding.
    pub txk_map: [usize; 16],
    pub skip_trellis: bool,
    /// Distortion is measured in the transform domain.
    pub use_tx_domain: bool,
    /// The winner is measured once more in the sample domain.
    pub final_px_dist: bool,
    /// Only the DC coefficient is coded; distortion is in the sample domain.
    pub dc_only_blk: bool,
    /// Sixteen times the residual energy.
    pub block_sse: i64,
    pub adaptive_txb_search_level: i32,
    pub skip_tx_search: bool,
}

impl TypeSearchPlan {
    /// The plan is in range.
    pub open spec fn valid(self) -> bool {
        &&& self.tx_size < 19
        &&& 0 <= self.block_sse <= 0x4000_0000_0000
        &&& self.adaptive_txb_search_level < 64
    }

    /// Type `t` may be tried.
    pub open spec fn allows(self, t: usize) -> bool {
        t < TX_TYPES && flag_has(self.allowed_tx_mask, t)
    }

    /// None of the places from `a` to `b` of the order may be tried.
    pub open spec fn allows_none(self, a: int, b: int) -> bool {
        forall|i: int| a <= i < b ==> !self.allows(#[trigger] self.txk_map[i])
    }

    /// Whether type `t` may be tried.
    pub fn is_allowed(&self, t: usize) -> (r: bool)
        ensures
            r == self.allows(t),
    {
        t < TX_TYPES && self.allowed_tx_mask & (1u16 << (t as u16)) != 0
    }

    /// The quantizer of the search.
    pub fn quant_kind(&self) -> (r: QuantKind)
        ensures
            r == if self.skip_trellis {
                QuantKind::B
            } else {
                QuantKind::Fp
            },
    {
        if self.skip_trellis {
            QuantKind::B
        } else {
            QuantKind::Fp
        }
    }

    /// The residual is so strong that the transform domain bounds the
    /// distortion from below.
    pub open spec fn high_energy(self) -> bool {
        self.block_sse >= 16384 * TX_SIZE_2D_TBL[self.tx_size as int]
    }

    /// The transform is 64x64.
    pub open spec fn is_tx64(self) -> bool {
        self.tx_size == 4
    }

    /// A type with this many coefficients needs the transform-domain
    /// measurement.
    pub open spec fn wants_tx(self, eob: u16) -> bool {
        eob > 0 && !self.dc_only_blk && (self.use_tx_domain || self.is_tx64()
            || self.high_energy())
    }

    /// A type needs the sample-domain measurement, given its transform-domain
    /// energy.
    pub open spec fn wants_px(self, eob: u16, tx_sse: int) -> bool {
        eob > 0 && (self.dc_only_blk || (!self.use_tx_domain && (!self.is_tx64()
            || !self.high_energy() || 2 * (self.block_sse - tx_sse) < tx_sse)))
    }

    /// A winner with this many coefficients is measured once more.
    pub open spec fn remeasures(self, eob: u16) -> bool {
        self.final_px_dist && eob > 0
    }

    /// Distortion and energy of a type. Without coefficients both are the
    /// residual energy. In the mixed mode the sample-domain distortion is
    /// raised to the transform-domain one for a strong residual, and for a
    /// strong 64x64 block the energy outside the coded coefficients is added
    /// to the transform-domain distortion.
    pub open spec fn measure(self, o: TypeOutcome) -> (int, int) {
        if o.eob == 0 {
            (self.block_sse as int, self.block_sse as int)
        } else if self.dc_only_blk {
            (o.px_dist as int, self.block_sse as int)
        } else if self.use_tx_domain {
            (o.tx_dist as int, o.tx_sse as int)
        } else if self.wants_px(o.eob, o.tx_sse as int) {
            (
                if self.high_energy() && o.px_dist < o.tx_dist {
                    o.tx_dist as int
                } else {
                    o.px_dist as int
                },
                self.block_sse as int,
            )
        } else {
            (o.tx_dist + (self.block_sse - o.tx_sse), self.block_sse as int)
        }
    }

    fn is_high_energy(&self) -> (r: bool)
        requires
            self.valid(),
        ensures
            r == self.high_energy(),
    {
        self.block_sse >= 16384 * TX_SIZE_2D_TBL[self.tx_size]
    }

    /// Whether the transform-domain measurement has to be made.
    pub fn needs_tx_dist(&self, eob: u16) -> (r: bool)
        requires
            self.valid(),
        ensures
            r == self.wants_tx(eob),
    {
        eob > 0 && !self.dc_only_blk && (self.use_tx_domain || self.tx_size == 4
            || self.is_high_energy())
    }

    /// Whether the sample-domain measurement has to be made. `tx_sse` is read
    /// only where the transform-domain measurement was due.
    pub fn needs_px_dist(&self, eob: u16, tx_sse: i64) -> (r: bool)
        requires
            self.valid(),
            -MAX_TXB_DIST <= tx_sse <= MAX_TXB_DIST,
        ensures
            r == self.wants_px(eob, tx_sse as int),
    {
        eob > 0 && (self.dc_only_blk || (!self.use_tx_domain && (self.tx_size != 4
            || !self.is_high_energy() || 2 * (self.block_sse - tx_sse) < tx_sse)))
    }

    /// Whether a winner with this many coefficients has to be measured once
    /// more.
    pub fn needs_final_px_dist(&self, eob: u16) -> (r: bool)
        ensures
            r == self.remeasures(eob),
    {
        self.final_px_dist && eob > 0
    }

    fn distortion(&self, o: &TypeOutcome) -> (r: (i64, i64))
        requires
            self.valid(),
            o.valid(),
        ensures
            (r.0 as int, r.1 as int) == self.measure(*o),
            -crate::rd::MAX_DIST <= r.0 <= crate::rd::MAX_DIST,
    {
        if o.eob == 0 {
            (self.block_sse, self.block_sse)
        } else if self.dc_only_blk {
            (o.px_dist, self.block_sse)
        } else if self.use_tx_domain {
            (o.tx_dist, o.tx_sse)
        } else if self.needs_px_dist(o.eob, o.tx_sse) {
            if self.is_high_energy() && o.px_dist < o.tx_dist {
                (o.tx_dist, self.block_sse)
            } else {
                (o.px_dist, self.block_sse)
            }
        } else {
            (o.tx_dist + (self.block_sse - o.tx_sse), self.block_sse)
        }
    }
}

/// What the signal path gives for one type. `tx_dist`, `tx_sse` and `px_dist`
/// are read only where they were asked for.
pub struct TypeOutcome {
    /// Number of coefficients up to the last one that is not zero.
    pub eob: u16,
    /// Entropy context the block leaves behind.
    pub txb_ctx: u8,
    pub txb_skip_ctx: usize,
    pub dc_sign_ctx: usize,
    /// Cost of the coefficients, or of the skip flag.
    pub coeff_rate: i32,
    /// Cost of signalling the type; it is paid when there are coefficients.
    pub type_rate: i32,
    /// Transform-domain distortion and energy.
    pub tx_dist: i64,
    pub tx_sse: i64,
    /// Sample-domain distortion.
    pub px_dist: i64,
    pub qcoeff: Vec<i32>,
    pub dqcoeff: Vec<i32>,
}

impl TypeOutcome {
    /// The figures are in range.
    pub open spec fn valid(self) -> bool {
        &&& i32::MIN <= self.total_rate() <= i32::MAX
        &&& -MAX_TXB_DIST <= self.tx_dist <= MAX_TXB_DIST
        &&& -MAX_TXB_DIST <= self.tx_sse <= MAX_TXB_DIST
        &&& -MAX_TXB_DIST <= self.px_dist <= MAX_TXB_DIST
    }

    /// The cost of the coefficients and, if there are any, of the type.
    pub open spec fn total_rate(self) -> int {
        if self.eob > 0 {
            self.coeff_rate + self.type_rate
        } else {
            self.coeff_rate as int
        }
    }

    fn rate(&self) -> (r: i32)
        requires
            self.valid(),
        ensures
            r == self.total_rate(),
    {
        if self.eob > 0 {
            self.coeff_rate + self.type_rate
        } else {
            self.coeff_rate
        }
    }
}

/// The best type so far.
pub struct TypeBest {
    pub tx_type: usize,
    pub eob: u16,
    pub txb_ctx: u8,
    pub txb_skip_ctx: usize,
    pub dc_sign_ctx: usize,
    pub rate: i32,
    pub dist: i64,
    pub sse: i64,
    pub rd: i64,
    pub qcoeff: Vec<i32>,
    pub dqcoeff: Vec<i32>,
}

/// A best type with its figures as numbers.
pub struct BestModel {
    pub tx_type: int,
    pub eob: u16,
    pub txb_ctx: u8,
    pub txb_skip_ctx: usize,
    pub dc_sign_ctx: usize,
    pub rate: int,
    pub dist: int,
    pub sse: int,
    pub rd: int,
    pub qcoeff: Seq<i32>,
    pub dqcoeff: Seq<i32>,
}

impl TypeBest {
    pub open spec fn model(self) -> BestModel {
        BestModel {
            tx_type: self.tx_type as int,
            eob: self.eob,
            txb_ctx: self.txb_ctx,
            txb_skip_ctx: self.txb_skip_ctx,
            dc_sign_ctx: self.dc_sign_ctx,
            rate: self.rate as int,
            dist: self.dist as int,
            sse: self.sse as int,
            rd: self.rd as int,
            qcoeff: self.qcoeff@,
            dqcoeff: self.dqcoeff@,
        }
    }
}

/// The state of a search as a value.
pub struct SearchModel {
    pub best: Option<BestModel>,
    /// The types that were tried.
    pub tried: Set<int>,
    pub stopped: bool,
}

impl SearchModel {
    /// Nothing tried yet.
    pub open spec fn start() -> SearchModel {
        SearchModel { best: None, tried: Set::empty(), stopped: false }
    }

    /// The cost to beat.
    pub open spec fn best_rd(self) -> int {
        match self.best {
            Some(b) => b.rd,
            None => i64::MAX as int,
        }
    }

    /// The state after trying type `t` with outcome `o`. A type whose rate
    /// alone costs more than the best is passed over; otherwise the cheaper
    /// one is kept, the earlier one on a tie, and the search stops when the
    /// best is far above `ref_best_rd` or quantizes to nothing.
    pub open spec fn tried_type(
        self,
        plan: TypeSearchPlan,
        t: int,
        o: TypeOutcome,
        ref_best_rd: int,
    ) -> SearchModel {
        let rate = o.total_rate();
        let tried = self.tried.insert(t);
        if rd_value(plan.rdmult as int, rate, 0) > self.best_rd() {
            SearchModel { best: self.best, tried, stopped: false }
        } else {
            let (dist, sse) = plan.measure(o);
            let rd = rd_value(plan.rdmult as int, rate, dist);
            let best = if rd < self.best_rd() {
                Some(
                    BestModel {
                        tx_type: t,
                        eob: o.eob,
                        txb_ctx: o.txb_ctx,
                        txb_skip_ctx: o.txb_skip_ctx,
                        dc_sign_ctx: o.dc_sign_ctx,
                        rate,
                        dist,
                        sse,
                        rd,
                        qcoeff: o.qcoeff@,
                        dqcoeff: o.dqcoeff@,
                    },
                )
            } else {
                self.best
            };
            let best_rd = if rd < self.best_rd() {
                rd
            } else {
                self.best_rd()
            };
            let level = plan.adaptive_txb_search_level as int;
            let far = level > 0 && best_rd - best_rd / pow2i(level) > ref_best_rd;
            let empty = plan.skip_tx_search && match best {
                Some(b) => b.eob == 0,
                None => false,
            };
            SearchModel { best, tried, stopped: far || empty }
        }
    }

    /// The state after the first `i` entries of the search order, where
    /// `outs[t]` is the outcome of type `t`.
    pub open spec fn after(
        plan: TypeSearchPlan,
        outs: Seq<TypeOutcome>,
        ref_best_rd: int,
        i: int,
    ) -> SearchModel
        decreases i,
    {
        if i <= 0 {
            SearchModel::start()
        } else {
            let s = SearchModel::after(plan, outs, ref_best_rd, i - 1);
            let t = plan.txk_map[i - 1];
            if s.stopped || !plan.allows(t) {
                s
            } else {
                s.tried_type(plan, t as int, outs[t as int], ref_best_rd)
            }
        }
    }
}

/// A search in progress.
pub struct TypeSearch {
    best: Option<TypeBest>,
    evaluated_mask: u16,
    stopped: bool,
    tried: Ghost<Set<int>>,
}

pub(crate) fn copy_coeffs(v: &Vec<i32>) -> (r: Vec<i32>)
    ensures
        r@ == v@,
{
    let mut r: Vec<i32> = Vec::new();
    for i in 0..v.len()
        invariant
            r@ == v@.subrange(0, i as int),
    {
        r.push(v[i]);
    }
    assert(v@.subrange(0, v@.len() as int) == v@);
    r
}

impl TypeSearch {
    /// The state of the search.
    pub closed spec fn model(self) -> SearchModel {
        SearchModel {
            best: match self.best {
                Some(b) => Some(b.model()),
                None => None,
            },
            tried: self.tried@,
            stopped: self.stopped,
        }
    }

    /// The mask holds the types that were tried.
    pub closed spec fn valid(self) -> bool {
        forall|t: usize|
            t < TX_TYPES ==> #[trigger] flag_has(self.evaluated_mask, t) == self.tried@.contains(
                t as int,
            )
    }

    /// A search that has tried nothing.
    pub fn start() -> (r: Self)
        ensures
            r.valid(),
            r.model() == SearchModel::start(),
    {
        let r = TypeSearch {
            best: None,
            evaluated_mask: 0,
            stopped: false,
            tried: Ghost(Set::empty()),
        };
        assert forall|t: usize| t < TX_TYPES implies !#[trigger] flag_has(0, t) by {
            let b: u16 = 1u16 << (t as u16);
            assert(0u16 & b == 0) by (bit_vector);
        }
        r
    }

    /// Whether no further type is to be tried.
    pub fn is_stopped(&self) -> (r: bool)
        ensures
            r == self.model().stopped,
    {
        self.stopped
    }

    /// The next type to try, from place `from` of the order on, with its place;
    /// `None` when the search is over.
    pub fn next_type(&self, plan: &TypeSearchPlan, from: usize) -> (r: Option<(usize, usize)>)
        requires
            from <= 16,
        ensures
            match r {
                Some((k, t)) => {
                    &&& !self.model().stopped
                    &&& from <= k < 16
                    &&& t == plan.txk_map[k as int]
                    &&& plan.allows(t)
                    &&& plan.allows_none(from as int, k as int)
                },
                None => self.model().stopped || plan.allows_none(from as int, 16),
            },
    {
        if self.stopped {
            return None;
        }
        for k in from..16
            invariant
                !self.stopped,
                plan.allows_none(from as int, k as int),
        {
            let t: usize = plan.txk_map[k];
            if plan.is_allowed(t) {
                return Some((k, t));
            }
        }
        None
    }

    fn best_rd(&self) -> (r: i64)
        ensures
            r == self.model().best_rd(),
    {
        match &self.best {
            Some(b) => b.rd,
            None => i64::MAX,
        }
    }

    /// Whether a type of this total rate is passed over without measuring its
    /// distortion.
    pub fn rate_alone_loses(&self, plan: &TypeSearchPlan, rate: i32) -> (r: bool)
        ensures
            r == (rd_value(plan.rdmult as int, rate as int, 0) > self.model().best_rd()),
    {
        rdcost(plan.rdmult, rate, 0) > self.best_rd()
    }

    /// Take the outcome of type `t` into account.
    pub fn consider(
        &mut self,
        plan: &TypeSearchPlan,
        t: usize,
        o: &TypeOutcome,
        ref_best_rd: i64,
    )
        requires
            old(self).valid(),
            plan.valid(),
            o.valid(),
            t < TX_TYPES,
        ensures
            final(self).valid(),
            final(self).model() == old(self).model().tried_type(
                *plan,
                t as int,
                *o,
                ref_best_rd as int,
            ),
    {
        let rate: i32 = o.rate();
        let bit: u16 = 1u16 << (t as u16);
        let ghost before = self.evaluated_mask;
        let ghost was_tried = self.tried@;
        self.evaluated_mask = self.evaluated_mask | bit;
        self.tried = Ghost(self.tried@.insert(t as int));
        proof {
            assert forall|u: usize| u < TX_TYPES implies #[trigger] flag_has(
                before | bit,
                u,
            ) == was_tried.insert(t as int).contains(u as int) by {
                lemma_or_bit(before, t, u);
                assert(flag_has(before, u) == was_tried.contains(u as int));
            }
        }
        self.stopped = false;
        if self.rate_alone_loses(plan, rate) {
            return;
        }
        let (dist, sse) = plan.distortion(o);
        let rd: i64 = rdcost(plan.rdmult, rate, dist);
        if rd < self.best_rd() {
            self.best = Some(
                TypeBest {
                    tx_type: t,
                    eob: o.eob,
                    txb_ctx: o.txb_ctx,
                    txb_skip_ctx: o.txb_skip_ctx,
                    dc_sign_ctx: o.dc_sign_ctx,
                    rate,
                    dist,
                    sse,
                    rd,
                    qcoeff: copy_coeffs(&o.qcoeff),
                    dqcoeff: copy_coeffs(&o.dqcoeff),
                },
            );
        }
        let best_rd: i64 = self.best_rd();
        let far = far_above(best_rd, plan.adaptive_txb_search_level, ref_best_rd);
        let empty = plan.skip_tx_search && match &self.best {
            Some(b) => b.eob == 0,
            None => false,
        };
        self.stopped = far || empty;
    }

    /// The winner and the mask of the types that were tried; `None` when no
    /// type was.
    pub fn finish(self) -> (r: (Option<TypeBest>, u16))
        requires
            self.valid(),
        ensures
            match r.0 {
                Some(b) => self.model().best == Some(b.model()),
                None => self.model().best is None,
            },
            forall|t: usize|
                t < TX_TYPES ==> #[trigger] flag_has(r.1, t) == self.model().tried.contains(
                    t as int,
                ),
    {
        (self.best, self.evaluated_mask)
    }
}

proof fn lemma_or_bit(mask: u16, t: usize, u: usize)
    requires
        t < 16,
        u < 16,
    ensures
        flag_has(mask | (1u16 << (t as u16)), u) == (flag_has(mask, u) || t == u),
{
    let a = t as u16;
    let b = u as u16;
    assert(((mask | (1u16 << a)) & (1u16 << b) != 0) == ((mask & (1u16 << b)) != 0 || a == b))
        by (bit_vector)
        requires
            a < 16,
            b < 16,
    ;
}

/// Whether `best` less its `2^level`-th part exceeds `reference`; never at
/// level 0.
pub fn far_above(best: i64, level: i32, reference: i64) -> (r: bool)
    requires
        level < 64,
    ensures
        r == (level > 0 && best - best as int / pow2i(level as int) > reference),
{
    if level <= 0 {
        return false;
    }
    let part: i64 = crate::arith::shr_i64(best, level as u32);
    proof {
        crate::arith::lemma_pow2i_pos(level as int);
        crate::arith::lemma_pow2i_pos(level - 1);
        let p = pow2i(level as int);
        assert(p >= 2);
        assert(best - best as int / p <= i64::MAX && best - best as int / p >= i64::MIN)
            by (nonlinear_arith)
            requires
                p >= 2,
                i64::MIN <= best <= i64::MAX,
        ;
    }
    best - part > reference
}

/// Run the search over given outcomes; `outs[t]` is that of type `t`.
pub fn search_types(plan: &TypeSearchPlan, outs: &[TypeOutcome], ref_best_rd: i64) -> (r: (
    Option<TypeBest>,
    u16,
))
    requires
        plan.valid(),
        outs.len() >= TX_TYPES,
        forall|t: int| 0 <= t < TX_TYPES ==> (#[trigger] outs[t]).valid(),
    ensures
        ({
            let m = SearchModel::after(*plan, outs@, ref_best_rd as int, 16);
            &&& match r.0 {
                Some(b) => m.best == Some(b.model()),
                None => m.best is None,
            }
            &&& forall|t: usize|
                t < TX_TYPES ==> #[trigger] flag_has(r.1, t) == m.tried.contains(t as int)
        }),
{
    let mut search = TypeSearch::start();
    let mut from: usize = 0;
    while from < 16
        invariant
            plan.valid(),
            outs.len() >= TX_TYPES,
            forall|t: int| 0 <= t < TX_TYPES ==> (#[trigger] outs[t]).valid(),
            from <= 16,
            search.valid(),
            search.model() == SearchModel::after(*plan, outs@, ref_best_rd as int, from as int),
        decreases 16 - from,
    {
        match search.next_type(plan, from) {
            Some((k, t)) => {
                proof {
                    SearchModel::law_places_passed_over(
                        *plan,
                        outs@,
                        ref_best_rd as int,
                        from as int,
                        k as int,
                    );
                }
                search.consider(plan, t, &outs[t], ref_best_rd);
                from = k + 1;
            },
            None => {
                proof {
                    SearchModel::law_places_passed_over(
                        *plan,
                        outs@,
                        ref_best_rd as int,
                        from as int,
                        16,
                    );
                }
                from = 16;
            },
        }
    }
    search.finish()
}

impl TypeSearchPlan {
    /// The cost of a type with this outcome.
    pub open spec fn cost(self, o: TypeOutcome) -> int {
        rd_value(self.rdmult as int, o.total_rate(), self.measure(o).0)
    }
}

impl SearchModel {
    /// The state is one that given outcomes lead to: the best type was tried,
    /// carries its own figures, and costs no more than any type tried.
    pub open spec fn is_minimum(self, plan: TypeSearchPlan, outs: Seq<TypeOutcome>) -> bool {
        &&& forall|t: int| #[trigger]
            self.tried.contains(t) ==> self.best is Some && self.best_rd() <= plan.cost(outs[t])
        &&& match self.best {
            Some(b) => {
                &&& self.tried.contains(b.tx_type)
                &&& b.rd == plan.cost(outs[b.tx_type])
                &&& b.rate == outs[b.tx_type].total_rate()
                &&& (b.dist, b.sse) == plan.measure(outs[b.tx_type])
                &&& b.eob == outs[b.tx_type].eob
                &&& b.qcoeff == outs[b.tx_type].qcoeff@
                &&& b.dqcoeff == outs[b.tx_type].dqcoeff@
            },
            None => true,
        }
    }

    /// Places of the order that may not be tried, and all places behind the end
    /// of a search, leave it as it is.
    pub proof fn law_places_passed_over(
        plan: TypeSearchPlan,
        outs: Seq<TypeOutcome>,
        ref_best_rd: int,
        a: int,
        b: int,
    )
        requires
            0 <= a <= b <= 16,
            SearchModel::after(plan, outs, ref_best_rd, a).stopped || plan.allows_none(a, b),
        ensures
            SearchModel::after(plan, outs, ref_best_rd, b) == SearchModel::after(
                plan,
                outs,
                ref_best_rd,
                a,
            ),
        decreases b,
    {
        if a < b {
            SearchModel::law_places_passed_over(plan, outs, ref_best_rd, a, b - 1);
            assert(plan.allows_none(a, b) ==> !plan.allows(plan.txk_map[b - 1]));
        }
    }

    /// A distortion that the plan does not ask for does not matter, and none
    /// does where the rate alone loses: two outcomes that differ in nothing
    /// else lead to the same state.
    pub proof fn law_unasked_distortions_do_not_matter(
        self,
        plan: TypeSearchPlan,
        t: int,
        a: TypeOutcome,
        b: TypeOutcome,
        ref_best_rd: int,
    )
        requires
            (TypeOutcome { tx_dist: b.tx_dist, tx_sse: b.tx_sse, px_dist: b.px_dist, ..a }) == b,
            rd_value(plan.rdmult as int, a.total_rate(), 0) > self.best_rd() || {
                &&& plan.wants_tx(a.eob) ==> a.tx_dist == b.tx_dist && a.tx_sse == b.tx_sse
                &&& plan.wants_px(a.eob, a.tx_sse as int) ==> a.px_dist == b.px_dist
            },
        ensures
            self.tried_type(plan, t, a, ref_best_rd) == self.tried_type(plan, t, b, ref_best_rd),
    {
    }

    /// The search keeps the cheapest of the types it tries, whether or not it
    /// measured their distortion.
    pub proof fn law_winner_is_cheapest(
        plan: TypeSearchPlan,
        outs: Seq<TypeOutcome>,
        ref_best_rd: int,
        i: int,
    )
        requires
            plan.valid(),
            outs.len() >= TX_TYPES,
            0 <= i <= 16,
            forall|t: int| 0 <= t < TX_TYPES ==> (#[trigger] outs[t]).valid(),
            forall|t: int| 0 <= t < TX_TYPES ==> plan.measure(#[trigger] outs[t]).0 >= 0,
        ensures
            SearchModel::after(plan, outs, ref_best_rd, i).is_minimum(plan, outs),
        decreases i,
    {
        if i > 0 {
            SearchModel::law_winner_is_cheapest(plan, outs, ref_best_rd, i - 1);
            let s = SearchModel::after(plan, outs, ref_best_rd, i - 1);
            let t = plan.txk_map[i - 1];
            if !s.stopped && plan.allows(t) {
                let o = outs[t as int];
                lemma_cost_bounds(plan, o);
                let next = s.tried_type(plan, t as int, o, ref_best_rd);
                assert forall|u: int| #[trigger] next.tried.contains(u) implies next.best is Some
                    && next.best_rd() <= plan.cost(outs[u]) by {
                    if u != t as int {
                        assert(s.tried.contains(u));
                    }
                }
            }
        }
    }

    /// The search always yields a winner when its order holds a type that may
    /// be tried.
    pub proof fn law_search_yields_a_winner(
        plan: TypeSearchPlan,
        outs: Seq<TypeOutcome>,
        ref_best_rd: int,
        i: int,
        k: int,
    )
        requires
            plan.valid(),
            outs.len() >= TX_TYPES,
            0 <= k < i <= 16,
            plan.allows(plan.txk_map[k]),
            forall|t: int| 0 <= t < TX_TYPES ==> (#[trigger] outs[t]).valid(),
        ensures
            SearchModel::after(plan, outs, ref_best_rd, i).best is Some,
        decreases i,
    {
        let s = SearchModel::after(plan, outs, ref_best_rd, i - 1);
        lemma_stopped_has_best(plan, outs, ref_best_rd, i - 1);
        if k < i - 1 {
            SearchModel::law_search_yields_a_winner(plan, outs, ref_best_rd, i - 1, k);
        }
        let t = plan.txk_map[i - 1];
        if !s.stopped && plan.allows(t) {
            lemma_cost_bounds(plan, outs[t as int]);
        }
    }
}

proof fn lemma_cost_bounds(plan: TypeSearchPlan, o: TypeOutcome)
    requires
        plan.valid(),
        o.valid(),
    ensures
        plan.cost(o) < i64::MAX,
        rd_value(plan.rdmult as int, o.total_rate(), 0) < i64::MAX,
{
    let rate = o.total_rate();
    let m = plan.rdmult as int;
    assert(rate * m <= 0x4000_0000_0000_0000) by (nonlinear_arith)
        requires
            -0x8000_0000 <= rate <= 0x7fff_ffff,
            -0x8000_0000 <= m <= 0x7fff_ffff,
    ;
}

proof fn lemma_stopped_has_best(
    plan: TypeSearchPlan,
    outs: Seq<TypeOutcome>,
    ref_best_rd: int,
    i: int,
)
    requires
        plan.valid(),
        outs.len() >= TX_TYPES,
        i <= 16,
        forall|t: int| 0 <= t < TX_TYPES ==> (#[trigger] outs[t]).valid(),
    ensures
        SearchModel::after(plan, outs, ref_best_rd, i).stopped ==> SearchModel::after(
            plan,
            outs,
            ref_best_rd,
            i,
        ).best is Some,
    decreases i,
{
    if i > 0 {
        lemma_stopped_has_best(plan, outs, ref_best_rd, i - 1);
        let s = SearchModel::after(plan, outs, ref_best_rd, i - 1);
        let t = plan.txk_map[i - 1];
        if !s.stopped && plan.allows(t) {
            lemma_cost_bounds(plan, outs[t as int]);
        }
    }
}

/// Gates of a search that follow from the residual statistics: the trellis is
/// off when the policy says so or the mean squared error is above `threshold`
/// squared quantizer steps.
pub open spec fn trellis_off(
    policy_off: bool,
    mse_q8: int,
    threshold: int,
    qstep: int,
) -> bool {
    policy_off || mse_q8 > threshold * qstep * qstep
}

/// The trellis gate.
pub fn is_trellis_off(policy_off: bool, mse_q8: u32, threshold: u32, qstep: u32) -> (r: bool)
    requires
        qstep <= 0x8000,
    ensures
        r == trellis_off(policy_off, mse_q8 as int, threshold as int, qstep as int),
{
    assert(0 <= threshold * qstep <= 0xffff_ffff * 0x8000) by (nonlinear_arith)
        requires
            0 <= threshold <= 0xffff_ffff,
            0 <= qstep <= 0x8000,
    ;
    let tq = threshold as u64 * qstep as u64;
    assert(0 <= tq * qstep <= 0xffff_ffff * 0x8000 * 0x8000) by (nonlinear_arith)
        requires
            0 <= tq <= 0xffff_ffff * 0x8000,
            0 <= qstep <= 0x8000,
    ;
    policy_off || mse_q8 as u64 > tq * qstep as u64
}

/// Where distortion is measured: in the transform domain during the search,
/// and once more in the sample domain for the winner. A search of a single
/// type measures in the sample domain at once.
pub open spec fn distortion_domain(
    kind: int,
    mse_q8: int,
    threshold: int,
    excluded: bool,
    single: bool,
) -> (bool, bool) {
    let tx = kind > 0 && mse_q8 >= threshold && !excluded;
    if kind == 1 && tx {
        if single {
            (false, false)
        } else {
            (true, true)
        }
    } else {
        (tx, false)
    }
}

/// The distortion-domain gate.
pub fn pick_distortion_domain(
    kind: u8,
    mse_q8: u32,
    threshold: u32,
    excluded: bool,
    single: bool,
) -> (r: (bool, bool))
    ensures
        r == distortion_domain(kind as int, mse_q8 as int, threshold as int, excluded, single),
{
    let tx = kind > 0 && mse_q8 >= threshold && !excluded;
    if kind == 1 && tx {
        if single {
            (false, false)
        } else {
            (true, true)
        }
    } else {
        (tx, false)
    }
}

/// The AC quantizer step in sample units.
pub open spec fn ac_qstep(dequant: int, bd: int) -> int {
    dequant / pow2i(
        if bd > 8 {
            bd - 5
        } else {
            3
        },
    )
}

/// The AC quantizer step in sample units, for bit depths up to 12.
pub fn ac_quantizer_step(dequant: i16, bd: u8) -> (r: u32)
    requires
        dequant >= 0,
        bd <= 12,
    ensures
        r == ac_qstep(dequant as int, bd as int),
        r <= 0x8000,
{
    let shift: u32 = if bd > 8 { bd as u32 - 5 } else { 3 };
    let q: i64 = crate::arith::shr_i64(dequant as i64, shift);
    proof {
        crate::arith::lemma_pow2i_pos(shift as int);
        let p = pow2i(shift as int);
        assert(0 <= dequant as int / p <= dequant) by (nonlinear_arith)
            requires
                p >= 1,
                dequant >= 0,
        ;
    }
    q as u32
}

/// Residual energy and mean squared error brought to eight bits, and the
/// energy scaled by sixteen.
pub open spec fn normalised_sse(sse: int, bd: int) -> int {
    crate::tx_search::round_shift(
        sse,
        if bd > 8 {
            2 * (bd - 8)
        } else {
            0
        },
    )
}

/// `v` brought from bit depth `bd` to eight bits: rounded division by
/// `4^(bd - 8)`.
pub fn normalise_energy(v: u64, bd: u8) -> (r: u64)
    requires
        bd <= 8 || bd == 10 || bd == 12,
        v <= 0x400_0000_0000,
    ensures
        r == normalised_sse(v as int, bd as int),
        r <= v,
{
    proof {
        crate::arith::lemma_pow2i_values();
    }
    if bd == 10 {
        (v + 8) / 16
    } else if bd == 12 {
        (v + 128) / 256
    } else {
        v
    }
}

/// What is lost with a type. Without coefficients it is the whole residual.
/// Otherwise it is measured in samples where only the mean is coded, in the
/// transform domain where the plan says so, and in samples again for all else,
/// but at least what the transform domain says of a strong residual: one whose
/// mean square is 16384 or more. A strong 64x64 block, most of whose energy is
/// outside the coefficients it keeps, loses what they lose and all the rest.
pub proof fn law_losses_are_measured_where_asked(plan: TypeSearchPlan, o: TypeOutcome)
    requires
        plan.valid(),
    ensures
        ({
            let (dist, sse) = plan.measure(o);
            let whole = plan.block_sse as int;
            let side = crate::tx_search::TXS_W[plan.tx_size as int]
                * crate::tx_search::TXS_H[plan.tx_size as int];
            let strong = whole >= 16384 * side;
            let (px, tx) = (o.px_dist as int, o.tx_dist as int);
            let mixed = o.eob > 0 && !plan.dc_only_blk && !plan.use_tx_domain;
            let outside = whole - o.tx_sse;
            &&& o.eob == 0 ==> dist == whole && sse == whole
            &&& o.eob > 0 && plan.dc_only_blk ==> dist == px && sse == whole
            &&& o.eob > 0 && !plan.dc_only_blk && plan.use_tx_domain ==> dist == tx && sse
                == o.tx_sse
            &&& mixed ==> sse == whole
            &&& mixed && !strong ==> dist == px
            &&& mixed && strong && (plan.tx_size != 4 || 2 * outside < o.tx_sse) ==> dist == if px
                > tx {
                px
            } else {
                tx
            }
            &&& mixed && strong && plan.tx_size == 4 && 2 * outside >= o.tx_sse ==> dist == tx
                + outside
        }),
{
    crate::tx_search::law_tx_dimensions(plan.tx_size as int);
}

/// The winner pays for its coefficients and, where it has any, for the signal
/// of its type; its cost is that of this rate and of what is lost, and no type
/// that was tried costs less.
pub proof fn law_winner_pays_for_its_signal(
    plan: TypeSearchPlan,
    outs: Seq<TypeOutcome>,
    ref_best_rd: int,
    i: int,
    u: int,
)
    requires
        plan.valid(),
        outs.len() >= TX_TYPES,
        0 <= i <= 16,
        forall|t: int| 0 <= t < TX_TYPES ==> (#[trigger] outs[t]).valid(),
        forall|t: int| 0 <= t < TX_TYPES ==> plan.measure(#[trigger] outs[t]).0 >= 0,
        SearchModel::after(plan, outs, ref_best_rd, i).tried.contains(u),
    ensures
        ({
            let paid = |o: TypeOutcome|
                if o.eob == 0 {
                    o.coeff_rate as int
                } else {
                    o.coeff_rate + o.type_rate
                };
            let s = SearchModel::after(plan, outs, ref_best_rd, i);
            let m = plan.rdmult as int;
            s.best matches Some(b) && {
                let o = outs[b.tx_type];
                &&& s.tried.contains(b.tx_type)
                &&& b.rate == paid(o)
                &&& b.dist == plan.measure(o).0
                &&& b.sse == plan.measure(o).1
                &&& b.rd == (b.rate * m + 256) / 512 + 128 * b.dist
                &&& b.eob == o.eob
                &&& b.qcoeff == o.qcoeff@
                &&& b.dqcoeff == o.dqcoeff@
                &&& b.rd <= (paid(outs[u]) * m + 256) / 512 + 128 * plan.measure(outs[u]).0
            }
        }),
{
    SearchModel::law_winner_is_cheapest(plan, outs, ref_best_rd, i);
}

/// Without early exits the search goes through the whole order: it never stops,
/// and every type that is allowed has been tried once its place was reached.
/// Whatever the exits, no type is tried that is not allowed.
pub proof fn law_search_tries_what_is_allowed(
    plan: TypeSearchPlan,
    outs: Seq<TypeOutcome>,
    ref_best_rd: int,
    i: int,
    k: int,
)
    requires
        0 <= i <= 16,
    ensures
        forall|t: int| #[trigger]
            SearchModel::after(plan, outs, ref_best_rd, i).tried.contains(t) ==> 0 <= t < 16
                && plan.allows(t as usize),
        plan.adaptive_txb_search_level <= 0 && !plan.skip_tx_search ==> !SearchModel::after(
            plan,
            outs,
            ref_best_rd,
            i,
        ).stopped,
        plan.adaptive_txb_search_level <= 0 && !plan.skip_tx_search && 0 <= k < i && plan.allows(
            plan.txk_map[k],
        ) ==> SearchModel::after(plan, outs, ref_best_rd, i).tried.contains(plan.txk_map[k] as int),
    decreases i,
{
    if i > 0 {
        law_search_tries_what_is_allowed(plan, outs, ref_best_rd, i - 1, k);
    }
}

/// The trellis is left out for a stronger residual before it is for a weaker
/// one, and for a finer quantizer or a lower threshold before a coarser or
/// higher one; a policy against it always counts.
pub proof fn law_stronger_residual_needs_no_trellis(
    mse: int,
    threshold: int,
    qstep: int,
    more: int,
    lower: int,
    finer: int,
)
    requires
        0 <= mse <= more,
        0 <= lower <= threshold,
        0 <= finer <= qstep,
        trellis_off(false, mse, threshold, qstep),
    ensures
        trellis_off(false, more, lower, finer),
        trellis_off(true, 0, threshold, qstep),
        !trellis_off(false, threshold * qstep * qstep, threshold, qstep),
{
    assert(lower * finer * finer <= threshold * qstep * qstep) by (nonlinear_arith)
        requires
            0 <= lower <= threshold,
            0 <= finer <= qstep,
    ;
}

/// Losses are measured in the transform domain only where it is asked for, on
/// residuals that reach the threshold and blocks that are not excluded; the
/// winner is measured again only where several types were held against each
/// other there.
pub proof fn law_transform_domain_is_asked_for(
    kind: int,
    mse: int,
    threshold: int,
    excluded: bool,
    single: bool,
)
    requires
        kind >= 0,
    ensures
        ({
            let (tx, again) = distortion_domain(kind, mse, threshold, excluded, single);
            &&& (tx ==> kind > 0 && mse >= threshold && !excluded)
            &&& (again ==> tx && kind == 1 && !single)
            &&& (kind == 2 ==> (tx <==> mse >= threshold && !excluded) && !again)
            &&& (kind == 1 && !single ==> (tx <==> mse >= threshold && !excluded) && again == tx)
            &&& (kind == 1 && single ==> !tx)
        }),
{
}

/// Steps and energies are brought to eight bits: what grows with the samples,
/// a step four times at ten bits and sixteen at twelve, an energy by the square
/// of that, comes out the same.
pub proof fn law_depths_have_the_same_step(dequant: int, sse: int)
    requires
        0 <= dequant,
        0 <= sse,
    ensures
        ac_qstep(4 * dequant, 10) == ac_qstep(dequant, 8),
        ac_qstep(16 * dequant, 12) == ac_qstep(dequant, 8),
        8 * ac_qstep(dequant, 8) <= dequant < 8 * ac_qstep(dequant, 8) + 8,
        normalised_sse(sse, 8) == sse,
        normalised_sse(16 * sse, 10) == sse,
        normalised_sse(256 * sse, 12) == sse,
{
    assert(pow2i(3) == 8 && pow2i(5) == 32 && pow2i(7) == 128 && pow2i(4) == 16 && pow2i(8) == 256)
        by {
        reveal_with_fuel(pow2i, 10);
    }
    assert((4 * dequant) / 32 == dequant / 8);
    assert((16 * dequant) / 128 == dequant / 8);
    assert((16 * sse + 8) / 16 == sse);
    assert((256 * sse + 128) / 256 == sse);
}

} // verus!
