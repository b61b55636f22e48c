//! The choice of the next guess: the one that maximises the expected information.

use vstd::prelude::*;

use crate::flags::{collect_first, collect_set, lemma_none_set, lemma_set_positions, set_count, set_positions};
use crate::ieee::Double;
use crate::partition::{
    counts, lemma_cosine_weight_counts_the_scores, lemma_rank_weight_counts_the_slots,
    partition_entropy, rank_partition_entropy, rank_slots, slots, told_apart, weighs, Entropy,
    RankSlot, Weight, CLOSE_ENTROPY,
};
use crate::scoring::{one, Scoring};
use crate::solver::Solver;
use crate::stride::{lemma_sample_keeps_order, lemma_sampled, sampled, stride_sample};

verus! {

/// Frequent words always tried as probes, candidates or not. A rank score says something only
/// when the guess is a close neighbour of the secret, so the best probes are hubs.
pub const RANK_HUBS: usize = 300;

/// Not a number, as a bit pattern: an opener is played without weighing it.
pub const UNWEIGHED: u64 = 0x7ff8_0000_0000_0000;

/// Minus infinity, as a bit pattern.
pub const LEAST: u64 = 0xfff0_0000_0000_0000;

/// The guess to play.
#[derive(Clone, Copy, Debug)]
pub struct Choice {
    pub idx: u32,
    pub entropy: Double,
    pub buckets: usize,
    pub probes: usize,
    pub candidates: usize,
}

/// What there is to do before the next guess.
pub enum Plan {
    /// Nothing: play this.
    Play(Choice),
    /// Weigh each probe over the targets, and pick one.
    Weigh { probes: Vec<u32>, targets: Vec<u32> },
}

/// How the caller measures guesses.
pub struct Gauge<S, R, H> {
    /// The rounded cosine of a probe and a target, in rounding steps.
    pub slot: S,
    /// Where a probe stands among the neighbours of a target.
    pub place: R,
    /// The Shannon entropy of a partition, from its bucket sizes.
    pub bits: H,
    /// `(top − floor) / alpha` of the rank model.
    pub floor_quotient: Double,
    /// Last rank that the table resolves.
    pub reach: Double,
}

/// The gauge answers for every pair of the first `n` words.
pub open spec fn gauges<
    S: Fn(u32, u32) -> i32,
    R: Fn(u32, u32) -> Option<RankSlot>,
    H: Fn(&Vec<usize>) -> Entropy,
>(g: Gauge<S, R, H>, n: nat) -> bool {
    &&& forall|p: u32, t: u32| p < n && t < n ==> #[trigger] call_requires(g.slot, (p, t))
    &&& forall|p: u32, t: u32| p < n && t < n ==> #[trigger] call_requires(g.place, (p, t))
    &&& forall|v: &Vec<usize>| #[trigger] call_requires(g.bits, (v,))
}

/// The weight of a guess that tells nothing.
pub open spec fn no_weight() -> Weight {
    Weight {
        entropy: Entropy { bits: Double { bits: 0 }, bar: Double { bits: CLOSE_ENTROPY } },
        buckets: 0,
    }
}

/// A weighed probe.
#[derive(Clone, Copy, Debug)]
pub struct Weighed {
    pub weight: Weight,
    pub idx: u32,
}

/// Worse than any probe.
pub open spec fn no_probe() -> Weighed {
    Weighed {
        weight: Weight {
            entropy: Entropy { bits: Double { bits: LEAST }, bar: Double { bits: LEAST } },
            buckets: 0,
        },
        idx: u32::MAX,
    }
}

/// The word is a candidate.
pub open spec fn is_live(alive: Seq<bool>, i: u32) -> bool {
    i != u32::MAX && alive[i as int]
}

/// Higher entropy wins; ties go to a live candidate (it might be the secret), then to the more
/// frequent word.
pub open spec fn better(alive: Seq<bool>, a: Weighed, b: Weighed) -> Weighed {
    if a.weight.entropy.bar.below(b.weight.entropy.bits) {
        b
    } else if b.weight.entropy.bar.below(a.weight.entropy.bits) {
        a
    } else if is_live(alive, a.idx) != is_live(alive, b.idx) {
        if is_live(alive, b.idx) {
            b
        } else {
            a
        }
    } else if b.idx < a.idx {
        b
    } else {
        a
    }
}

/// The best of the first `m` probes, compared one after the other.
pub open spec fn best_of(alive: Seq<bool>, probes: Seq<u32>, weights: Seq<Weight>, m: int) -> Weighed
    decreases m,
{
    if m <= 0 {
        no_probe()
    } else {
        better(
            alive,
            best_of(alive, probes, weights, m - 1),
            Weighed { weight: weights[m - 1], idx: probes[m - 1] },
        )
    }
}

/// Compares two weighed probes.
fn pick_better(alive: &Vec<bool>, a: Weighed, b: Weighed) -> (r: Weighed)
    requires
        a.idx == u32::MAX || a.idx < alive@.len(),
        b.idx < alive@.len(),
    ensures
        r == better(alive@, a, b),
{
    if a.weight.entropy.bar.lt(b.weight.entropy.bits) {
        return b;
    }
    if b.weight.entropy.bar.lt(a.weight.entropy.bits) {
        return a;
    }
    let live_a: bool = a.idx != u32::MAX && alive[a.idx as usize];
    let live_b: bool = b.idx != u32::MAX && alive[b.idx as usize];
    match (live_a, live_b) {
        (false, true) => b,
        (true, false) => a,
        _ => {
            if b.idx < a.idx {
                b
            } else {
                a
            }
        },
    }
}

impl<'a> Solver<'a> {
    /// The plausible words that nobody banned.
    pub open spec fn hubs(self) -> Seq<bool> {
        Seq::new(
            self.vectors.words@.len(),
            |i: int| self.vectors.plausible@[i] && !self.banned@[i],
        )
    }

    /// The first hubs, in frequency order.
    pub open spec fn first_hubs(self) -> Seq<u32> {
        set_positions(self.hubs()).take(
            if RANK_HUBS <= set_count(self.hubs()) {
                RANK_HUBS as int
            } else {
                set_count(self.hubs()) as int
            },
        )
    }

    /// Words worth evaluating as the next guess: a sample of the candidates, and in a rank game
    /// the hubs too, each once and in frequency order.
    pub open spec fn probes(self) -> Seq<u32> {
        let sample = sampled(set_positions(self.alive@), self.max_probes as nat);
        if self.scoring is Rank {
            set_positions(
                Seq::new(
                    self.vectors.words@.len(),
                    |i: int| sample.contains(i as u32) || self.first_hubs().contains(i as u32),
                ),
            )
        } else {
            sample
        }
    }

    /// `w` is the weight of probe `p` over some targets.
    pub open spec fn weight_over<
        S: Fn(u32, u32) -> i32,
        R: Fn(u32, u32) -> Option<RankSlot>,
        H: Fn(&Vec<usize>) -> Entropy,
    >(self, g: Gauge<S, R, H>, p: u32, targets: Seq<u32>, w: Weight) -> bool {
        match self.scoring {
            Scoring::Cosine { .. } => exists|keys: Seq<i32>| #[trigger]
                slots(g.slot, p, targets, keys) && weighs(g.bits, keys, w),
            Scoring::Rank(_) => if self.vectors.ranks is Some {
                // answers past the floor, or past the table, cannot be told apart
                let far = g.floor_quotient.upper(one()).lower(g.reach);
                exists|keys: Seq<i32>| #[trigger]
                    rank_slots(g.place, p, targets, far, keys) && weighs(g.bits, keys, w)
            } else {
                w == no_weight()
            },
        }
    }

    /// Weighs one probe over some targets.
    pub fn entropy_over<
        S: Fn(u32, u32) -> i32,
        R: Fn(u32, u32) -> Option<RankSlot>,
        H: Fn(&Vec<usize>) -> Entropy,
    >(&self, p: u32, targets: &Vec<u32>, g: &Gauge<S, R, H>) -> (w: Weight)
        requires
            gauges(*g, self.vectors.words@.len()),
            p < self.vectors.words@.len(),
            forall|i: int|
                0 <= i < targets@.len() ==> (#[trigger] targets@[i]) < self.vectors.words@.len(),
        ensures
            self.weight_over(*g, p, targets@, w),
    {
        match self.scoring {
            Scoring::Cosine { .. } => partition_entropy(p, targets, &g.slot, &g.bits),
            Scoring::Rank(m) => match &self.vectors.ranks {
                Some(_) => {
                    let far: Double = m.floor_rank(g.floor_quotient).min(g.reach);
                    rank_partition_entropy(p, targets, far, &g.place, &g.bits)
                },
                None => Weight {
                    entropy: Entropy {
                        bits: Double { bits: 0 },
                        bar: Double { bits: CLOSE_ENTROPY },
                    },
                    buckets: 0,
                },
            },
        }
    }

    /// Expected information of playing `idx` now (entropy over the remaining candidates).
    pub fn evaluate<
        S: Fn(u32, u32) -> i32,
        R: Fn(u32, u32) -> Option<RankSlot>,
        H: Fn(&Vec<usize>) -> Entropy,
    >(&self, idx: u32, g: &Gauge<S, R, H>) -> (w: Weight)
        requires
            self.wf(),
            gauges(*g, self.vectors.words@.len()),
            idx < self.vectors.words@.len(),
        ensures
            self.weight_over(*g, idx, set_positions(self.alive@), w),
    {
        let cands = self.candidates();
        proof {
            lemma_set_positions(self.alive@);
        }
        self.entropy_over(idx, &cands, g)
    }

    /// Words worth evaluating as the next guess.
    fn probe_set(&self, cands: &Vec<u32>) -> (r: Vec<u32>)
        requires
            self.wf(),
            cands@ == set_positions(self.alive@),
        ensures
            r@ == self.probes(),
    {
        proof {
            lemma_set_positions(self.alive@);
            lemma_sampled(cands@, self.max_probes as nat);
        }
        let sample = stride_sample(cands, self.max_probes);
        if !self.scoring.is_rank() {
            return sample;
        }
        let n: usize = self.vectors.n();
        let mut open: Vec<bool> = Vec::new();
        for i in 0..n
            invariant
                self.wf(),
                n == self.vectors.words@.len(),
                open@ == self.hubs().take(i as int),
        {
            open.push(self.vectors.plausible[i] && !self.banned[i]);
            assert(open@ =~= self.hubs().take(i + 1));
        }
        assert(open@ =~= self.hubs());
        proof {
            lemma_set_positions(self.hubs());
        }
        let hubs = collect_first(&open, RANK_HUBS);
        let mut chosen: Vec<bool> = vec![false; n];
        assert forall|k: int| 0 <= k < sample@.len() implies (#[trigger] sample@[k]) < n by {
            assert(cands@.contains(sample@[k]));
        }
        for k in 0..sample.len()
            invariant
                chosen@.len() == n,
                n <= u32::MAX,
                forall|k: int| 0 <= k < sample@.len() ==> (#[trigger] sample@[k]) < n,
                forall|i: int|
                    0 <= i < n ==> (#[trigger] chosen@[i] <==> sample@.take(k as int).contains(
                        i as u32,
                    )),
        {
            let ghost was = chosen@;
            let ghost (a, b) = (sample@.take(k as int), sample@.take(k + 1));
            chosen.set(sample[k] as usize, true);
            assert(b =~= a.push(sample@[k as int]));
            assert forall|i: int| 0 <= i < n implies (#[trigger] chosen@[i] <==> b.contains(
                i as u32,
            )) by {
                lemma_push_contains(a, sample@[k as int], i as u32);
                assert(was[i] <==> a.contains(i as u32));
            }
        }
        assert(sample@.take(sample@.len() as int) =~= sample@);
        for k in 0..hubs.len()
            invariant
                chosen@.len() == n,
                n <= u32::MAX,
                n == self.vectors.words@.len(),
                forall|k: int| 0 <= k < hubs@.len() ==> (#[trigger] hubs@[k]) < n,
                forall|i: int|
                    0 <= i < n ==> (#[trigger] chosen@[i] <==> sample@.contains(i as u32)
                        || hubs@.take(k as int).contains(i as u32)),
        {
            let ghost was = chosen@;
            let ghost (a, b) = (hubs@.take(k as int), hubs@.take(k + 1));
            chosen.set(hubs[k] as usize, true);
            assert(b =~= a.push(hubs@[k as int]));
            assert forall|i: int| 0 <= i < n implies (#[trigger] chosen@[i] <==> sample@.contains(
                i as u32,
            ) || b.contains(i as u32)) by {
                lemma_push_contains(a, hubs@[k as int], i as u32);
                assert(was[i] <==> sample@.contains(i as u32) || a.contains(i as u32));
            }
        }
        assert(hubs@.take(hubs@.len() as int) =~= hubs@);
        assert(chosen@ =~= Seq::new(
            self.vectors.words@.len(),
            |i: int| sample@.contains(i as u32) || self.first_hubs().contains(i as u32),
        ));
        collect_set(&chosen)
    }

    /// The opener, if this is the first guess and nobody banned it.
    pub open spec fn opening(self) -> Option<u32> {
        let opener = match self.scoring {
            Scoring::Cosine { .. } => self.vectors.opener,
            Scoring::Rank(_) => self.vectors.rank_opener,
        };
        if self.obs@.len() == 0 && opener is Some && !self.banned@[opener->0 as int] {
            opener
        } else {
            None
        }
    }

    /// The guess that needs no weighing: the opener; the first plausible word that is not
    /// banned, once no candidate is left (word 0 if there is none); the last candidate.
    pub open spec fn obvious(self) -> Option<Choice> {
        let cands = set_positions(self.alive@);
        let open = set_positions(self.hubs());
        if self.opening() is Some {
            Some(
                Choice {
                    idx: self.opening()->0,
                    entropy: Double { bits: UNWEIGHED },
                    buckets: 0,
                    probes: 0,
                    candidates: cands.len() as usize,
                },
            )
        } else if cands.len() == 0 {
            Some(
                Choice {
                    idx: if open.len() > 0 {
                        open[0]
                    } else {
                        0
                    },
                    entropy: Double { bits: 0 },
                    buckets: 0,
                    probes: 0,
                    candidates: 0,
                },
            )
        } else if cands.len() == 1 {
            Some(
                Choice {
                    idx: cands[0],
                    entropy: Double { bits: 0 },
                    buckets: 1,
                    probes: 1,
                    candidates: 1,
                },
            )
        } else {
            None
        }
    }

    /// The choice among weighed probes.
    pub open spec fn picked(self, probes: Seq<u32>, weights: Seq<Weight>) -> Choice {
        let best = best_of(self.alive@, probes, weights, probes.len() as int);
        Choice {
            idx: best.idx,
            entropy: best.weight.entropy.bits,
            buckets: best.weight.buckets,
            probes: probes.len() as usize,
            candidates: self.alive_count,
        }
    }

    /// Decides what there is to do before the next guess.
    pub fn plan_guess(&self) -> (r: Plan)
        requires
            self.wf(),
        ensures
            match r {
                Plan::Play(c) => self.obvious() == Some(c),
                Plan::Weigh { probes, targets } => self.obvious() is None && probes@
                    == self.probes() && targets@ == sampled(
                    set_positions(self.alive@),
                    self.max_targets as nat,
                ),
            },
    {
        let cands = self.candidates();
        proof {
            lemma_set_positions(self.alive@);
        }
        if self.obs.len() == 0 {
            if let Some(op) = self.opener() {
                if !self.banned[op as usize] {
                    return Plan::Play(
                        Choice {
                            idx: op,
                            entropy: Double { bits: UNWEIGHED },
                            buckets: 0,
                            probes: 0,
                            candidates: cands.len(),
                        },
                    );
                }
            }
        }
        if cands.len() == 0 {
            let idx: u32 = self.first_open();
            return Plan::Play(
                Choice { idx, entropy: Double { bits: 0 }, buckets: 0, probes: 0, candidates: 0 },
            );
        }
        if cands.len() == 1 {
            return Plan::Play(
                Choice {
                    idx: cands[0],
                    entropy: Double { bits: 0 },
                    buckets: 1,
                    probes: 1,
                    candidates: 1,
                },
            );
        }
        let probes = self.probe_set(&cands);
        let targets = stride_sample(&cands, self.max_targets);
        Plan::Weigh { probes, targets }
    }

    /// The first plausible word that nobody banned, word 0 if there is none.
    fn first_open(&self) -> (r: u32)
        requires
            self.wf(),
        ensures
            r == if set_count(self.hubs()) > 0 {
                set_positions(self.hubs())[0]
            } else {
                0
            },
    {
        let n: usize = self.vectors.n();
        for i in 0..n
            invariant
                self.wf(),
                n == self.vectors.words@.len(),
                forall|k: int| 0 <= k < i ==> !#[trigger] self.hubs()[k],
        {
            if !self.banned[i] && self.vectors.plausible[i] {
                proof {
                    let open = set_positions(self.hubs());
                    lemma_set_positions(self.hubs());
                    assert(self.hubs()[i as int]);
                    assert(open.contains(i as u32));
                    let k = choose|k: int| 0 <= k < open.len() && open[k] == i as u32;
                    if k > 0 {
                        assert(open[0] < open[k]);
                        assert(self.hubs()[open[0] as int]);
                    }
                }
                return i as u32;
            }
        }
        proof {
            lemma_none_set(self.hubs());
        }
        0
    }

    /// Picks the best of some weighed probes.
    pub fn pick(&self, probes: &Vec<u32>, weights: &Vec<Weight>) -> (r: Choice)
        requires
            self.wf(),
            probes@.len() == weights@.len(),
            forall|i: int|
                0 <= i < probes@.len() ==> (#[trigger] probes@[i]) < self.vectors.words@.len(),
        ensures
            r == self.picked(probes@, weights@),
    {
        let mut best = Weighed {
            weight: Weight {
                entropy: Entropy { bits: Double { bits: LEAST }, bar: Double { bits: LEAST } },
                buckets: 0,
            },
            idx: u32::MAX,
        };
        for i in 0..probes.len()
            invariant
                self.wf(),
                probes@.len() == weights@.len(),
                forall|i: int|
                    0 <= i < probes@.len() ==> (#[trigger] probes@[i]) < self.vectors.words@.len(),
                best == best_of(self.alive@, probes@, weights@, i as int),
                best.idx == u32::MAX || best.idx < self.alive@.len(),
        {
            assert(probes@[i as int] < self.vectors.words@.len());
            best = pick_better(&self.alive, best, Weighed { weight: weights[i], idx: probes[i] });
        }
        Choice {
            idx: best.idx,
            entropy: best.weight.entropy.bits,
            buckets: best.weight.buckets,
            probes: probes.len(),
            candidates: self.alive_count,
        }
    }

    /// Each probe has its weight over the targets.
    pub open spec fn all_weighed<
        S: Fn(u32, u32) -> i32,
        R: Fn(u32, u32) -> Option<RankSlot>,
        H: Fn(&Vec<usize>) -> Entropy,
    >(self, g: Gauge<S, R, H>, probes: Seq<u32>, targets: Seq<u32>, weights: Seq<Weight>) -> bool {
        weights.len() == probes.len() && forall|i: int|
            0 <= i < probes.len() ==> self.weight_over(
                g,
                probes[i],
                targets,
                #[trigger] weights[i],
            )
    }

    /// Pick the guess that maximises the expected information.
    pub fn next_guess<
        S: Fn(u32, u32) -> i32,
        R: Fn(u32, u32) -> Option<RankSlot>,
        H: Fn(&Vec<usize>) -> Entropy,
    >(&self, g: &Gauge<S, R, H>) -> (r: Choice)
        requires
            self.wf(),
            gauges(*g, self.vectors.words@.len()),
        ensures
            match self.obvious() {
                Some(c) => r == c,
                None => exists|weights: Seq<Weight>| #[trigger]
                    self.all_weighed(
                        *g,
                        self.probes(),
                        sampled(set_positions(self.alive@), self.max_targets as nat),
                        weights,
                    ) && r == self.picked(self.probes(), weights),
            },
    {
        match self.plan_guess() {
            Plan::Play(c) => c,
            Plan::Weigh { probes, targets } => {
                proof {
                    lemma_probes_are_words(*self);
                    lemma_set_positions(self.alive@);
                    lemma_sampled(set_positions(self.alive@), self.max_targets as nat);
                    assert forall|i: int| 0 <= i < targets@.len() implies (#[trigger] targets@[i])
                        < self.vectors.words@.len() by {
                        assert(set_positions(self.alive@).contains(targets@[i]));
                    }
                }
                let mut weights: Vec<Weight> = Vec::new();
                for i in 0..probes.len()
                    invariant
                        gauges(*g, self.vectors.words@.len()),
                        forall|i: int|
                            0 <= i < probes@.len() ==> (#[trigger] probes@[i])
                                < self.vectors.words@.len(),
                        forall|i: int|
                            0 <= i < targets@.len() ==> (#[trigger] targets@[i])
                                < self.vectors.words@.len(),
                        weights@.len() == i,
                        forall|k: int|
                            0 <= k < i ==> self.weight_over(
                                *g,
                                probes@[k],
                                targets@,
                                #[trigger] weights@[k],
                            ),
                {
                    assert(probes@[i as int] < self.vectors.words@.len());
                    weights.push(self.entropy_over(probes[i], &targets, g));
                }
                assert(self.all_weighed(*g, probes@, targets@, weights@));
                self.pick(&probes, &weights)
            },
        }
    }
}

/// Membership in a list with one more item.
proof fn lemma_push_contains(s: Seq<u32>, x: u32, y: u32)
    ensures
        s.push(x).contains(y) <==> s.contains(y) || x == y,
{
    if s.contains(y) {
        let i = choose|i: int| 0 <= i < s.len() && s[i] == y;
        assert(s.push(x)[i] == y);
    }
    if x == y {
        assert(s.push(x)[s.len() as int] == y);
    }
}

/// Every probe is a candidate or a plausible word that nobody banned.
pub proof fn lemma_probes_are_words(s: Solver)
    requires
        s.wf(),
    ensures
        forall|k: int|
            0 <= k < s.probes().len() ==> (#[trigger] s.probes()[k]) < s.vectors.words@.len() && (
            s.alive@[s.probes()[k] as int] || (s.scoring is Rank && s.hubs()[s.probes()[k] as int])),
{
    let cands = set_positions(s.alive@);
    let sample = sampled(cands, s.max_probes as nat);
    let n = s.vectors.words@.len();
    lemma_set_positions(s.alive@);
    lemma_sampled(cands, s.max_probes as nat);
    lemma_set_positions(s.hubs());
    let chosen = Seq::new(
        n,
        |i: int| sample.contains(i as u32) || s.first_hubs().contains(i as u32),
    );
    lemma_set_positions(chosen);
    assert forall|x: u32| sample.contains(x) implies x < n && s.alive@[x as int] by {
        let k = choose|k: int| 0 <= k < sample.len() && sample[k] == x;
        assert(cands.contains(sample[k]));
    }
    assert forall|x: u32| s.first_hubs().contains(x) implies x < n && s.hubs()[x as int] by {
        let k = choose|k: int| 0 <= k < s.first_hubs().len() && s.first_hubs()[k] == x;
        assert(set_positions(s.hubs())[k] == x);
    }
    assert forall|k: int| 0 <= k < s.probes().len() implies (#[trigger] s.probes()[k]) < n && (
    s.alive@[s.probes()[k] as int] || (s.scoring is Rank && s.hubs()[s.probes()[k] as int])) by {
        if s.scoring is Rank {
            assert(s.probes() == set_positions(chosen));
            assert(chosen[s.probes()[k] as int]);
        } else {
            assert(sample.contains(s.probes()[k]));
        }
    }
}

/// The best of some probes is one of them.
pub proof fn lemma_best_is_a_probe(alive: Seq<bool>, probes: Seq<u32>, weights: Seq<Weight>, m: int)
    requires
        0 < m <= probes.len(),
        weights.len() == probes.len(),
        alive.len() <= u32::MAX,
        forall|i: int| 0 <= i < probes.len() ==> (#[trigger] probes[i]) < alive.len(),
    ensures
        exists|i: int|
            #![trigger probes[i]]
            0 <= i < m && best_of(alive, probes, weights, m) == (Weighed {
                weight: weights[i],
                idx: probes[i],
            }),
    decreases m,
{
    let last = Weighed { weight: weights[m - 1], idx: probes[m - 1] };
    assert(probes[m - 1] < alive.len());
    if m == 1 {
        assert(best_of(alive, probes, weights, 0) == no_probe());
        // nothing is below minus infinity, and no word has the number of no probe
        assert(!last.weight.entropy.bar.below(no_probe().weight.entropy.bits)) by {
            lemma_nothing_below_least(last.weight.entropy.bar);
        }
        assert(best_of(alive, probes, weights, 1) == last);
    } else {
        lemma_best_is_a_probe(alive, probes, weights, m - 1);
        let i = choose|i: int|
            #![trigger probes[i]]
            0 <= i < m - 1 && best_of(alive, probes, weights, m - 1) == (Weighed {
                weight: weights[i],
                idx: probes[i],
            });
        if best_of(alive, probes, weights, m) != last {
            assert(probes[i] < alive.len());
        }
    }
}

/// No number is below minus infinity.
proof fn lemma_nothing_below_least(x: Double)
    ensures
        !x.below(Double { bits: LEAST }),
{
}

/// A probe that beats every other by more than the margin is the one played, wherever it
/// stands among them.
pub proof fn lemma_clear_winner_is_best(
    alive: Seq<bool>,
    probes: Seq<u32>,
    weights: Seq<Weight>,
    w: int,
    m: int,
)
    requires
        0 <= w < m <= probes.len(),
        weights.len() == probes.len(),
        alive.len() <= u32::MAX,
        forall|i: int| 0 <= i < probes.len() ==> (#[trigger] probes[i]) < alive.len(),
        forall|i: int|
            #![trigger weights[i]]
            0 <= i < probes.len() && i != w ==> weights[i].entropy.bar.below(
                weights[w].entropy.bits,
            ) && !weights[w].entropy.bar.below(weights[i].entropy.bits),
    ensures
        best_of(alive, probes, weights, m) == (Weighed { weight: weights[w], idx: probes[w] }),
    decreases m,
{
    if w < m - 1 {
        lemma_clear_winner_is_best(alive, probes, weights, w, m - 1);
        assert(weights[m - 1].entropy.bar.below(weights[w].entropy.bits));
    } else if m > 1 {
        lemma_best_is_a_probe(alive, probes, weights, m - 1);
        let i = choose|i: int|
            #![trigger probes[i]]
            0 <= i < m - 1 && best_of(alive, probes, weights, m - 1) == (Weighed {
                weight: weights[i],
                idx: probes[i],
            });
        assert(weights[i].entropy.bar.below(weights[w].entropy.bits));
    } else {
        lemma_best_is_a_probe(alive, probes, weights, 1);
    }
}

/// There is something to weigh whenever no guess is obvious.
proof fn lemma_probes_exist(s: Solver)
    requires
        s.wf(),
        s.obvious() is None,
        s.max_probes > 0,
    ensures
        s.probes().len() > 0,
{
    let cands = set_positions(s.alive@);
    let sample = sampled(cands, s.max_probes as nat);
    lemma_set_positions(s.alive@);
    lemma_sampled(cands, s.max_probes as nat);
    if s.scoring is Rank {
        let n = s.vectors.words@.len();
        let chosen = Seq::new(
            n,
            |i: int| sample.contains(i as u32) || s.first_hubs().contains(i as u32),
        );
        lemma_set_positions(chosen);
        assert(sample.contains(sample[0]));
        assert(cands.contains(sample[0]));
        assert(chosen[sample[0] as int]);
    }
}

/// What is picked among the probes is one of them, and a word.
pub proof fn lemma_pick_is_a_probe(s: Solver, weights: Seq<Weight>)
    requires
        s.wf(),
        s.max_probes > 0,
        s.obvious() is None,
        weights.len() == s.probes().len(),
    ensures
        s.probes().contains(s.picked(s.probes(), weights).idx),
        s.picked(s.probes(), weights).idx < s.vectors.words@.len(),
{
    lemma_probes_exist(s);
    lemma_probes_are_words(s);
    let m = s.probes().len() as int;
    lemma_best_is_a_probe(s.alive@, s.probes(), weights, m);
    let i = choose|i: int|
        #![trigger s.probes()[i]]
        0 <= i < m && best_of(s.alive@, s.probes(), weights, m) == (Weighed {
            weight: weights[i],
            idx: s.probes()[i],
        });
    assert(s.probes()[i] < s.vectors.words@.len());
}

/// The weights are numbers, each bar lies at or above its entropy, and the bars are in the order
/// of the entropies.
pub open spec fn graded(weights: Seq<Weight>) -> bool {
    &&& forall|i: int|
        0 <= i < weights.len() ==> (#[trigger] weights[i]).entropy.bits.at_most(
            weights[i].entropy.bar,
        )
    &&& forall|i: int, j: int|
        0 <= i < weights.len() && 0 <= j < weights.len() && (#[trigger] weights[i]).entropy.bits.at_most(
            (#[trigger] weights[j]).entropy.bits,
        ) ==> weights[i].entropy.bar.at_most(weights[j].entropy.bar)
}

/// Weight `b` does not exceed weight `a` by more than the margin.
pub open spec fn no_clear_gain(a: Weight, b: Weight) -> bool {
    !a.entropy.bar.below(b.entropy.bits)
}

/// Probe `i` stands back behind the best of the first `m` probes: by at most the margin if it is
/// a candidate, or if the best one is none; by at most two margins in any case.
spec fn stands_back(alive: Seq<bool>, probes: Seq<u32>, weights: Seq<Weight>, i: int, m: int) -> bool {
    let best = best_of(alive, probes, weights, m);
    &&& is_live(alive, probes[i]) || !is_live(alive, best.idx) ==> no_clear_gain(
        best.weight,
        weights[i],
    )
    &&& is_live(alive, probes[i]) && !is_live(alive, best.idx) ==> weights[i].entropy.bits.below(
        best.weight.entropy.bits,
    )
    &&& exists|k: int| #![trigger weights[k]]
        0 <= k < m && no_clear_gain(weights[k], weights[i]) && no_clear_gain(best.weight, weights[k])
}

/// The grading of two weights.
spec fn graded_pair(a: Weight, b: Weight) -> bool {
    &&& a.entropy.bits.at_most(a.entropy.bar)
    &&& b.entropy.bits.at_most(b.entropy.bar)
    &&& a.entropy.bits.at_most(b.entropy.bits) ==> a.entropy.bar.at_most(b.entropy.bar)
}

/// Probe `w` goes on standing back when probe `b` is compared with the best one so far, `a`.
/// `v` is the probe between `w` and `a`.
proof fn lemma_stands_back_still(
    a: Weight,
    a_live: bool,
    b: Weight,
    b_live: bool,
    w: Weight,
    w_live: bool,
    v: Weight,
    takes: bool,
)
    requires
        graded_pair(a, b),
        graded_pair(w, b),
        graded_pair(v, b),
        takes == (a.entropy.bar.below(b.entropy.bits) || (!b.entropy.bar.below(a.entropy.bits)
            && b_live && !a_live)),
        w_live || !a_live ==> no_clear_gain(a, w),
        w_live && !a_live ==> w.entropy.bits.below(a.entropy.bits),
        no_clear_gain(v, w),
        no_clear_gain(a, v),
    ensures
        ({
            let (c, c_live) = if takes {
                (b, b_live)
            } else {
                (a, a_live)
            };
            &&& w_live || !c_live ==> no_clear_gain(c, w)
            &&& w_live && !c_live ==> w.entropy.bits.below(c.entropy.bits)
            &&& (no_clear_gain(v, w) && no_clear_gain(c, v)) || (no_clear_gain(a, w)
                && no_clear_gain(c, a))
        }),
{
    if a.entropy.bar.below(b.entropy.bits) {
        assert(v.entropy.bits.at_most(b.entropy.bits));
    }
}

proof fn lemma_none_stands_out(alive: Seq<bool>, probes: Seq<u32>, weights: Seq<Weight>, m: int)
    requires
        0 < m <= probes.len(),
        weights.len() == probes.len(),
        alive.len() <= u32::MAX,
        forall|i: int| 0 <= i < probes.len() ==> (#[trigger] probes[i]) < alive.len(),
        forall|i: int, j: int|
            0 <= i <= j < probes.len() ==> #[trigger] probes[i] <= #[trigger] probes[j],
        graded(weights),
    ensures
        forall|i: int|
            0 <= i < m ==> #[trigger] stands_back(alive, probes, weights, i, m),
    decreases m,
{
    let b = weights[m - 1];
    lemma_best_is_a_probe(alive, probes, weights, m);
    if m > 1 {
        lemma_none_stands_out(alive, probes, weights, m - 1);
        lemma_best_is_a_probe(alive, probes, weights, m - 1);
        let old = choose|i: int|
            #![trigger probes[i]]
            0 <= i < m - 1 && best_of(alive, probes, weights, m - 1) == (Weighed {
                weight: weights[i],
                idx: probes[i],
            });
        let a = weights[old];
        assert(probes[old] <= probes[m - 1]);
        assert(probes[old] < alive.len() && probes[m - 1] < alive.len());
        let (a_live, b_live) = (is_live(alive, probes[old]), is_live(alive, probes[m - 1]));
        let takes = a.entropy.bar.below(b.entropy.bits) || (!b.entropy.bar.below(a.entropy.bits)
            && b_live && !a_live);
        let best = best_of(alive, probes, weights, m);
        assert(best.weight == if takes {
            b
        } else {
            a
        });
        assert(is_live(alive, best.idx) == if takes {
            b_live
        } else {
            a_live
        });
        assert forall|i: int| 0 <= i < m implies #[trigger] stands_back(
            alive,
            probes,
            weights,
            i,
            m,
        ) by {
            if i < m - 1 {
                assert(stands_back(alive, probes, weights, i, m - 1));
                let k = choose|k: int| #![trigger weights[k]]
                    0 <= k < m - 1 && no_clear_gain(weights[k], weights[i]) && no_clear_gain(
                        a,
                        weights[k],
                    );
                lemma_stands_back_still(
                    a,
                    a_live,
                    b,
                    b_live,
                    weights[i],
                    is_live(alive, probes[i]),
                    weights[k],
                    takes,
                );
                assert(weights[old] == a);
            } else {
                assert(weights[i] == b);
            }
        }
    } else {
        assert(weights[0] == b);
        assert(stands_back(alive, probes, weights, 0, 1));
    }
}

/// The probes are in frequency order.
proof fn lemma_probes_ascend(s: Solver)
    requires
        s.wf(),
    ensures
        forall|i: int, j: int|
            0 <= i <= j < s.probes().len() ==> #[trigger] s.probes()[i] <= #[trigger] s.probes()[j],
{
    let cands = set_positions(s.alive@);
    let sample = sampled(cands, s.max_probes as nat);
    lemma_set_positions(s.alive@);
    if s.scoring is Rank {
        let chosen = Seq::new(
            s.vectors.words@.len(),
            |i: int| sample.contains(i as u32) || s.first_hubs().contains(i as u32),
        );
        lemma_set_positions(chosen);
        assert(s.probes() == set_positions(chosen));
        assert forall|i: int, j: int| 0 <= i <= j < s.probes().len() implies #[trigger] s.probes()[i]
            <= #[trigger] s.probes()[j] by {
            if i < j {
                assert(set_positions(chosen)[i] < set_positions(chosen)[j]);
            }
        }
    } else {
        assert forall|i: int, j: int| 0 <= i <= j < s.probes().len() implies #[trigger] s.probes()[i]
            <= #[trigger] s.probes()[j] by {
            lemma_sample_keeps_order(cands, s.max_probes as nat, i, j);
        }
    }
}

/// The guess played is the best to weigh: no candidate among the probes exceeds it by more than
/// the margin, and in a cosine game, where the probes are candidates, none does at all. In a
/// rank game a candidate is preferred within the margin, so another probe may exceed it by up to
/// two: it exceeds by no more than the margin some probe that does not exceed the guess by more.
pub proof fn lemma_no_probe_stands_out(s: Solver, weights: Seq<Weight>, i: int)
    requires
        s.wf(),
        s.max_probes > 0,
        s.obvious() is None,
        weights.len() == s.probes().len(),
        graded(weights),
        0 <= i < weights.len(),
    ensures
        ({
            let best = best_of(s.alive@, s.probes(), weights, weights.len() as int);
            &&& s.picked(s.probes(), weights).idx == best.idx
            &&& s.picked(s.probes(), weights).entropy == best.weight.entropy.bits
            &&& s.scoring is Cosine ==> no_clear_gain(best.weight, weights[i])
            &&& s.alive@[s.probes()[i] as int] ==> no_clear_gain(best.weight, weights[i])
            &&& !s.alive@[best.idx as int] ==> no_clear_gain(best.weight, weights[i])
            &&& exists|k: int| #![trigger weights[k]]
                0 <= k < weights.len() && no_clear_gain(weights[k], weights[i]) && no_clear_gain(
                    best.weight,
                    weights[k],
                )
        }),
{
    lemma_probes_exist(s);
    lemma_probes_are_words(s);
    lemma_probes_ascend(s);
    let m = weights.len() as int;
    lemma_none_stands_out(s.alive@, s.probes(), weights, m);
    assert(stands_back(s.alive@, s.probes(), weights, i, m));
    assert(s.probes()[i] < s.vectors.words@.len());
    lemma_pick_is_a_probe(s, weights);
}

/// A guess is never a banned word, as long as some plausible word is not banned or some
/// candidate is left.
pub proof fn lemma_guess_is_not_banned(s: Solver, weights: Seq<Weight>)
    requires
        s.wf(),
        s.settled(),
        s.max_probes > 0,
        s.alive_count > 0 || set_count(s.hubs()) > 0,
        weights.len() == s.probes().len(),
    ensures
        match s.obvious() {
            Some(c) => c.idx < s.banned@.len() && !s.banned@[c.idx as int],
            None => s.picked(s.probes(), weights).idx < s.banned@.len() && !s.banned@[s.picked(
                s.probes(),
                weights,
            ).idx as int],
        },
{
    lemma_set_positions(s.alive@);
    lemma_set_positions(s.hubs());
    let cands = set_positions(s.alive@);
    match s.obvious() {
        Some(c) => {
            if s.opening() is None {
                if cands.len() == 0 {
                    assert(s.hubs()[set_positions(s.hubs())[0] as int]);
                } else {
                    crate::solver::lemma_candidates_are_open(s, cands[0] as int);
                }
            }
        },
        None => {
            lemma_probes_exist(s);
            lemma_probes_are_words(s);
            let m = s.probes().len() as int;
            lemma_best_is_a_probe(s.alive@, s.probes(), weights, m);
            let i = choose|i: int|
                #![trigger s.probes()[i]]
                0 <= i < m && best_of(s.alive@, s.probes(), weights, m) == (Weighed {
                    weight: weights[i],
                    idx: s.probes()[i],
                });
            let x = s.probes()[i];
            if s.alive@[x as int] {
                crate::solver::lemma_candidates_are_open(s, x as int);
            }
        },
    }
}

/// In a cosine game every guess after the opener is a candidate, as long as one is left: no
/// word is asked twice.
pub proof fn lemma_cosine_guess_is_a_candidate(s: Solver, weights: Seq<Weight>)
    requires
        s.wf(),
        s.scoring is Cosine,
        s.max_probes > 0,
        s.alive_count > 0,
        s.opening() is None,
        weights.len() == s.probes().len(),
    ensures
        match s.obvious() {
            Some(c) => s.alive@[c.idx as int],
            None => s.alive@[s.picked(s.probes(), weights).idx as int],
        },
{
    lemma_set_positions(s.alive@);
    if s.obvious() is None {
        lemma_probes_exist(s);
        lemma_probes_are_words(s);
        let m = s.probes().len() as int;
        lemma_best_is_a_probe(s.alive@, s.probes(), weights, m);
        let i = choose|i: int|
            #![trigger s.probes()[i]]
            0 <= i < m && best_of(s.alive@, s.probes(), weights, m) == (Weighed {
                weight: weights[i],
                idx: s.probes()[i],
            });
        assert(s.alive@[s.probes()[i] as int]);
    }
}

/// What a guess is worth in a cosine game: one bucket for each rounded score that the targets can
/// answer with.
pub proof fn lemma_cosine_guess_counts_the_scores<
    S: Fn(u32, u32) -> i32,
    R: Fn(u32, u32) -> Option<RankSlot>,
    H: Fn(&Vec<usize>) -> Entropy,
>(s: Solver, g: Gauge<S, R, H>, p: u32, targets: Seq<u32>, score: spec_fn(u32) -> i32, w: Weight)
    requires
        s.scoring is Cosine,
        targets.len() <= usize::MAX,
        forall|t: u32, x: i32| #[trigger] call_ensures(g.slot, (p, t), x) ==> x == score(t),
        s.weight_over(g, p, targets, w),
    ensures
        counts(g.bits, targets.map_values(score), w),
{
    let keys = choose|keys: Seq<i32>| #[trigger]
        slots(g.slot, p, targets, keys) && weighs(g.bits, keys, w);
    lemma_cosine_weight_counts_the_scores(g.slot, g.bits, p, targets, score, keys, w);
}

/// What a guess is worth in a rank game: a bucket for the guess itself, one for the targets whose
/// answer would be floored or lies past the table, and one for each slot of the others. Without
/// a table it is worth nothing.
pub proof fn lemma_rank_guess_counts_the_slots<
    S: Fn(u32, u32) -> i32,
    R: Fn(u32, u32) -> Option<RankSlot>,
    H: Fn(&Vec<usize>) -> Entropy,
>(
    s: Solver,
    g: Gauge<S, R, H>,
    p: u32,
    targets: Seq<u32>,
    at: spec_fn(u32) -> Option<RankSlot>,
    w: Weight,
)
    requires
        s.scoring is Rank,
        targets.len() <= usize::MAX,
        forall|t: u32, x: Option<RankSlot>| #[trigger]
            call_ensures(g.place, (p, t), x) ==> x == at(t),
        forall|t: u32|
            (#[trigger] at(t)) matches Some(s) ==> i32::MIN < s.slot < i32::MAX,
        s.weight_over(g, p, targets, w),
    ensures
        s.vectors.ranks is Some ==> exists|keys: Seq<i32>|
            {
                &&& #[trigger] counts(g.bits, keys, w)
                &&& told_apart(p, targets, at, g.floor_quotient.upper(one()).lower(g.reach), keys)
            },
        s.vectors.ranks is None ==> w.buckets == 0 && w.entropy.bits == (Double { bits: 0 }),
{
    if s.vectors.ranks is Some {
        let far = g.floor_quotient.upper(one()).lower(g.reach);
        let keys = choose|keys: Seq<i32>| #[trigger]
            rank_slots(g.place, p, targets, far, keys) && weighs(g.bits, keys, w);
        lemma_rank_weight_counts_the_slots(g.place, g.bits, p, targets, at, far, keys, w);
    }
}

/// Among probes that are worth the same, a candidate is played if there is one, and the most
/// frequent one of its kind.
pub proof fn lemma_ties_go_to_candidates(
    alive: Seq<bool>,
    probes: Seq<u32>,
    weights: Seq<Weight>,
    m: int,
    k: int,
)
    requires
        0 <= k < m <= probes.len(),
        weights.len() == probes.len(),
        alive.len() <= u32::MAX,
        forall|i: int| 0 <= i < probes.len() ==> (#[trigger] probes[i]) < alive.len(),
        forall|i: int, j: int|
            #![trigger weights[i], weights[j]]
            0 <= i < probes.len() && 0 <= j < probes.len() ==> !weights[i].entropy.bar.below(
                weights[j].entropy.bits,
            ),
    ensures
        ({
            let best = best_of(alive, probes, weights, m).idx;
            &&& best < alive.len()
            &&& alive[probes[k] as int] ==> alive[best as int]
            &&& alive[probes[k] as int] == alive[best as int] ==> best <= probes[k]
        }),
    decreases m,
{
    lemma_best_is_a_probe(alive, probes, weights, m);
    assert(probes[m - 1] < alive.len());
    if m > 1 {
        lemma_best_is_a_probe(alive, probes, weights, m - 1);
        let i = choose|i: int|
            #![trigger probes[i]]
            0 <= i < m - 1 && best_of(alive, probes, weights, m - 1) == (Weighed {
                weight: weights[i],
                idx: probes[i],
            });
        assert(probes[i] < alive.len());
        assert(!weights[i].entropy.bar.below(weights[m - 1].entropy.bits));
        assert(!weights[m - 1].entropy.bar.below(weights[i].entropy.bits));
        if k < m - 1 {
            lemma_ties_go_to_candidates(alive, probes, weights, m - 1, k);
        }
    }
}

/// The first guess is the opener of the game, if it has one that nobody banned.
pub proof fn lemma_first_guess_is_the_opener(s: Solver, i: u32)
    requires
        s.wf(),
        s.obs@.len() == 0,
        !s.banned@[i as int],
        s.scoring is Cosine ==> s.vectors.opener == Some(i),
        s.scoring is Rank ==> s.vectors.rank_opener == Some(i),
    ensures
        s.obvious() matches Some(c) && c.idx == i && c.entropy.nan() && c.candidates
            == s.alive_count,
{
    lemma_set_positions(s.alive@);
}

/// Once a score is known the opener has no say: a single candidate is played, and where none is
/// left the most frequent plausible word that nobody banned. Otherwise probes are weighed.
pub proof fn lemma_few_candidates_need_no_weighing(s: Solver, j: u32)
    requires
        s.wf(),
        s.obs@.len() > 0,
        j < s.vectors.words@.len(),
    ensures
        s.alive_count >= 2 <==> s.obvious() is None,
        s.alive_count == 1 && s.alive@[j as int] ==> (s.obvious() matches Some(c)
            && c.idx == j),
        s.alive_count == 0 && s.vectors.plausible@[j as int] && !s.banned@[j as int]
            ==> (s.obvious() matches Some(c) && c.idx <= j && s.vectors.plausible@[c.idx as int]
            && !s.banned@[c.idx as int]),
{
    lemma_set_positions(s.alive@);
    lemma_set_positions(s.hubs());
    let cands = set_positions(s.alive@);
    let open = set_positions(s.hubs());
    if s.alive@[j as int] {
        assert(cands.contains(j));
    }
    if s.alive_count == 0 && s.hubs()[j as int] {
        assert(open.contains(j));
        let k = choose|k: int| 0 <= k < open.len() && open[k] == j;
        if k > 0 {
            assert(open[0] < open[k]);
        }
    }
}

/// No candidate is left out while there are few of them: with no more candidates than probes are
/// wanted, each of them is one.
pub proof fn lemma_few_candidates_are_all_probes(s: Solver, j: u32)
    requires
        s.wf(),
        s.alive_count <= s.max_probes,
        j < s.vectors.words@.len(),
        s.alive@[j as int],
    ensures
        s.probes().contains(j),
{
    lemma_set_positions(s.alive@);
    let cands = set_positions(s.alive@);
    assert(cands.contains(j));
    if s.scoring is Rank {
        let sample = sampled(cands, s.max_probes as nat);
        let chosen = Seq::new(
            s.vectors.words@.len(),
            |i: int| sample.contains(i as u32) || s.first_hubs().contains(i as u32),
        );
        lemma_set_positions(chosen);
        assert(chosen[j as int]);
    }
}

/// A rank game always weighs the three hundred most frequent plausible words that nobody banned,
/// candidates or not, and weighs no word twice.
pub proof fn lemma_hubs_are_probes(s: Solver, k: int)
    requires
        s.wf(),
        s.scoring is Rank,
    ensures
        0 <= k < 300 && k < set_count(s.hubs()) ==> s.probes().contains(set_positions(s.hubs())[k]),
        forall|a: int, b: int|
            0 <= a < b < s.probes().len() ==> #[trigger] s.probes()[a] < #[trigger] s.probes()[b],
        forall|i: int|
            0 <= i < s.vectors.words@.len() ==> (#[trigger] s.hubs()[i] <==> s.vectors.plausible@[i]
                && !s.banned@[i]),
{
    let sample = sampled(set_positions(s.alive@), s.max_probes as nat);
    let chosen = Seq::new(
        s.vectors.words@.len(),
        |i: int| sample.contains(i as u32) || s.first_hubs().contains(i as u32),
    );
    lemma_set_positions(chosen);
    assert(s.probes() == set_positions(chosen));
    if 0 <= k < 300 && k < set_count(s.hubs()) {
        lemma_set_positions(s.hubs());
        let i = set_positions(s.hubs())[k];
        assert(s.first_hubs()[k] == i);
        assert(s.first_hubs().contains(i));
        assert(chosen[i as int]);
    }
}

/// The choice among weighed probes tells how many there were, and of how many candidates.
pub proof fn lemma_pick_tells_its_numbers(s: Solver, weights: Seq<Weight>)
    requires
        s.wf(),
        s.max_probes > 0,
        s.obvious() is None,
        weights.len() == s.probes().len(),
    ensures
        ({
            let c = s.picked(s.probes(), weights);
            &&& c.candidates == s.alive_count
            &&& c.probes == s.probes().len()
            &&& exists|i: int|
                #![trigger weights[i]]
                0 <= i < weights.len() && c.idx == s.probes()[i] && c.entropy
                    == weights[i].entropy.bits && c.buckets == weights[i].buckets
        }),
{
    lemma_probes_exist(s);
    lemma_probes_are_words(s);
    lemma_probe_count(s);
    let m = s.probes().len() as int;
    lemma_best_is_a_probe(s.alive@, s.probes(), weights, m);
    let i = choose|i: int|
        #![trigger s.probes()[i]]
        0 <= i < m && best_of(s.alive@, s.probes(), weights, m) == (Weighed {
            weight: weights[i],
            idx: s.probes()[i],
        });
    assert(weights[i].buckets == s.picked(s.probes(), weights).buckets);
}

/// There are no more probes than a machine word counts.
proof fn lemma_probe_count(s: Solver)
    requires
        s.wf(),
    ensures
        s.probes().len() <= u32::MAX,
{
    lemma_set_positions(s.alive@);
    lemma_sampled(set_positions(s.alive@), s.max_probes as nat);
    let sample = sampled(set_positions(s.alive@), s.max_probes as nat);
    let chosen = Seq::new(
        s.vectors.words@.len(),
        |i: int| sample.contains(i as u32) || s.first_hubs().contains(i as u32),
    );
    lemma_set_positions(chosen);
}

} // verus!
