//! A Cémantix solver that can also use the ‰ ranks of the server as constraints.
//!
//! Rank constraints are off by default: the server ranks over its own filtered lexicon, so our
//! full-vocabulary ranks do not match.

use vstd::prelude::*;

use crate::cosine::{cosine, measures};
use crate::flags::{
    collect_first, collect_set, count_set, lemma_clear_one, lemma_none_set, lemma_set_positions,
    lemma_subset_count, set_count, set_positions,
};
use crate::guess::{no_probe, Choice, Weighed, LEAST, UNWEIGHED};
use crate::ieee::{lemma_double_order_is_numeric, Double, Single};
use crate::order::positions;
use crate::partition::{partition_entropy, slots, weighs, Entropy, Weight};
use crate::scoring::{TOLS_CEMANTIX, TOL_LEVELS};
use crate::solver::{any, ObserveInfo, MAX_PROBES, MAX_TARGETS};
use crate::stride::{lemma_sampled, sampled, stride_sample};
use crate::vectors::{similarities_to, Vectors};

verus! {

/// Rank constraints cost one full matrix product per candidate: they are only applied on small
/// sets, this small when the guess has a rank and that small when it has none.
pub const RANK_MAX_CANDS_IN_TOP: usize = 120;

pub const RANK_MAX_CANDS_OUT: usize = 20;

/// By how much a rank may be off.
pub const RANK_SLACK: i64 = 3;

/// A guess without a rank has at least this many words before it.
pub const RANK_OUT: usize = 995;

/// One answer of the server: the cosine, and the ‰ rank if the guess is among the nearest.
#[derive(Clone, Copy, Debug)]
pub struct Observation {
    pub idx: u32,
    pub score: Double,
    pub percentile: Option<u32>,
}

/// The solver.
pub struct Solver<'a> {
    pub model: &'a Vectors,
    pub alive: Vec<bool>,
    pub banned: Vec<bool>,
    pub restricted: bool,
    pub use_rank: bool,
    pub tol_level: usize,
    pub obs: Vec<Observation>,
    /// For each observation and each word, the distance between its cosine with the guess and
    /// the score.
    pub gaps: Vec<Vec<Double>>,
    pub alive_count: usize,
}

/// The tolerance of a level.
pub open spec fn tolerance(level: int) -> Double {
    Double { bits: TOLS_CEMANTIX[level] }
}

/// Word `j` is compatible with the score of an observation. A gap that is no number does not
/// rule a word out.
pub open spec fn in_reach(o: Observation, gaps: Seq<Double>, level: int, j: int) -> bool {
    j != o.idx && !tolerance(level).below(gaps[j])
}

/// The words other than `c` and the guess that are more similar to `c` than the guess is, by
/// more than the margin that `margin` adds.
pub open spec fn closer_words<F: Fn(u32, u32) -> Single, B: Fn(Single) -> Single>(
    sim: F,
    margin: B,
    n: nat,
    c: u32,
    g: u32,
) -> Seq<bool> {
    Seq::new(
        n,
        |w: int|
            w != c && w != g && raised(margin, cosine(sim, g, c)).below(cosine(sim, w as u32, c)),
    )
}

/// `margin` answers for every number, and always the same.
pub open spec fn raises<B: Fn(Single) -> Single>(margin: B) -> bool {
    &&& forall|s: Single| #[trigger] call_requires(margin, (s,))
    &&& forall|s: Single, a: Single, b: Single| #[trigger]
        call_ensures(margin, (s,), a) && #[trigger] call_ensures(margin, (s,), b) ==> a == b
}

/// A similarity with its margin.
pub open spec fn raised<B: Fn(Single) -> Single>(margin: B, s: Single) -> Single {
    choose|r: Single| call_ensures(margin, (s,), r)
}

/// The guess sits at the right position among the neighbours of a candidate, `closer` being the
/// number of words before it.
pub open spec fn rank_agrees(percentile: Option<u32>, closer: nat) -> bool {
    match percentile {
        Some(p) => -RANK_SLACK <= closer - (999 - p) <= RANK_SLACK,
        None => closer >= RANK_OUT,
    }
}

/// The candidates that a rank leaves over. The constraint is soft: it is only applied when there
/// are few candidates, and never wipes them out.
pub open spec fn rank_narrowed<F: Fn(u32, u32) -> Single, B: Fn(Single) -> Single>(
    alive: Seq<bool>,
    o: Observation,
    sim: F,
    margin: B,
) -> Seq<bool> {
    let count = set_count(alive);
    let limit = if o.percentile is Some {
        RANK_MAX_CANDS_IN_TOP
    } else {
        RANK_MAX_CANDS_OUT
    };
    let keep = Seq::new(
        alive.len(),
        |c: int|
            alive[c] && rank_agrees(
                o.percentile,
                set_count(closer_words(sim, margin, alive.len(), c as u32, o.idx)),
            ),
    );
    if count == 0 || count > limit || !any(keep) {
        alive
    } else {
        keep
    }
}

/// The candidates that the ranks of the first `m` observations leave over, one after the other.
pub open spec fn rank_narrowed_by<F: Fn(u32, u32) -> Single, B: Fn(Single) -> Single>(
    alive: Seq<bool>,
    obs: Seq<Observation>,
    sim: F,
    margin: B,
    m: int,
) -> Seq<bool>
    decreases m,
{
    if m <= 0 {
        alive
    } else {
        rank_narrowed(rank_narrowed_by(alive, obs, sim, margin, m - 1), obs[m - 1], sim, margin)
    }
}

impl<'a> Solver<'a> {
    /// The tables agree on the number of words, and the count of candidates is right.
    pub open spec fn wf(self) -> bool {
        let n = self.model.words@.len();
        &&& self.model.wf()
        &&& self.alive@.len() == n
        &&& self.banned@.len() == n
        &&& self.tol_level < TOL_LEVELS
        &&& self.gaps@.len() == self.obs@.len()
        &&& forall|k: int|
            #![trigger self.obs@[k]]
            #![trigger self.gaps@[k]]
            0 <= k < self.obs@.len() ==> self.obs@[k].idx < n && self.gaps@[k]@.len() == n
        &&& self.alive_count == set_count(self.alive@)
    }

    /// Word `j` is compatible with the score of observation number `k`.
    pub open spec fn passes(self, k: int, level: int, j: int) -> bool {
        in_reach(self.obs@[k], self.gaps@[k]@, level, j)
    }

    /// The words compatible with the scores of the first `m` observations.
    pub open spec fn score_field(self, restricted: bool, level: int, m: int) -> Seq<bool> {
        Seq::new(
            self.model.words@.len(),
            |j: int|
                !self.banned@[j] && (!restricted || self.model.plausible@[j]) && forall|k: int|
                    0 <= k < m ==> #[trigger] self.passes(k, level, j),
        )
    }

    /// The words compatible with everything seen so far.
    pub open spec fn field<F: Fn(u32, u32) -> Single, B: Fn(Single) -> Single>(
        self,
        restricted: bool,
        level: int,
        sim: F,
        margin: B,
    ) -> Seq<bool> {
        let m = self.obs@.len() as int;
        let by_score = self.score_field(restricted, level, m);
        if self.use_rank {
            rank_narrowed_by(by_score, self.obs@, sim, margin, m)
        } else {
            by_score
        }
    }

    pub fn new(model: &'a Vectors) -> (r: Self)
        requires
            model.wf(),
        ensures
            r.wf(),
            *r.model == *model,
            r.alive@ == model.plausible@,
            r.banned@ == Seq::new(model.words@.len(), |j: int| false),
            r.restricted,
            !r.use_rank,
            r.tol_level == 0,
            r.obs@.len() == 0,
    {
        let n: usize = model.n();
        let alive = model.plausible.clone();
        assert(alive@ =~= model.plausible@);
        let alive_count: usize = count_set(&alive);
        let banned: Vec<bool> = vec![false; n];
        assert(banned@ =~= Seq::new(n as nat, |j: int| false));
        Solver {
            model,
            alive,
            banned,
            restricted: true,
            use_rank: false,
            tol_level: 0,
            obs: Vec::new(),
            gaps: Vec::new(),
            alive_count,
        }
    }

    /// Current tolerance.
    pub fn tol(&self) -> (r: Double)
        requires
            self.tol_level < TOL_LEVELS,
        ensures
            r == tolerance(self.tol_level as int),
    {
        Double { bits: TOLS_CEMANTIX[self.tol_level] }
    }

    /// Strikes a word out for good.
    pub fn ban(&mut self, idx: u32)
        requires
            old(self).wf(),
            idx < old(self).model.words@.len(),
        ensures
            final(self).wf(),
            final(self).model == old(self).model,
            final(self).restricted == old(self).restricted,
            final(self).use_rank == old(self).use_rank,
            final(self).tol_level == old(self).tol_level,
            final(self).obs@ == old(self).obs@,
            final(self).gaps@ == old(self).gaps@,
            final(self).banned@ == old(self).banned@.update(idx as int, true),
            final(self).alive@ == old(self).alive@.update(idx as int, false),
    {
        proof {
            if self.alive@[idx as int] {
                lemma_clear_one(self.alive@, idx as int);
            } else {
                assert(self.alive@.update(idx as int, false) =~= self.alive@);
            }
        }
        self.banned.set(idx as usize, true);
        if self.alive[idx as usize] {
            self.alive.set(idx as usize, false);
            self.alive_count = self.alive_count - 1;
        }
    }

    /// Keep only candidates whose cosine with the guess matches the observed score.
    fn apply_score(&mut self, k: usize)
        requires
            old(self).wf(),
            k < old(self).obs@.len(),
        ensures
            final(self).wf(),
            same_knowledge(*old(self), *final(self)),
            final(self).restricted == old(self).restricted,
            final(self).tol_level == old(self).tol_level,
            final(self).alive@ == score_narrowed(
                old(self).alive@,
                old(self).obs@[k as int],
                old(self).gaps@[k as int]@,
                old(self).tol_level as int,
            ),
    {
        let n: usize = self.model.n();
        let o: Observation = self.obs[k];
        let tol: Double = self.tol();
        let ghost before = *self;
        for j in 0..n
            invariant
                n == self.model.words@.len(),
                before.wf(),
                k < before.obs@.len(),
                o == before.obs@[k as int],
                tol == tolerance(before.tol_level as int),
                same_knowledge(before, *self),
                self.restricted == before.restricted,
                self.tol_level == before.tol_level,
                self.alive_count == before.alive_count,
                self.alive@.len() == n,
                forall|i: int|
                    0 <= i < n ==> #[trigger] self.alive@[i] == (before.alive@[i] && (i >= j
                        || in_reach(
                        o,
                        before.gaps@[k as int]@,
                        before.tol_level as int,
                        i,
                    ))),
        {
            assert(before.gaps@[k as int]@.len() == n);
            if self.alive[j] {
                if j as u32 == o.idx || tol.lt(self.gaps[k][j]) {
                    self.alive.set(j, false);
                }
            }
        }
        self.alive_count = count_set(&self.alive);
        assert(self.alive@ =~= score_narrowed(
            before.alive@,
            o,
            before.gaps@[k as int]@,
            before.tol_level as int,
        ));
    }

    /// Counts the words that sit between a candidate and the guess.
    fn count_closer<F: Fn(u32, u32) -> Single, B: Fn(Single) -> Single>(
        &self,
        c: u32,
        g: u32,
        sim: &F,
        margin: &B,
    ) -> (r: usize)
        requires
            self.model.words@.len() <= u32::MAX,
            measures(*sim, self.model.words@.len()),
            raises(*margin),
            c < self.model.words@.len(),
            g < self.model.words@.len(),
        ensures
            r == set_count(closer_words(*sim, *margin, self.model.words@.len(), c, g)),
            r <= self.model.words@.len(),
    {
        let n: usize = self.model.n();
        let buf = self.model.dots(c, sim);
        let bar: Single = margin(buf[g as usize]);
        let ghost all = closer_words(*sim, *margin, n as nat, c, g);
        let mut closer: Vec<bool> = Vec::new();
        for w in 0..n
            invariant
                n == self.model.words@.len(),
                n <= u32::MAX,
                buf@ == similarities_to(*sim, c, positions(n as nat)),
                bar == raised(*margin, cosine(*sim, g, c)),
                all == closer_words(*sim, *margin, n as nat, c, g),
                closer@ == all.take(w as int),
        {
            closer.push(w as u32 != c && w as u32 != g && bar.lt(buf[w]));
            assert(closer@ =~= all.take(w + 1));
        }
        assert(closer@ =~= all);
        proof {
            lemma_set_positions(all);
        }
        count_set(&closer)
    }

    /// Rank constraint (soft): the guess must sit at the right position among the candidate's
    /// neighbours. Only applied when the candidate set is small.
    fn apply_rank<F: Fn(u32, u32) -> Single, B: Fn(Single) -> Single>(
        &mut self,
        k: usize,
        sim: &F,
        margin: &B,
    )
        requires
            old(self).wf(),
            k < old(self).obs@.len(),
            measures(*sim, old(self).model.words@.len()),
            raises(*margin),
        ensures
            final(self).wf(),
            same_knowledge(*old(self), *final(self)),
            final(self).restricted == old(self).restricted,
            final(self).tol_level == old(self).tol_level,
            final(self).alive@ == rank_narrowed(
                old(self).alive@,
                old(self).obs@[k as int],
                *sim,
                *margin,
            ),
    {
        let o: Observation = self.obs[k];
        let n: usize = self.model.n();
        let limit: usize = match o.percentile {
            Some(_) => RANK_MAX_CANDS_IN_TOP,
            None => RANK_MAX_CANDS_OUT,
        };
        if self.alive_count == 0 || self.alive_count > limit {
            return;
        }
        assert(self.obs@[k as int].idx < n);
        let ghost keep_all = Seq::new(
            n as nat,
            |c: int|
                self.alive@[c] && rank_agrees(
                    o.percentile,
                    set_count(closer_words(*sim, *margin, n as nat, c as u32, o.idx)),
                ),
        );
        let mut keep: Vec<bool> = Vec::new();
        for c in 0..n
            invariant
                self.wf(),
                n == self.model.words@.len(),
                o.idx < n,
                measures(*sim, n as nat),
                raises(*margin),
                keep_all == Seq::new(
                    n as nat,
                    |c: int|
                        self.alive@[c] && rank_agrees(
                            o.percentile,
                            set_count(closer_words(*sim, *margin, n as nat, c as u32, o.idx)),
                        ),
                ),
                keep@ == keep_all.take(c as int),
        {
            let ok: bool = if self.alive[c] {
                let closer: usize = self.count_closer(c as u32, o.idx, sim, margin);
                match o.percentile {
                    Some(p) => {
                        let off: i64 = closer as i64 - (999 - p as i64);
                        -RANK_SLACK <= off && off <= RANK_SLACK
                    },
                    None => closer >= RANK_OUT,
                }
            } else {
                false
            };
            keep.push(ok);
            assert(keep@ =~= keep_all.take(c + 1));
        }
        assert(keep@ =~= keep_all);
        let kept: usize = count_set(&keep);
        proof {
            lemma_none_set(keep@);
        }
        if kept == 0 {
            return;
        }
        self.alive = keep;
        self.alive_count = kept;
    }

    /// Recomputes the candidates from everything seen so far.
    fn rebuild<F: Fn(u32, u32) -> Single, B: Fn(Single) -> Single>(&mut self, sim: &F, margin: &B)
        requires
            old(self).wf(),
            measures(*sim, old(self).model.words@.len()),
            raises(*margin),
        ensures
            final(self).wf(),
            same_knowledge(*old(self), *final(self)),
            final(self).restricted == old(self).restricted,
            final(self).tol_level == old(self).tol_level,
            final(self).alive@ == old(self).field(
                old(self).restricted,
                old(self).tol_level as int,
                *sim,
                *margin,
            ),
    {
        let n: usize = self.model.n();
        let ghost before = *self;
        let ghost level = before.tol_level as int;
        for j in 0..n
            invariant
                n == self.model.words@.len(),
                before.wf(),
                same_knowledge(before, *self),
                self.restricted == before.restricted,
                self.tol_level == before.tol_level,
                self.alive@.len() == n,
                forall|i: int|
                    0 <= i < j ==> #[trigger] self.alive@[i] == (!before.banned@[i] && (
                    !before.restricted || before.model.plausible@[i])),
        {
            let eligible: bool = !self.banned[j] && (!self.restricted || self.model.plausible[j]);
            self.alive.set(j, eligible);
        }
        self.alive_count = count_set(&self.alive);
        assert(self.alive@ =~= before.score_field(before.restricted, level, 0));
        let m: usize = self.obs.len();
        for k in 0..m
            invariant
                self.wf(),
                before.wf(),
                m == before.obs@.len(),
                level == before.tol_level,
                same_knowledge(before, *self),
                self.restricted == before.restricted,
                self.tol_level == before.tol_level,
                self.alive@ == before.score_field(before.restricted, level, k as int),
        {
            let ghost wide = self.alive@;
            self.apply_score(k);
            let ghost next = before.score_field(before.restricted, level, k + 1);
            assert forall|j: int| 0 <= j < next.len() implies self.alive@[j] == next[j] by {
                assert(before.passes(k as int, level, j) == in_reach(
                    before.obs@[k as int],
                    before.gaps@[k as int]@,
                    level,
                    j,
                ));
                if wide[j] && before.passes(k as int, level, j) {
                    assert forall|i: int| 0 <= i < k + 1 implies #[trigger] before.passes(
                        i,
                        level,
                        j,
                    ) by {}
                }
            }
            assert(self.alive@ =~= next);
        }
        let ghost by_score = self.alive@;
        if self.use_rank {
            for k in 0..m
                invariant
                    self.wf(),
                    before.wf(),
                    m == before.obs@.len(),
                    measures(*sim, before.model.words@.len()),
                    raises(*margin),
                    same_knowledge(before, *self),
                    self.restricted == before.restricted,
                    self.tol_level == before.tol_level,
                    self.alive@ == rank_narrowed_by(by_score, before.obs@, *sim, *margin, k as int),
            {
                self.apply_rank(k, sim, margin);
            }
        }
    }

    /// Takes in one answer. When no word is left the solver first drops the frequency prior,
    /// then widens the tolerance step by step.
    pub fn observe<F: Fn(u32, u32) -> Single, B: Fn(Single) -> Single>(
        &mut self,
        o: Observation,
        gaps: Vec<Double>,
        sim: &F,
        margin: &B,
    ) -> (info: ObserveInfo)
        requires
            old(self).wf(),
            o.idx < old(self).model.words@.len(),
            gaps@.len() == old(self).model.words@.len(),
            measures(*sim, old(self).model.words@.len()),
            raises(*margin),
        ensures
            final(self).wf(),
            observed(*old(self), o, gaps, *sim, *margin, *final(self), info),
    {
        let before: usize = self.alive_count;
        let ghost first = *self;
        let last: usize = self.obs.len();
        self.obs.push(o);
        self.gaps.push(gaps);
        let ghost asked = *self;
        self.apply_score(last);
        if self.use_rank {
            self.apply_rank(last, sim, margin);
        }
        let ghost kept = self.alive@;
        proof {
            lemma_none_set(kept);
        }
        let mut relaxed = false;
        let drop: bool = self.alive_count == 0 && self.restricted;
        if drop {
            self.restricted = false;
            relaxed = true;
            proof {
                lemma_same_field(asked, *self, *sim, *margin);
            }
            self.rebuild(sim, margin);
        }
        proof {
            lemma_none_set(self.alive@);
        }
        let ghost from = if drop { first.tol_level as int } else { first.tol_level + 1 };
        while self.alive_count == 0 && self.tol_level + 1 < TOL_LEVELS
            invariant
                self.wf(),
                asked.wf(),
                measures(*sim, asked.model.words@.len()),
                raises(*margin),
                same_knowledge(asked, *self),
                first.tol_level == asked.tol_level,
                any(kept) ==> !drop && !relaxed && self.tol_level == first.tol_level,
                self.tol_level >= first.tol_level,
                self.restricted == (asked.restricted && !drop),
                relaxed == (drop || self.tol_level > first.tol_level),
                !relaxed ==> self.alive@ == kept,
                relaxed ==> self.alive@ == asked.field(
                    self.restricted,
                    self.tol_level as int,
                    *sim,
                    *margin,
                ),
                any(self.alive@) <==> self.alive_count != 0,
                from == if drop { first.tol_level as int } else { first.tol_level + 1 },
                forall|l: int|
                    from <= l < self.tol_level ==> !any(
                        #[trigger] asked.field(self.restricted, l, *sim, *margin),
                    ),
            decreases TOL_LEVELS - self.tol_level,
        {
            let ghost step = *self;
            self.tol_level = self.tol_level + 1;
            relaxed = true;
            proof {
                lemma_same_field(asked, *self, *sim, *margin);
            }
            self.rebuild(sim, margin);
            proof {
                lemma_none_set(self.alive@);
                assert forall|l: int| from <= l < self.tol_level implies !any(
                    #[trigger] asked.field(self.restricted, l, *sim, *margin),
                ) by {
                    if l == step.tol_level {
                        assert(step.alive@ == asked.field(step.restricted, l, *sim, *margin));
                    }
                }
            }
        }
        proof {
            lemma_same_field(asked, *self, *sim, *margin);
            if !relaxed {
                assert forall|j: int| 0 <= j < kept.len() && #[trigger] kept[j] implies first.alive@[j] by {}
                lemma_subset_count(kept, first.alive@);
            }
        }
        ObserveInfo { before, after: self.alive_count, relaxed }
    }

    /// The words that may still be the secret, in frequency order.
    pub fn candidates(&self) -> (r: Vec<u32>)
        requires
            self.wf(),
        ensures
            r@ == set_positions(self.alive@),
    {
        collect_set(&self.alive)
    }

    /// First k candidates in frequency order (= most plausible secrets).
    pub fn top(&self, k: usize) -> (r: Vec<u32>)
        requires
            self.wf(),
        ensures
            r@ == set_positions(self.alive@).take(
                if k <= self.alive_count {
                    k as int
                } else {
                    self.alive_count as int
                },
            ),
    {
        collect_first(&self.alive, k)
    }

    /// The plausible words that nobody banned.
    pub open spec fn open_words(self) -> Seq<bool> {
        Seq::new(
            self.model.words@.len(),
            |i: int| !self.banned@[i] && self.model.plausible@[i],
        )
    }

    /// The guess that needs no weighing: the opener; the most frequent plausible word that is
    /// not banned, once nothing matches (word 0 if there is none); the last candidate.
    pub open spec fn obvious(self) -> Option<Choice> {
        let cands = set_positions(self.alive@);
        let open = set_positions(self.open_words());
        let nothing = Double { bits: 0 };
        if self.obs@.len() == 0 && self.model.opener is Some
            && !self.banned@[self.model.opener->0 as int] {
            Some(
                Choice {
                    idx: self.model.opener->0,
                    entropy: Double { bits: UNWEIGHED },
                    buckets: 0,
                    probes: 0,
                    candidates: cands.len() as usize,
                },
            )
        } else if cands.len() == 0 {
            let idx = if open.len() > 0 {
                open[0]
            } else {
                0
            };
            Some(Choice { idx, entropy: nothing, buckets: 0, probes: 0, candidates: 0 })
        } else if cands.len() == 1 {
            Some(Choice { idx: cands[0], entropy: nothing, buckets: 1, probes: 1, candidates: 1 })
        } else {
            None
        }
    }

    /// Pick the guess that maximises the expected information (entropy of the rounded-score
    /// partition over the remaining candidates). `near` tells entropies closer than one
    /// billionth.
    pub fn next_guess<
        S: Fn(u32, u32) -> i32,
        H: Fn(&Vec<usize>) -> Entropy,
        N: Fn(Double, Double) -> bool,
    >(&self, slot: &S, bits: &H, near: &N) -> (r: Choice)
        requires
            self.wf(),
            forall|p: u32, t: u32|
                p < self.model.words@.len() && t < self.model.words@.len()
                    ==> #[trigger] call_requires(*slot, (p, t)),
            forall|v: &Vec<usize>| #[trigger] call_requires(*bits, (v,)),
            decides(*near),
        ensures
            match self.obvious() {
                Some(c) => r == c,
                None => {
                    let cands = set_positions(self.alive@);
                    let probes = sampled(cands, MAX_PROBES as nat);
                    let targets = sampled(cands, MAX_TARGETS as nat);
                    exists|weights: Seq<Weight>| #[trigger]
                        all_weighed(*slot, *bits, probes, targets, weights) && r == (Choice {
                            idx: best_of(*near, probes, weights, probes.len() as int).idx,
                            entropy: best_of(
                                *near,
                                probes,
                                weights,
                                probes.len() as int,
                            ).weight.entropy.bits,
                            buckets: best_of(
                                *near,
                                probes,
                                weights,
                                probes.len() as int,
                            ).weight.buckets,
                            probes: probes.len() as usize,
                            candidates: cands.len() as usize,
                        })
                },
            },
    {
        let cands = self.candidates();
        proof {
            lemma_set_positions(self.alive@);
        }
        if self.obs.len() == 0 {
            if let Some(op) = self.model.opener {
                if !self.banned[op as usize] {
                    return Choice {
                        idx: op,
                        entropy: Double { bits: UNWEIGHED },
                        buckets: 0,
                        probes: 0,
                        candidates: cands.len(),
                    };
                }
            }
        }
        if cands.len() == 0 {
            let idx: u32 = self.first_open();
            return Choice {
                idx,
                entropy: Double { bits: 0 },
                buckets: 0,
                probes: 0,
                candidates: 0,
            };
        }
        if cands.len() == 1 {
            return Choice {
                idx: cands[0],
                entropy: Double { bits: 0 },
                buckets: 1,
                probes: 1,
                candidates: 1,
            };
        }
        let probes = stride_sample(&cands, MAX_PROBES);
        let targets = stride_sample(&cands, MAX_TARGETS);
        proof {
            lemma_sampled(cands@, MAX_PROBES as nat);
            lemma_sampled(cands@, MAX_TARGETS as nat);
            assert forall|i: int| 0 <= i < probes@.len() implies (#[trigger] probes@[i])
                < self.model.words@.len() by {
                assert(cands@.contains(probes@[i]));
            }
            assert forall|i: int| 0 <= i < targets@.len() implies (#[trigger] targets@[i])
                < self.model.words@.len() by {
                assert(cands@.contains(targets@[i]));
            }
        }
        let mut best = Weighed {
            weight: Weight {
                entropy: Entropy { bits: Double { bits: LEAST }, bar: Double { bits: LEAST } },
                buckets: 0,
            },
            idx: u32::MAX,
        };
        let ghost mut weights: Seq<Weight> = Seq::empty();
        for i in 0..probes.len()
            invariant
                forall|p: u32, t: u32|
                    p < self.model.words@.len() && t < self.model.words@.len()
                        ==> #[trigger] call_requires(*slot, (p, t)),
                forall|v: &Vec<usize>| #[trigger] call_requires(*bits, (v,)),
                decides(*near),
                forall|i: int|
                    0 <= i < probes@.len() ==> (#[trigger] probes@[i]) < self.model.words@.len(),
                forall|i: int|
                    0 <= i < targets@.len() ==> (#[trigger] targets@[i]) < self.model.words@.len(),
                weights.len() == i,
                all_weighed(*slot, *bits, probes@.take(i as int), targets@, weights),
                best == best_of(*near, probes@, weights, i as int),
        {
            assert(probes@[i as int] < self.model.words@.len());
            let w = partition_entropy(probes[i], &targets, slot, bits);
            let b = Weighed { weight: w, idx: probes[i] };
            let ghost (was, old_best) = (weights, best);
            let higher: bool = best.weight.entropy.bar.lt(b.weight.entropy.bits);
            let tied: bool = near(b.weight.entropy.bits, best.weight.entropy.bits);
            if higher || (tied && b.idx < best.idx) {
                best = b;
            }
            proof {
                weights = weights.push(w);
                lemma_best_of_prefix(*near, probes@, was, weights, i as int);
                assert forall|k: int| 0 <= k < i + 1 implies weighs_over(
                    *slot,
                    *bits,
                    probes@.take(i + 1)[k],
                    targets@,
                    #[trigger] weights[k],
                ) by {
                    if k < i {
                        assert(weighs_over(
                            *slot,
                            *bits,
                            probes@.take(i as int)[k],
                            targets@,
                            was[k],
                        ));
                    }
                }
            }
        }
        assert(probes@.take(probes@.len() as int) =~= probes@);
        Choice {
            idx: best.idx,
            entropy: best.weight.entropy.bits,
            buckets: best.weight.buckets,
            probes: probes.len(),
            candidates: cands.len(),
        }
    }

    /// The most frequent plausible word that nobody banned, word 0 if there is none.
    fn first_open(&self) -> (r: u32)
        requires
            self.wf(),
        ensures
            r == if set_count(self.open_words()) > 0 {
                set_positions(self.open_words())[0]
            } else {
                0
            },
    {
        let n: usize = self.model.n();
        for i in 0..n
            invariant
                self.wf(),
                n == self.model.words@.len(),
                forall|k: int| 0 <= k < i ==> !#[trigger] self.open_words()[k],
        {
            if !self.banned[i] && self.model.plausible[i] {
                proof {
                    let open = set_positions(self.open_words());
                    lemma_set_positions(self.open_words());
                    assert(self.open_words()[i as int]);
                    assert(open.contains(i as u32));
                    let k = choose|k: int| 0 <= k < open.len() && open[k] == i as u32;
                    if k > 0 {
                        assert(open[0] < open[k]);
                        assert(self.open_words()[open[0] as int]);
                    }
                }
                return i as u32;
            }
        }
        proof {
            lemma_none_set(self.open_words());
        }
        0
    }
}

/// `w` is the weight of probe `p` over some targets.
pub open spec fn weighs_over<S: Fn(u32, u32) -> i32, H: Fn(&Vec<usize>) -> Entropy>(
    slot: S,
    bits: H,
    p: u32,
    targets: Seq<u32>,
    w: Weight,
) -> bool {
    exists|keys: Seq<i32>| #[trigger] slots(slot, p, targets, keys) && weighs(bits, keys, w)
}

/// Each probe has its weight over the targets.
pub open spec fn all_weighed<S: Fn(u32, u32) -> i32, H: Fn(&Vec<usize>) -> Entropy>(
    slot: S,
    bits: H,
    probes: Seq<u32>,
    targets: Seq<u32>,
    weights: Seq<Weight>,
) -> bool {
    weights.len() == probes.len() && forall|i: int|
        0 <= i < probes.len() ==> weighs_over(slot, bits, probes[i], targets, #[trigger] weights[i])
}

/// `near` answers for any two numbers, and always the same.
pub open spec fn decides<N: Fn(Double, Double) -> bool>(near: N) -> bool {
    &&& forall|a: Double, b: Double| #[trigger] call_requires(near, (a, b))
    &&& forall|a: Double, b: Double, x: bool, y: bool| #[trigger]
        call_ensures(near, (a, b), x) && #[trigger] call_ensures(near, (a, b), y) ==> x == y
}

/// The two numbers are close.
pub open spec fn close<N: Fn(Double, Double) -> bool>(near: N, a: Double, b: Double) -> bool {
    call_ensures(near, (a, b), true)
}

/// The best of the first `m` probes, compared one after the other: higher entropy wins, and ties
/// go to the more frequent word.
pub open spec fn best_of<N: Fn(Double, Double) -> bool>(
    near: N,
    probes: Seq<u32>,
    weights: Seq<Weight>,
    m: int,
) -> Weighed
    decreases m,
{
    if m <= 0 {
        no_probe()
    } else {
        let a = best_of(near, probes, weights, m - 1);
        let b = Weighed { weight: weights[m - 1], idx: probes[m - 1] };
        if a.weight.entropy.bar.below(b.weight.entropy.bits) || (close(
            near,
            b.weight.entropy.bits,
            a.weight.entropy.bits,
        ) && b.idx < a.idx) {
            b
        } else {
            a
        }
    }
}

/// The best of some probes depends on their own weights only.
proof fn lemma_best_of_prefix<N: Fn(Double, Double) -> bool>(
    near: N,
    probes: Seq<u32>,
    a: Seq<Weight>,
    b: Seq<Weight>,
    m: int,
)
    requires
        m <= a.len(),
        m <= b.len(),
        forall|i: int| 0 <= i < m ==> a[i] == b[i],
    ensures
        best_of(near, probes, a, m) == best_of(near, probes, b, m),
    decreases m,
{
    if m > 0 {
        lemma_best_of_prefix(near, probes, a, b, m - 1);
    }
}

/// The candidates that a score leaves over.
pub open spec fn score_narrowed(alive: Seq<bool>, o: Observation, gaps: Seq<Double>, level: int) -> Seq<
    bool,
> {
    Seq::new(alive.len(), |j: int| alive[j] && in_reach(o, gaps, level, j))
}

/// Two solvers know the same answers and the same banned words of the same lexicon.
pub open spec fn same_knowledge(a: Solver, b: Solver) -> bool {
    &&& a.model == b.model
    &&& a.banned@ == b.banned@
    &&& a.use_rank == b.use_rank
    &&& a.obs@ == b.obs@
    &&& a.gaps@ == b.gaps@
}

/// What taking in one answer does.
pub open spec fn observed<F: Fn(u32, u32) -> Single, B: Fn(Single) -> Single>(
    before: Solver,
    o: Observation,
    gaps: Vec<Double>,
    sim: F,
    margin: B,
    after: Solver,
    info: ObserveInfo,
) -> bool {
    let level = before.tol_level as int;
    let by_score = score_narrowed(before.alive@, o, gaps@, level);
    let kept = if before.use_rank {
        rank_narrowed(by_score, o, sim, margin)
    } else {
        by_score
    };
    let drop = !any(kept) && before.restricted;
    let from = if drop {
        level
    } else {
        level + 1
    };
    &&& after.model == before.model
    &&& after.banned@ == before.banned@
    &&& after.use_rank == before.use_rank
    &&& after.obs@ == before.obs@.push(o)
    &&& after.gaps@ == before.gaps@.push(gaps)
    &&& info.before == before.alive_count
    &&& info.after == after.alive_count
    &&& after.restricted == (before.restricted && !drop)
    &&& info.relaxed == (drop || after.tol_level > level)
    &&& level <= after.tol_level < TOL_LEVELS
    &&& any(kept) ==> !info.relaxed
    &&& !info.relaxed ==> after.alive@ == kept
    &&& info.relaxed ==> after.alive@ == after.field(
        after.restricted,
        after.tol_level as int,
        sim,
        margin,
    )
    &&& forall|l: int|
        from <= l < after.tol_level ==> !any(
            #[trigger] after.field(after.restricted, l, sim, margin),
        )
    &&& any(after.alive@) || after.tol_level == TOL_LEVELS - 1
    &&& !info.relaxed ==> info.after <= info.before
}

/// The field depends on what a solver knows only.
proof fn lemma_same_field<F: Fn(u32, u32) -> Single, B: Fn(Single) -> Single>(
    a: Solver,
    b: Solver,
    sim: F,
    margin: B,
)
    requires
        same_knowledge(a, b),
    ensures
        forall|r: bool, l: int|
            #![trigger a.field(r, l, sim, margin)]
            #![trigger b.field(r, l, sim, margin)]
            a.field(r, l, sim, margin) == b.field(r, l, sim, margin),
{
    assert forall|r: bool, l: int|
        #![trigger a.field(r, l, sim, margin)]
        #![trigger b.field(r, l, sim, margin)]
        a.field(r, l, sim, margin) == b.field(r, l, sim, margin) by {
        let m = a.obs@.len() as int;
        let (f, g) = (a.score_field(r, l, m), b.score_field(r, l, m));
        assert forall|j: int| 0 <= j < f.len() implies f[j] == g[j] by {
            if f[j] {
                assert forall|k: int| 0 <= k < m implies #[trigger] b.passes(k, l, j) by {
                    assert(a.passes(k, l, j));
                }
            }
            if g[j] {
                assert forall|k: int| 0 <= k < m implies #[trigger] a.passes(k, l, j) by {
                    assert(b.passes(k, l, j));
                }
            }
        }
        assert(f =~= g);
    }
}

/// As long as ranks are left alone, a candidate whose cosine matches the score stays one.
pub proof fn lemma_matching_word_survives<F: Fn(u32, u32) -> Single, B: Fn(Single) -> Single>(
    before: Solver,
    o: Observation,
    gaps: Vec<Double>,
    sim: F,
    margin: B,
    after: Solver,
    info: ObserveInfo,
    secret: int,
)
    requires
        observed(before, o, gaps, sim, margin, after, info),
        !before.use_rank,
        0 <= secret < before.alive@.len(),
        before.alive@[secret],
        in_reach(o, gaps@, before.tol_level as int, secret),
    ensures
        after.alive@[secret],
        !info.relaxed,
{
    let kept = score_narrowed(before.alive@, o, gaps@, before.tol_level as int);
    assert(kept[secret]);
}

/// A rank constraint never wipes the candidates out.
pub proof fn lemma_rank_never_wipes<F: Fn(u32, u32) -> Single, B: Fn(Single) -> Single>(
    alive: Seq<bool>,
    o: Observation,
    sim: F,
    margin: B,
)
    ensures
        any(alive) <==> any(rank_narrowed(alive, o, sim, margin)),
        rank_narrowed(alive, o, sim, margin).len() == alive.len(),
        forall|j: int|
            0 <= j < alive.len() && #[trigger] rank_narrowed(alive, o, sim, margin)[j] ==> alive[j],
{
    let r = rank_narrowed(alive, o, sim, margin);
    if r != alive && any(r) {
        let j = choose|j: int| 0 <= j < r.len() && #[trigger] r[j];
        assert(alive[j]);
    }
}

/// A score keeps the candidates whose cosine lies within the tolerance of it, and rules out the
/// others and the guess itself.
pub proof fn lemma_score_keeps_the_near(
    alive: Seq<bool>,
    o: Observation,
    gaps: Seq<Double>,
    level: int,
    j: int,
)
    requires
        0 <= level < TOL_LEVELS,
        0 <= j < alive.len(),
        !gaps[j].nan(),
    ensures
        score_narrowed(alive, o, gaps, level).len() == alive.len(),
        score_narrowed(alive, o, gaps, level)[j] <==> alive[j] && j != o.idx && gaps[j].value()
            <= (Double { bits: TOLS_CEMANTIX[level] }).value(),
{
    lemma_double_order_is_numeric(tolerance(level), gaps[j]);
}

/// When a ‰ rank fits a candidate: the number of words between them is within three of 999 less
/// the rank, or at least 995 where the guess has none.
pub proof fn lemma_rank_fits_within_three(p: u32, closer: nat)
    requires
        p <= 1000,
    ensures
        rank_agrees(Some(p), closer) <==> 996 <= closer + p <= 1002,
        rank_agrees(None, closer) <==> closer >= 995,
{
}

/// A ‰ rank cuts a small set down to the candidates that it fits, counting for each the words
/// that lie nearer to it than the guess; it leaves a larger set alone, and one that it would wipe
/// out.
pub proof fn lemma_rank_cuts_small_sets<F: Fn(u32, u32) -> Single, B: Fn(Single) -> Single>(
    alive: Seq<bool>,
    o: Observation,
    sim: F,
    margin: B,
    c: int,
    d: int,
)
    requires
        0 <= c < alive.len(),
        0 <= d < alive.len(),
        alive.len() <= u32::MAX,
    ensures
        ({
            let r = rank_narrowed(alive, o, sim, margin);
            let fits = |t: int|
                alive[t] && rank_agrees(
                    o.percentile,
                    set_count(
                        Seq::new(
                            alive.len(),
                            |w: int|
                                w != t && w != o.idx && raised(
                                    margin,
                                    cosine(sim, o.idx, t as u32),
                                ).below(cosine(sim, w as u32, t as u32)),
                        ),
                    ),
                );
            let small = if o.percentile is Some {
                set_count(alive) <= 120
            } else {
                set_count(alive) <= 20
            };
            &&& r.len() == alive.len()
            &&& !small ==> r == alive
            &&& small && fits(d) ==> (r[c] <==> fits(c))
            &&& fits(c) ==> r[c]
            &&& r[c] && r != alive ==> fits(c)
        }),
{
    let n = alive.len();
    let closer = |t: int|
        Seq::new(
            n,
            |w: int|
                w != t && w != o.idx && raised(margin, cosine(sim, o.idx, t as u32)).below(
                    cosine(sim, w as u32, t as u32),
                ),
        );
    assert(closer(c) =~= closer_words(sim, margin, n, c as u32, o.idx));
    assert(closer(d) =~= closer_words(sim, margin, n, d as u32, o.idx));
    let keep = Seq::new(
        n,
        |t: int|
            alive[t] && rank_agrees(
                o.percentile,
                set_count(closer_words(sim, margin, n, t as u32, o.idx)),
            ),
    );
    if keep[d] {
        assert(any(keep));
        lemma_set_positions(alive);
        assert(set_positions(alive).contains(d as u32));
    }
}

/// The best of some probes is one of them.
proof fn lemma_best_is_a_probe<N: Fn(Double, Double) -> bool>(
    near: N,
    probes: Seq<u32>,
    weights: Seq<Weight>,
    m: int,
)
    requires
        0 < m <= probes.len(),
        weights.len() == probes.len(),
        (Double { bits: LEAST }).below(weights[0].entropy.bits),
    ensures
        exists|i: int|
            #![trigger probes[i]]
            0 <= i < m && best_of(near, probes, weights, m) == (Weighed {
                weight: weights[i],
                idx: probes[i],
            }),
    decreases m,
{
    let last = Weighed { weight: weights[m - 1], idx: probes[m - 1] };
    if m == 1 {
        assert(best_of(near, probes, weights, 0) == no_probe());
        assert(best_of(near, probes, weights, 1) == last);
    } else {
        lemma_best_is_a_probe(near, probes, weights, m - 1);
        let i = choose|i: int|
            #![trigger probes[i]]
            0 <= i < m - 1 && best_of(near, probes, weights, m - 1) == (Weighed {
                weight: weights[i],
                idx: probes[i],
            });
        assert(probes[i] == probes[i]);
    }
}

/// A probe that beats every other by more than the margin is the one played.
pub proof fn lemma_clear_winner_is_best<N: Fn(Double, Double) -> bool>(
    near: N,
    probes: Seq<u32>,
    weights: Seq<Weight>,
    w: int,
    m: int,
)
    requires
        0 <= w < m <= probes.len(),
        weights.len() == probes.len(),
        forall|i: int|
            #![trigger weights[i]]
            0 <= i < probes.len() && i != w ==> weights[i].entropy.bar.below(
                weights[w].entropy.bits,
            ) && !weights[w].entropy.bar.below(weights[i].entropy.bits) && !close(
                near,
                weights[i].entropy.bits,
                weights[w].entropy.bits,
            ),
        forall|i: int|
            #![trigger weights[i]]
            0 <= i < probes.len() ==> (Double { bits: LEAST }).below(weights[i].entropy.bits),
    ensures
        best_of(near, probes, weights, m) == (Weighed { weight: weights[w], idx: probes[w] }),
    decreases m,
{
    assert((Double { bits: LEAST }).below(weights[0].entropy.bits));
    if w < m - 1 {
        lemma_clear_winner_is_best(near, probes, weights, w, m - 1);
        assert(!close(near, weights[m - 1].entropy.bits, weights[w].entropy.bits));
    } else if m > 1 {
        lemma_best_is_a_probe(near, probes, weights, m - 1);
        let i = choose|i: int|
            #![trigger probes[i]]
            0 <= i < m - 1 && best_of(near, probes, weights, m - 1) == (Weighed {
                weight: weights[i],
                idx: probes[i],
            });
        assert(weights[i].entropy.bar.below(weights[w].entropy.bits));
    } else {
        lemma_best_is_a_probe(near, probes, weights, 1);
    }
}

/// Without anything to weigh: the opener first, then the last candidate, then the most frequent
/// plausible word that nobody banned.
pub proof fn lemma_obvious_guesses(s: Solver, j: u32)
    requires
        s.wf(),
        j < s.model.words@.len(),
    ensures
        s.obs@.len() == 0 && s.model.opener == Some(j) && !s.banned@[j as int] ==> (
        s.obvious() matches Some(c) && c.idx == j && c.entropy.nan()),
        s.obs@.len() > 0 ==> (s.alive_count >= 2 <==> s.obvious() is None),
        s.obs@.len() > 0 && s.alive_count == 1 && s.alive@[j as int] ==> (
        s.obvious() matches Some(c) && c.idx == j),
        s.obs@.len() > 0 && s.alive_count == 0 && s.model.plausible@[j as int]
            && !s.banned@[j as int] ==> (s.obvious() matches Some(c) && c.idx <= j
            && s.model.plausible@[c.idx as int] && !s.banned@[c.idx as int]),
{
    lemma_set_positions(s.alive@);
    lemma_set_positions(s.open_words());
    let cands = set_positions(s.alive@);
    let open = set_positions(s.open_words());
    if s.alive@[j as int] {
        assert(cands.contains(j));
    }
    if s.alive_count == 0 && s.open_words()[j as int] {
        assert(open.contains(j));
        let k = choose|k: int| 0 <= k < open.len() && open[k] == j;
        if k > 0 {
            assert(open[0] < open[k]);
        }
    }
}

/// The constraints are relaxed only when an answer leaves nothing, the prior first.
pub proof fn lemma_relaxing_goes_step_by_step<F: Fn(u32, u32) -> Single, B: Fn(Single) -> Single>(
    before: Solver,
    o: Observation,
    gaps: Vec<Double>,
    sim: F,
    margin: B,
    after: Solver,
    info: ObserveInfo,
    level: int,
    j: int,
)
    requires
        before.wf(),
        after.wf(),
        observed(before, o, gaps, sim, margin, after, info),
        !before.use_rank,
        0 <= j < before.alive@.len(),
        o.idx < before.model.words@.len(),
    ensures
        after.tol_level >= before.tol_level,
        after.tol_level > before.tol_level ==> !after.restricted,
        info.relaxed <==> after.tol_level > before.tol_level || after.restricted
            != before.restricted,
        info.relaxed && before.alive@[j] && j != o.idx ==> tolerance(
            before.tol_level as int,
        ).below(gaps@[j]),
        !info.relaxed && after.alive@[j] ==> before.alive@[j] && j != o.idx,
        info.after == set_count(after.alive@),
        // a level that was passed over leaves no word
        (before.tol_level < level || (before.tol_level == level && before.restricted
            && !after.restricted)) && level < after.tol_level ==> !after.field(
            after.restricted,
            level,
            sim,
            margin,
        )[j],
        after.alive_count == 0 ==> after.tol_level == TOL_LEVELS - 1,
{
    lemma_set_positions(after.alive@);
    if any(after.alive@) {
        let k = choose|k: int| 0 <= k < after.alive@.len() && #[trigger] after.alive@[k];
        assert(set_positions(after.alive@).contains(k as u32));
    }
    if 0 <= level && (before.tol_level < level || (before.tol_level == level && before.restricted
        && !after.restricted)) && level < after.tol_level {
        let f = after.field(after.restricted, level, sim, margin);
        lemma_ranks_only_cut(
            after.score_field(after.restricted, level, after.obs@.len() as int),
            after.obs@,
            sim,
            margin,
            after.obs@.len() as int,
            j,
        );
        assert(!any(f));
        assert(f.len() == before.alive@.len());
    }
    let kept = score_narrowed(before.alive@, o, gaps@, before.tol_level as int);
    if before.alive@[j] && in_reach(o, gaps@, before.tol_level as int, j) {
        assert(kept[j]);
    }
}

/// Among probes that are all as good as one another, the most frequent word is played.
pub proof fn lemma_ties_go_to_the_most_frequent<N: Fn(Double, Double) -> bool>(
    near: N,
    probes: Seq<u32>,
    weights: Seq<Weight>,
    m: int,
    k: int,
)
    requires
        0 <= k < m <= probes.len(),
        weights.len() == probes.len(),
        forall|i: int, j: int|
            #![trigger weights[i], weights[j]]
            0 <= i < probes.len() && 0 <= j < probes.len() ==> !weights[i].entropy.bar.below(
                weights[j].entropy.bits,
            ) && close(near, weights[i].entropy.bits, weights[j].entropy.bits),
        forall|i: int|
            #![trigger weights[i]]
            0 <= i < probes.len() ==> (Double { bits: LEAST }).below(weights[i].entropy.bits),
    ensures
        best_of(near, probes, weights, m).idx <= probes[k],
        exists|i: int|
            #![trigger probes[i]]
            0 <= i < m && best_of(near, probes, weights, m) == (Weighed {
                weight: weights[i],
                idx: probes[i],
            }),
    decreases m,
{
    assert((Double { bits: LEAST }).below(weights[0].entropy.bits));
    lemma_best_is_a_probe(near, probes, weights, m);
    if m == 1 {
        assert(best_of(near, probes, weights, 0) == no_probe());
    } else {
        lemma_ties_go_to_the_most_frequent(
            near,
            probes,
            weights,
            m - 1,
            if k < m - 1 {
                k
            } else {
                0
            },
        );
        let i = choose|i: int|
            #![trigger probes[i]]
            0 <= i < m - 1 && best_of(near, probes, weights, m - 1) == (Weighed {
                weight: weights[i],
                idx: probes[i],
            });
        assert(close(near, weights[m - 1].entropy.bits, weights[i].entropy.bits));
        assert(!weights[i].entropy.bar.below(weights[m - 1].entropy.bits));
    }
}

/// The candidates that are rebuilt from everything seen so far: the words that nobody banned, of
/// the prior while it holds, whose cosine agrees with every score, and none of the guesses.
/// Without ‰ ranks these are all of them.
pub proof fn lemma_rebuilt_candidates_match_their_scores<
    F: Fn(u32, u32) -> Single,
    B: Fn(Single) -> Single,
>(s: Solver, restricted: bool, level: int, sim: F, margin: B, j: int)
    requires
        s.wf(),
        0 <= level < TOL_LEVELS,
        0 <= j < s.model.words@.len(),
    ensures
        ({
            let agrees = !s.banned@[j] && (restricted ==> s.model.plausible@[j]) && forall|k: int|
                0 <= k < s.obs@.len() ==> (#[trigger] s.obs@[k]).idx != j && !(Double {
                    bits: TOLS_CEMANTIX[level],
                }).below(s.gaps@[k]@[j]);
            &&& s.field(restricted, level, sim, margin)[j] ==> agrees
            &&& !s.use_rank && agrees ==> s.field(restricted, level, sim, margin)[j]
        }),
{
    let m = s.obs@.len() as int;
    let by_score = s.score_field(restricted, level, m);
    lemma_ranks_only_cut(by_score, s.obs@, sim, margin, m, j);
    if s.field(restricted, level, sim, margin)[j] {
        assert forall|k: int| 0 <= k < s.obs@.len() implies (#[trigger] s.obs@[k]).idx != j && !(
        Double { bits: TOLS_CEMANTIX[level] }).below(s.gaps@[k]@[j]) by {
            assert(s.passes(k, level, j));
        }
    }
}

proof fn lemma_ranks_only_cut<F: Fn(u32, u32) -> Single, B: Fn(Single) -> Single>(
    alive: Seq<bool>,
    obs: Seq<Observation>,
    sim: F,
    margin: B,
    m: int,
    j: int,
)
    requires
        0 <= j < alive.len(),
    ensures
        rank_narrowed_by(alive, obs, sim, margin, m).len() == alive.len(),
        rank_narrowed_by(alive, obs, sim, margin, m)[j] ==> alive[j],
    decreases m,
{
    if m > 0 {
        lemma_ranks_only_cut(alive, obs, sim, margin, m - 1, j);
    }
}

/// The ‰ ranks are applied after the scores, one after the other: what a further one leaves is
/// cut out of what those before it left.
pub proof fn lemma_ranks_are_applied_in_turn<F: Fn(u32, u32) -> Single, B: Fn(Single) -> Single>(
    s: Solver,
    t: Solver,
    restricted: bool,
    level: int,
    sim: F,
    margin: B,
    alive: Seq<bool>,
    o: Observation,
)
    requires
        s.use_rank,
        t == (Solver { use_rank: false, ..s }),
    ensures
        s.field(restricted, level, sim, margin) == rank_narrowed_by(
            t.field(restricted, level, sim, margin),
            s.obs@,
            sim,
            margin,
            s.obs@.len() as int,
        ),
        rank_narrowed_by(alive, s.obs@.push(o), sim, margin, s.obs@.len() as int + 1) == rank_narrowed(
            rank_narrowed_by(alive, s.obs@, sim, margin, s.obs@.len() as int),
            o,
            sim,
            margin,
        ),
        rank_narrowed_by(alive, Seq::empty(), sim, margin, 0) == alive,
{
    let m = s.obs@.len() as int;
    assert(s.score_field(restricted, level, m) =~= t.score_field(restricted, level, m)) by {
        assert forall|j: int| 0 <= j < s.model.words@.len() implies s.score_field(
            restricted,
            level,
            m,
        )[j] == t.score_field(restricted, level, m)[j] by {
            assert(forall|k: int|
                #![trigger s.passes(k, level, j)]
                #![trigger t.passes(k, level, j)]
                s.passes(k, level, j) == t.passes(k, level, j));
        }
    }
    lemma_earlier_ranks_are_the_same(alive, s.obs@, o, sim, margin, m);
}

proof fn lemma_earlier_ranks_are_the_same<F: Fn(u32, u32) -> Single, B: Fn(Single) -> Single>(
    alive: Seq<bool>,
    obs: Seq<Observation>,
    o: Observation,
    sim: F,
    margin: B,
    m: int,
)
    requires
        m <= obs.len(),
    ensures
        rank_narrowed_by(alive, obs.push(o), sim, margin, m) == rank_narrowed_by(
            alive,
            obs,
            sim,
            margin,
            m,
        ),
    decreases m,
{
    if m > 0 {
        lemma_earlier_ranks_are_the_same(alive, obs, o, sim, margin, m - 1);
    }
}

} // verus!
