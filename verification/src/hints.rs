//! Hints: what the player may be told about the secret without naming it.
//!
//! The solver knows the answer long before the player does, so a hint has to be built out of
//! what sits near the surviving candidates without ever being one of them. A hint word is
//! scored by the smallest of its cosines to every surviving candidate, which is true of all of
//! them by construction, and the bands below are positions in that shared ordering.

use vstd::prelude::*;

use crate::cosine::{cosine, measure, measures};
use crate::flags::{lemma_set_positions, set_positions};
use crate::ieee::{lemma_single_total_order, Single};
use crate::order::{lemma_nearest_first, nearer, nearest_first, order_by_similarity, positions};
use crate::solver::Solver;
use crate::vectors::similarities_to;
use crate::words::{is_plausible_word, plausible_word, same_family, shares_stem};

verus! {

/// Above this many surviving candidates, no statement is true of all of them.
pub const HINT_MAX_SET: usize = 8;

/// Lowest pairwise cosine the candidates must reach for a shared field to exist: 0.30, as a
/// bit pattern.
pub const HINT_MIN_COHESION: u32 = 0x3e99_999a;

/// Hints are drawn from the frequent part of the lexicon: past this frequency rank it is mostly
/// proper nouns and typos.
pub const HINT_FAMILIAR_RANK: usize = 20_000;

/// Two words of one rung may not exceed this cosine, or the rung says one thing twice: 0.55, as
/// a bit pattern.
pub const HINT_DIVERSITY: u32 = 0x3f0c_cccd;

/// `(lo, hi, take)`: the rung takes `take` words from positions `lo..hi` of the shared
/// neighbourhood.
pub const HINT_WIDE: (usize, usize, usize) = (200, 900, 4);

pub const HINT_TIGHT: (usize, usize, usize) = (25, 120, 3);

pub const HINT_NEAR: (usize, usize, usize) = (2, 12, 1);

/// A short band is widened by this factor, at most twice, before it is declared exhausted.
pub const HINT_WIDEN: usize = 2;

/// One, as a bit pattern.
pub const SURE: u32 = 0x3f80_0000;

/// Infinity, as a bit pattern.
pub const BOUNDLESS: u32 = 0x7f80_0000;

/// The rungs of the ladder, from vaguest to most precise.
#[derive(Clone, Copy, Debug, PartialEq, Eq, Structural)]
pub enum HintLevel {
    /// The semantic field, seen from far away.
    Field,
    /// The same field, closer in.
    Tight,
    /// One word sitting right next to the secret, and provably not it.
    Near,
}

impl HintLevel {
    /// The whole ladder.
    pub const LADDER: [HintLevel; 3] = [HintLevel::Field, HintLevel::Tight, HintLevel::Near];

    /// Rung number `i`.
    pub fn at(i: usize) -> (r: Option<HintLevel>)
        ensures
            r == rung(i as nat),
    {
        if i < 3 {
            Some(HintLevel::LADDER[i])
        } else {
            None
        }
    }

    /// `(lo, hi, take)` of this rung's band.
    pub fn band(self) -> (r: (usize, usize, usize))
        ensures
            r == band_of(self),
    {
        match self {
            HintLevel::Field => HINT_WIDE,
            HintLevel::Tight => HINT_TIGHT,
            HintLevel::Near => HINT_NEAR,
        }
    }

    pub fn name(self) -> (r: &'static str)
        ensures
            r@ == match self {
                HintLevel::Field => "field"@,
                HintLevel::Tight => "tight"@,
                HintLevel::Near => "near"@,
            },
    {
        match self {
            HintLevel::Field => "field",
            HintLevel::Tight => "tight",
            HintLevel::Near => "near",
        }
    }
}

/// Rung number `i` of the ladder.
pub open spec fn rung(i: nat) -> Option<HintLevel> {
    if i == 0 {
        Some(HintLevel::Field)
    } else if i == 1 {
        Some(HintLevel::Tight)
    } else if i == 2 {
        Some(HintLevel::Near)
    } else {
        None
    }
}

/// The band of a rung.
pub open spec fn band_of(level: HintLevel) -> (usize, usize, usize) {
    match level {
        HintLevel::Field => HINT_WIDE,
        HintLevel::Tight => HINT_TIGHT,
        HintLevel::Near => HINT_NEAR,
    }
}

/// Why no hint can be given right now.
#[derive(Clone, Copy, Debug, PartialEq, Eq, Structural)]
pub enum HintLocked {
    /// The reported scores contradict each other; nothing survives.
    NoCandidate,
    /// Too many candidates for a statement to be true of all of them.
    TooMany { alive: usize },
    /// The candidates share no field at all.
    Scattered { alive: usize },
    /// The band came up empty even after widening.
    Exhausted,
    /// Every rung has been handed out.
    Ended,
}

impl HintLocked {
    pub fn name(self) -> (r: &'static str)
        ensures
            r@ == match self {
                HintLocked::NoCandidate => "no_candidate"@,
                HintLocked::TooMany { .. } => "too_many"@,
                HintLocked::Scattered { .. } => "scattered"@,
                HintLocked::Exhausted => "exhausted"@,
                HintLocked::Ended => "ended"@,
            },
    {
        match self {
            HintLocked::NoCandidate => "no_candidate",
            HintLocked::TooMany { .. } => "too_many",
            HintLocked::Scattered { .. } => "scattered",
            HintLocked::Exhausted => "exhausted",
            HintLocked::Ended => "ended",
        }
    }
}

/// The answer to a player who asks for a hint.
#[derive(Clone, Debug, PartialEq, Eq)]
pub enum Hint {
    Words { level: HintLevel, words: Vec<u32> },
    Locked(HintLocked),
}

/// How well a word fits the surviving candidates, next to the player's own best guess.
#[derive(Clone, Copy, Debug)]
pub struct Warmth {
    pub fit: Single,
    /// The player's own guess that fits best, and its fit.
    pub best: Option<(u32, Single)>,
}

/// How well word `j` fits the first `m` targets: its smallest cosine to any of them.
pub open spec fn shared_fit<F: Fn(u32, u32) -> Single>(
    sim: F,
    j: u32,
    targets: Seq<u32>,
    m: int,
) -> Single
    decreases m,
{
    if m <= 0 {
        Single { bits: BOUNDLESS }
    } else {
        shared_fit(sim, j, targets, m - 1).lower(cosine(sim, j, targets[m - 1]))
    }
}

/// How well each of the first `n` words fits every target.
pub open spec fn shared_fits<F: Fn(u32, u32) -> Single>(sim: F, targets: Seq<u32>, n: nat) -> Seq<
    Single,
> {
    Seq::new(n, |j: int| shared_fit(sim, j as u32, targets, targets.len() as int))
}

/// The lowest of `lo` and the cosines of target `a` with the targets from `b` on, and then of
/// every later pair.
pub open spec fn lowest_pair<F: Fn(u32, u32) -> Single>(
    sim: F,
    targets: Seq<u32>,
    a: int,
    b: int,
    lo: Single,
) -> Single
    decreases targets.len() - a, targets.len() - b,
{
    if a >= targets.len() {
        lo
    } else if b >= targets.len() {
        lowest_pair(sim, targets, a + 1, a + 2, lo)
    } else {
        lowest_pair(sim, targets, a, b + 1, lo.lower(cosine(sim, targets[a], targets[b])))
    }
}

/// Lowest cosine between two targets; 1 for a single one.
pub open spec fn cohesion<F: Fn(u32, u32) -> Single>(sim: F, targets: Seq<u32>) -> Single {
    lowest_pair(sim, targets, 0, 1, Single { bits: SURE })
}

/// The guess that fits the targets best among the first `m`, the latest of equals.
pub open spec fn best_guess<F: Fn(u32, u32) -> Single>(
    sim: F,
    guesses: Seq<u32>,
    targets: Seq<u32>,
    m: int,
) -> Option<(u32, Single)>
    decreases m,
{
    if m <= 0 {
        None
    } else {
        let g = guesses[m - 1];
        let fit = shared_fit(sim, g, targets, targets.len() as int);
        match best_guess(sim, guesses, targets, m - 1) {
            Some((b, f)) if f.total() > fit.total() => Some((b, f)),
            _ => Some((g, fit)),
        }
    }
}

impl<'a> Solver<'a> {
    /// The words of the observations.
    pub open spec fn guesses(self) -> Seq<u32> {
        Seq::new(self.obs@.len(), |k: int| self.obs@[k].idx)
    }

    /// Word `j` says too much next to one of the words `seen`: it is a relative of it, or a
    /// near-duplicate.
    pub open spec fn echoes<F: Fn(u32, u32) -> Single>(self, sim: F, j: u32, p: u32) -> bool {
        same_family(self.vectors.texts()[j as int], self.vectors.texts()[p as int]) || (Single {
            bits: HINT_DIVERSITY,
        }).below(cosine(sim, j, p))
    }

    /// Word `j` can be handed out as a hint: it is a familiar word, not a candidate, not banned
    /// or already played, not of the same family as a target, and it echoes no word already
    /// seen.
    pub open spec fn hint_fits<F: Fn(u32, u32) -> Single>(
        self,
        sim: F,
        j: u32,
        targets: Seq<u32>,
        seen: Seq<u32>,
    ) -> bool {
        &&& j < HINT_FAMILIAR_RANK
        &&& !self.alive@[j as int]
        &&& !self.banned@[j as int]
        &&& plausible_word(self.vectors.texts()[j as int])
        &&& forall|k: int| 0 <= k < self.obs@.len() ==> (#[trigger] self.obs@[k]).idx != j
        &&& forall|k: int|
            0 <= k < targets.len() ==> !same_family(
                self.vectors.texts()[j as int],
                self.vectors.texts()[#[trigger] targets[k] as int],
            )
        &&& forall|k: int| 0 <= k < seen.len() ==> !self.echoes(sim, j, #[trigger] seen[k])
    }

    /// The words that fit among `order[i..end]`, taken one after the other until there are
    /// `take` of them.
    pub open spec fn walk<F: Fn(u32, u32) -> Single>(
        self,
        sim: F,
        order: Seq<u32>,
        i: int,
        end: int,
        take: int,
        targets: Seq<u32>,
        exclude: Seq<u32>,
        picked: Seq<u32>,
    ) -> Seq<u32>
        decreases end - i,
    {
        if i >= end || picked.len() >= take {
            picked
        } else if self.hint_fits(sim, order[i], targets, exclude + picked) {
            self.walk(sim, order, i + 1, end, take, targets, exclude, picked.push(order[i]))
        } else {
            self.walk(sim, order, i + 1, end, take, targets, exclude, picked)
        }
    }

    /// One pass over the band `lo..hi`, cut at the end of the order.
    pub open spec fn pass<F: Fn(u32, u32) -> Single>(
        self,
        sim: F,
        order: Seq<u32>,
        lo: int,
        hi: int,
        take: int,
        targets: Seq<u32>,
        exclude: Seq<u32>,
    ) -> Seq<u32> {
        let end = if hi <= order.len() {
            hi
        } else {
            order.len() as int
        };
        let from = if lo <= end {
            lo
        } else {
            end
        };
        self.walk(sim, order, from, end, take, targets, exclude, Seq::empty())
    }

    /// The words of the band `lo..hi`, the band being widened up to `rounds` times while it is
    /// short.
    pub open spec fn widened_walk<F: Fn(u32, u32) -> Single>(
        self,
        sim: F,
        order: Seq<u32>,
        lo: int,
        hi: int,
        rounds: int,
        take: int,
        targets: Seq<u32>,
        exclude: Seq<u32>,
    ) -> Seq<u32>
        decreases rounds,
    {
        let picked = self.pass(sim, order, lo, hi, take, targets, exclude);
        if picked.len() >= take || rounds <= 0 || hi >= order.len() {
            picked
        } else {
            self.widened_walk(
                sim,
                order,
                lo,
                hi * HINT_WIDEN,
                rounds - 1,
                take,
                targets,
                exclude,
            )
        }
    }

    /// The words of a band of the shared neighbourhood of some targets.
    pub open spec fn band_words<F: Fn(u32, u32) -> Single>(
        self,
        sim: F,
        targets: Seq<u32>,
        lo: int,
        hi: int,
        take: int,
        exclude: Seq<u32>,
    ) -> Seq<u32> {
        let n = self.vectors.words@.len();
        if targets.len() == 0 || take <= 0 || n == 0 {
            Seq::empty()
        } else {
            self.widened_walk(
                sim,
                nearest_first(shared_fits(sim, targets, n)),
                lo,
                hi,
                HINT_WIDEN as int,
                take,
                targets,
                exclude,
            )
        }
    }

    /// The targets are words of the lexicon.
    pub open spec fn known(self, list: Seq<u32>) -> bool {
        forall|k: int| 0 <= k < list.len() ==> (#[trigger] list[k]) < self.vectors.words@.len()
    }

    /// The candidates every hint must be true of, or `None` when there are too many, or none,
    /// for any statement to hold.
    pub fn hint_targets(&self) -> (r: Option<Vec<u32>>)
        requires
            self.wf(),
        ensures
            match r {
                Some(t) => 1 <= self.alive_count <= HINT_MAX_SET && t@ == set_positions(self.alive@)
                    && self.known(t@),
                None => self.alive_count == 0 || self.alive_count > HINT_MAX_SET,
            },
    {
        proof {
            lemma_set_positions(self.alive@);
        }
        if 1 <= self.alive_count && self.alive_count <= HINT_MAX_SET {
            Some(self.candidates())
        } else {
            None
        }
    }

    /// Lowest cosine between two surviving candidates; 1 for a single one. Below
    /// [`HINT_MIN_COHESION`] the candidates have no field in common, and a hint about "the"
    /// field would not be honest.
    pub fn hint_cohesion<F: Fn(u32, u32) -> Single>(&self, targets: &Vec<u32>, sim: &F) -> (r: Single)
        requires
            measures(*sim, self.vectors.words@.len()),
            self.known(targets@),
        ensures
            r == cohesion(*sim, targets@),
    {
        let mut lo = Single { bits: SURE };
        let n: usize = targets.len();
        for a in 0..n
            invariant
                n == targets@.len(),
                measures(*sim, self.vectors.words@.len()),
                self.known(targets@),
                cohesion(*sim, targets@) == lowest_pair(*sim, targets@, a as int, a + 1, lo),
        {
            for b in a + 1..n
                invariant
                    a < n,
                    n == targets@.len(),
                    measures(*sim, self.vectors.words@.len()),
                    self.known(targets@),
                    cohesion(*sim, targets@) == lowest_pair(*sim, targets@, a as int, b as int, lo),
            {
                assert(targets@[a as int] < self.vectors.words@.len());
                assert(targets@[b as int] < self.vectors.words@.len());
                lo = lo.min(measure(sim, targets[a], targets[b]));
            }
        }
        lo
    }

    /// `out[j]` = the smallest cosine between word `j` and any of `targets`: how well `j` fits
    /// every surviving candidate.
    pub fn hint_scores<F: Fn(u32, u32) -> Single>(
        &self,
        targets: &Vec<u32>,
        sim: &F,
        out: &mut Vec<Single>,
    )
        requires
            self.vectors.words@.len() <= u32::MAX,
            measures(*sim, self.vectors.words@.len()),
            self.known(targets@),
        ensures
            final(out)@ == shared_fits(*sim, targets@, self.vectors.words@.len()),
    {
        let n: usize = self.vectors.n();
        *out = vec![Single { bits: BOUNDLESS }; n];
        let mut buf: Vec<Single> = vec![Single { bits: 0 }; n];
        for k in 0..targets.len()
            invariant
                n == self.vectors.words@.len(),
                n <= u32::MAX,
                measures(*sim, self.vectors.words@.len()),
                self.known(targets@),
                out@.len() == n,
                buf@.len() == n,
                forall|j: int|
                    0 <= j < n ==> #[trigger] out@[j] == shared_fit(
                        *sim,
                        j as u32,
                        targets@,
                        k as int,
                    ),
        {
            let t: u32 = targets[k];
            assert(targets@[k as int] < self.vectors.words@.len());
            self.vectors.dots_into(t, sim, &mut buf);
            assert(buf@ =~= similarities_to(*sim, t, positions(n as nat)));
            for j in 0..n
                invariant
                    n == self.vectors.words@.len(),
                    n <= u32::MAX,
                    k < targets@.len(),
                    t == targets@[k as int],
                    out@.len() == n,
                    buf@ == similarities_to(*sim, t, positions(n as nat)),
                    forall|i: int|
                        0 <= i < n ==> #[trigger] out@[i] == shared_fit(
                            *sim,
                            i as u32,
                            targets@,
                            if i < j {
                                k + 1
                            } else {
                                k as int
                            },
                        ),
            {
                let low: Single = out[j].min(buf[j]);
                out.set(j, low);
            }
        }
        assert(out@ =~= shared_fits(*sim, targets@, self.vectors.words@.len()));
    }

    /// Smallest cosine between `idx` and any of `targets`.
    fn fit_to<F: Fn(u32, u32) -> Single>(&self, idx: u32, targets: &Vec<u32>, sim: &F) -> (r: Single)
        requires
            measures(*sim, self.vectors.words@.len()),
            idx < self.vectors.words@.len(),
            self.known(targets@),
        ensures
            r == shared_fit(*sim, idx, targets@, targets@.len() as int),
    {
        let mut fit = Single { bits: BOUNDLESS };
        for k in 0..targets.len()
            invariant
                measures(*sim, self.vectors.words@.len()),
                idx < self.vectors.words@.len(),
                self.known(targets@),
                fit == shared_fit(*sim, idx, targets@, k as int),
        {
            assert(targets@[k as int] < self.vectors.words@.len());
            fit = fit.min(measure(sim, idx, targets[k]));
        }
        fit
    }

    /// Does word `j` echo one of the words `seen`?
    fn echoes_any<F: Fn(u32, u32) -> Single>(&self, j: u32, seen: &Vec<u32>, sim: &F) -> (r: bool)
        requires
            measures(*sim, self.vectors.words@.len()),
            j < self.vectors.words@.len(),
            self.known(seen@),
        ensures
            r == exists|k: int| 0 <= k < seen@.len() && self.echoes(*sim, j, #[trigger] seen@[k]),
    {
        for k in 0..seen.len()
            invariant
                measures(*sim, self.vectors.words@.len()),
                j < self.vectors.words@.len(),
                self.known(seen@),
                forall|i: int| 0 <= i < k ==> !self.echoes(*sim, j, #[trigger] seen@[i]),
        {
            let p: u32 = seen[k];
            assert(seen@[k as int] < self.vectors.words@.len());
            if shares_stem(
                self.vectors.words[j as usize].as_str(),
                self.vectors.words[p as usize].as_str(),
            ) || (Single { bits: HINT_DIVERSITY }).lt(measure(sim, j, p)) {
                assert(self.echoes(*sim, j, seen@[k as int]));
                return true;
            }
        }
        false
    }

    /// Can `j` be handed out as a hint, next to the words already revealed and those already
    /// picked for this rung?
    fn hint_word_fits<F: Fn(u32, u32) -> Single>(
        &self,
        j: u32,
        targets: &Vec<u32>,
        revealed: &Vec<u32>,
        picked: &Vec<u32>,
        sim: &F,
    ) -> (r: bool)
        requires
            self.wf(),
            measures(*sim, self.vectors.words@.len()),
            j < self.vectors.words@.len(),
            self.known(targets@),
            self.known(revealed@),
            self.known(picked@),
        ensures
            r == self.hint_fits(*sim, j, targets@, revealed@ + picked@),
    {
        let i: usize = j as usize;
        if i >= HINT_FAMILIAR_RANK || self.alive[i] || self.banned[i] {
            return false;
        }
        if !is_plausible_word(self.vectors.words[i].as_str()) {
            return false;
        }
        for k in 0..self.obs.len()
            invariant
                forall|m: int| 0 <= m < k ==> (#[trigger] self.obs@[m]).idx != j,
        {
            if self.obs[k].idx == j {
                return false;
            }
        }
        for k in 0..targets.len()
            invariant
                self.known(targets@),
                i == j,
                j < self.vectors.words@.len(),
                forall|m: int|
                    0 <= m < k ==> !same_family(
                        self.vectors.texts()[j as int],
                        self.vectors.texts()[#[trigger] targets@[m] as int],
                    ),
        {
            let t: u32 = targets[k];
            assert(targets@[k as int] < self.vectors.words@.len());
            if shares_stem(
                self.vectors.words[i].as_str(),
                self.vectors.words[t as usize].as_str(),
            ) {
                return false;
            }
        }
        let ghost seen = revealed@ + picked@;
        if self.echoes_any(j, revealed, sim) {
            proof {
                let k = choose|k: int|
                    0 <= k < revealed@.len() && self.echoes(*sim, j, #[trigger] revealed@[k]);
                assert(seen[k] == revealed@[k]);
            }
            return false;
        }
        if self.echoes_any(j, picked, sim) {
            proof {
                let k = choose|k: int|
                    0 <= k < picked@.len() && self.echoes(*sim, j, #[trigger] picked@[k]);
                assert(seen[revealed@.len() + k] == picked@[k]);
            }
            return false;
        }
        assert forall|k: int| 0 <= k < seen.len() implies !self.echoes(
            *sim,
            j,
            #[trigger] seen[k],
        ) by {
            if k < revealed@.len() {
                assert(seen[k] == revealed@[k]);
            } else {
                assert(seen[k] == picked@[k - revealed@.len()]);
            }
        }
        true
    }

    /// One pass over a band of the shared neighbourhood.
    fn walk_band<F: Fn(u32, u32) -> Single>(
        &self,
        order: &Vec<u32>,
        from: usize,
        end: usize,
        take: usize,
        targets: &Vec<u32>,
        exclude: &Vec<u32>,
        sim: &F,
    ) -> (picked: Vec<u32>)
        requires
            self.wf(),
            measures(*sim, self.vectors.words@.len()),
            self.known(order@),
            self.known(targets@),
            self.known(exclude@),
            from <= end <= order@.len(),
        ensures
            picked@ == self.walk(
                *sim,
                order@,
                from as int,
                end as int,
                take as int,
                targets@,
                exclude@,
                Seq::empty(),
            ),
    {
        let mut picked: Vec<u32> = Vec::new();
        let mut i: usize = from;
        let ghost all = self.walk(
            *sim,
            order@,
            from as int,
            end as int,
            take as int,
            targets@,
            exclude@,
            Seq::empty(),
        );
        while i < end && picked.len() < take
            invariant
                self.wf(),
                measures(*sim, self.vectors.words@.len()),
                self.known(order@),
                self.known(targets@),
                self.known(exclude@),
                self.known(picked@),
                i <= end <= order@.len(),
                all == self.walk(
                    *sim,
                    order@,
                    i as int,
                    end as int,
                    take as int,
                    targets@,
                    exclude@,
                    picked@,
                ),
            decreases end - i,
        {
            let j: u32 = order[i];
            assert(order@[i as int] < self.vectors.words@.len());
            if self.hint_word_fits(j, targets, exclude, &picked, sim) {
                picked.push(j);
            }
            i = i + 1;
        }
        picked
    }

    /// Words sitting at positions `lo..hi` of the shared neighbourhood of `targets`, with
    /// everything that does not fit skipped along the way. The frequency cap is a walk filter,
    /// not a re-ranking: re-ranking inside the frequent subset dilutes the wide band badly. A
    /// short band is widened rather than returned short.
    pub fn hint_words<F: Fn(u32, u32) -> Single>(
        &self,
        targets: &Vec<u32>,
        lo: usize,
        hi: usize,
        take: usize,
        exclude: &Vec<u32>,
        sim: &F,
    ) -> (r: Vec<u32>)
        requires
            self.wf(),
            measures(*sim, self.vectors.words@.len()),
            self.known(targets@),
            self.known(exclude@),
        ensures
            r@ == self.band_words(
                *sim,
                targets@,
                lo as int,
                hi as int,
                take as int,
                exclude@,
            ),
    {
        let n: usize = self.vectors.n();
        if targets.len() == 0 || take == 0 || n == 0 {
            return Vec::new();
        }
        let mut scores: Vec<Single> = Vec::new();
        self.hint_scores(targets, sim, &mut scores);
        // One sort of the whole lexicon, reused by every widening. Ties are broken by index so
        // the ordering is a total one: a revealed rung is shown for ever, and a selector that
        // reordered ties would change it.
        let order = order_by_similarity(&scores);
        proof {
            lemma_nearest_first(scores@);
        }
        let ghost all = self.band_words(
            *sim,
            targets@,
            lo as int,
            hi as int,
            take as int,
            exclude@,
        );
        let mut end: usize = hi;
        let ghost mut wide: int = hi as int;
        let mut rounds: usize = HINT_WIDEN;
        loop
            invariant
                self.wf(),
                measures(*sim, self.vectors.words@.len()),
                self.known(order@),
                self.known(targets@),
                self.known(exclude@),
                n == self.vectors.words@.len() == order@.len(),
                take > 0,
                end == wide || (end >= n && wide >= n),
                all == self.widened_walk(
                    *sim,
                    order@,
                    lo as int,
                    wide,
                    rounds as int,
                    take as int,
                    targets@,
                    exclude@,
                ),
                all == self.band_words(
                    *sim,
                    targets@,
                    lo as int,
                    hi as int,
                    take as int,
                    exclude@,
                ),
            decreases rounds,
        {
            let head: usize = if end <= n {
                end
            } else {
                n
            };
            let from: usize = if lo <= head {
                lo
            } else {
                head
            };
            let picked = self.walk_band(&order, from, head, take, targets, exclude, sim);
            if picked.len() >= take || rounds == 0 || head >= n {
                return picked;
            }
            end = if end <= usize::MAX / HINT_WIDEN {
                end * HINT_WIDEN
            } else {
                usize::MAX
            };
            proof {
                wide = wide * HINT_WIDEN;
            }
            rounds = rounds - 1;
        }
    }

    /// What the player is told who asks for rung number `level`.
    pub open spec fn hinted<F: Fn(u32, u32) -> Single>(
        self,
        sim: F,
        level: nat,
        revealed: Seq<u32>,
        h: Hint,
    ) -> bool {
        let targets = set_positions(self.alive@);
        if rung(level) is None {
            h == Hint::Locked(HintLocked::Ended)
        } else if self.alive_count == 0 {
            h == Hint::Locked(HintLocked::NoCandidate)
        } else if self.alive_count > HINT_MAX_SET {
            h == Hint::Locked(HintLocked::TooMany { alive: self.alive_count })
        } else if cohesion(sim, targets).below(Single { bits: HINT_MIN_COHESION }) {
            h == Hint::Locked(HintLocked::Scattered { alive: self.alive_count })
        } else {
            let (lo, hi, take) = band_of(rung(level)->0);
            let found = self.band_words(
                sim,
                targets,
                lo as int,
                hi as int,
                take as int,
                revealed,
            );
            if found.len() == 0 {
                h == Hint::Locked(HintLocked::Exhausted)
            } else {
                h matches Hint::Words { level: l, words } && Some(l) == rung(level) && words@
                    == found
            }
        }
    }

    /// One rung of the ladder. Stateless: the caller owns the level counter, so a locked answer
    /// costs the player nothing.
    pub fn hint<F: Fn(u32, u32) -> Single>(&self, level: usize, revealed: &Vec<u32>, sim: &F) -> (h:
        Hint)
        requires
            self.wf(),
            measures(*sim, self.vectors.words@.len()),
            self.known(revealed@),
        ensures
            self.hinted(*sim, level as nat, revealed@, h),
    {
        let rung = match HintLevel::at(level) {
            Some(rung) => rung,
            None => {
                return Hint::Locked(HintLocked::Ended);
            },
        };
        if self.alive_count == 0 {
            return Hint::Locked(HintLocked::NoCandidate);
        }
        let targets = match self.hint_targets() {
            Some(targets) => targets,
            None => {
                return Hint::Locked(HintLocked::TooMany { alive: self.alive_count });
            },
        };
        if self.hint_cohesion(&targets, sim).lt(Single { bits: HINT_MIN_COHESION }) {
            return Hint::Locked(HintLocked::Scattered { alive: self.alive_count });
        }
        let (lo, hi, take) = rung.band();
        let words = self.hint_words(&targets, lo, hi, take, revealed, sim);
        if words.len() == 0 {
            return Hint::Locked(HintLocked::Exhausted);
        }
        Hint::Words { level: rung, words }
    }

    /// How warm a word is, `None` while the ladder is locked.
    pub open spec fn warmed<F: Fn(u32, u32) -> Single>(self, sim: F, idx: u32) -> Option<Warmth> {
        let targets = set_positions(self.alive@);
        if 1 <= self.alive_count <= HINT_MAX_SET && !cohesion(sim, targets).below(
            Single { bits: HINT_MIN_COHESION },
        ) {
            Some(
                Warmth {
                    fit: shared_fit(sim, idx, targets, targets.len() as int),
                    best: best_guess(sim, self.guesses(), targets, self.obs@.len() as int),
                },
            )
        } else {
            None
        }
    }

    /// Warmer or colder for one word: how well it fits every surviving candidate, next to the
    /// best of the player's own guesses. `None` while the ladder is locked: the field is then
    /// too wide for the comparison to mean anything.
    pub fn warmth<F: Fn(u32, u32) -> Single>(&self, idx: u32, sim: &F) -> (r: Option<Warmth>)
        requires
            self.wf(),
            measures(*sim, self.vectors.words@.len()),
            idx < self.vectors.words@.len(),
        ensures
            ({
                let targets = set_positions(self.alive@);
                r == if 1 <= self.alive_count <= HINT_MAX_SET && !cohesion(*sim, targets).below(
                    Single { bits: HINT_MIN_COHESION },
                ) {
                    Some(
                        Warmth {
                            fit: shared_fit(*sim, idx, targets, targets.len() as int),
                            best: best_guess(
                                *sim,
                                self.guesses(),
                                targets,
                                self.obs@.len() as int,
                            ),
                        },
                    )
                } else {
                    None
                }
            }),
            r == self.warmed(*sim, idx),
    {
        let targets = match self.hint_targets() {
            Some(targets) => targets,
            None => {
                return None;
            },
        };
        if self.hint_cohesion(&targets, sim).lt(Single { bits: HINT_MIN_COHESION }) {
            return None;
        }
        let mut best: Option<(u32, Single)> = None;
        for k in 0..self.obs.len()
            invariant
                self.wf(),
                measures(*sim, self.vectors.words@.len()),
                self.known(targets@),
                best == best_guess(*sim, self.guesses(), targets@, k as int),
        {
            let g: u32 = self.obs[k].idx;
            let fit: Single = self.fit_to(g, &targets, sim);
            let keep: bool = match best {
                Some((_, f)) => f.total_key() > fit.total_key(),
                None => false,
            };
            if !keep {
                best = Some((g, fit));
            }
        }
        Some(Warmth { fit: self.fit_to(idx, &targets, sim), best })
    }
}

/// Every word of a list fits next to the words revealed before and the earlier ones of the list.
pub open spec fn sound<F: Fn(u32, u32) -> Single>(
    s: Solver,
    sim: F,
    targets: Seq<u32>,
    revealed: Seq<u32>,
    words: Seq<u32>,
) -> bool {
    forall|m: int|
        0 <= m < words.len() ==> s.hint_fits(
            sim,
            #[trigger] words[m],
            targets,
            revealed + words.take(m),
        )
}

/// The words of a list stand at positions `lo..hi` of `order`, in that order.
spec fn follows(order: Seq<u32>, words: Seq<u32>, at: Seq<int>, lo: int, hi: int) -> bool {
    &&& at.len() == words.len()
    &&& forall|m: int|
        0 <= m < at.len() ==> lo <= #[trigger] at[m] < hi && words[m] == order[at[m]]
    &&& forall|m: int, k: int| 0 <= m < k < at.len() ==> #[trigger] at[m] < #[trigger] at[k]
}

/// A walk picks words that fit, in the order of the neighbourhood.
proof fn lemma_walk<F: Fn(u32, u32) -> Single>(
    s: Solver,
    sim: F,
    order: Seq<u32>,
    lo: int,
    i: int,
    end: int,
    take: int,
    targets: Seq<u32>,
    exclude: Seq<u32>,
    picked: Seq<u32>,
    at: Seq<int>,
) -> (r: Seq<int>)
    requires
        0 <= i <= end <= order.len(),
        i < end ==> lo <= i,
        picked.len() <= take,
        sound(s, sim, targets, exclude, picked),
        follows(order, picked, at, lo, i),
    ensures
        s.walk(sim, order, i, end, take, targets, exclude, picked).len() <= take,
        sound(
            s,
            sim,
            targets,
            exclude,
            s.walk(sim, order, i, end, take, targets, exclude, picked),
        ),
        follows(
            order,
            s.walk(sim, order, i, end, take, targets, exclude, picked),
            r,
            lo,
            end,
        ),
    decreases end - i,
{
    if i >= end || picked.len() >= take {
        at
    } else if s.hint_fits(sim, order[i], targets, exclude + picked) {
        let more = picked.push(order[i]);
        assert forall|m: int| 0 <= m < more.len() implies s.hint_fits(
            sim,
            #[trigger] more[m],
            targets,
            exclude + more.take(m),
        ) by {
            if m < picked.len() {
                assert(more.take(m) =~= picked.take(m));
                assert(s.hint_fits(sim, picked[m], targets, exclude + picked.take(m)));
            } else {
                assert(more.take(m) =~= picked);
            }
        }
        lemma_walk(s, sim, order, lo, i + 1, end, take, targets, exclude, more, at.push(i))
    } else {
        lemma_walk(s, sim, order, lo, i + 1, end, take, targets, exclude, picked, at)
    }
}

/// So does a walk over a widened band.
proof fn lemma_widened_walk<F: Fn(u32, u32) -> Single>(
    s: Solver,
    sim: F,
    order: Seq<u32>,
    lo: int,
    hi: int,
    rounds: int,
    take: int,
    targets: Seq<u32>,
    exclude: Seq<u32>,
) -> (r: Seq<int>)
    requires
        0 <= lo,
        0 <= hi,
        0 <= take,
    ensures
        s.widened_walk(sim, order, lo, hi, rounds, take, targets, exclude).len() <= take,
        sound(
            s,
            sim,
            targets,
            exclude,
            s.widened_walk(sim, order, lo, hi, rounds, take, targets, exclude),
        ),
        follows(
            order,
            s.widened_walk(sim, order, lo, hi, rounds, take, targets, exclude),
            r,
            lo,
            order.len() as int,
        ),
        s.pass(sim, order, lo, hi, take, targets, exclude).len() >= take ==> follows(
            order,
            s.widened_walk(sim, order, lo, hi, rounds, take, targets, exclude),
            r,
            lo,
            hi,
        ),
    decreases rounds,
{
    let n = order.len() as int;
    let end = if hi <= n {
        hi
    } else {
        n
    };
    let from = if lo <= end {
        lo
    } else {
        end
    };
    let picked = s.pass(sim, order, lo, hi, take, targets, exclude);
    let at = lemma_walk(
        s,
        sim,
        order,
        lo,
        from,
        end,
        take,
        targets,
        exclude,
        Seq::empty(),
        Seq::empty(),
    );
    if picked.len() >= take || rounds <= 0 || end >= n {
        at
    } else {
        lemma_widened_walk(s, sim, order, lo, hi * HINT_WIDEN, rounds - 1, take, targets, exclude)
    }
}

/// A hint never names a candidate, a banned word, a word already played or a relative of a
/// candidate; its words are familiar and plausible; and none is a relative or a near-duplicate
/// of a word already revealed, or of another word of the same rung.
pub proof fn lemma_hint_words_are_safe<F: Fn(u32, u32) -> Single>(
    s: Solver,
    sim: F,
    level: nat,
    revealed: Seq<u32>,
    h: Hint,
)
    requires
        s.wf(),
        s.hinted(sim, level, revealed, h),
        h is Words,
    ensures
        ({
            let words = h->words@;
            let targets = set_positions(s.alive@);
            &&& 0 < words.len() <= band_of(h->level).2
            &&& forall|m: int|
                0 <= m < words.len() ==> (#[trigger] words[m]) < s.vectors.words@.len() && words[m]
                    < HINT_FAMILIAR_RANK && !s.alive@[words[m] as int]
                    && !s.banned@[words[m] as int] && !s.guesses().contains(words[m])
                    && plausible_word(s.vectors.texts()[words[m] as int])
            &&& forall|m: int, k: int|
                0 <= m < words.len() && 0 <= k < targets.len() ==> !same_family(
                    s.vectors.texts()[#[trigger] words[m] as int],
                    s.vectors.texts()[#[trigger] targets[k] as int],
                )
            &&& forall|m: int, k: int|
                0 <= m < words.len() && 0 <= k < revealed.len() ==> !s.echoes(
                    sim,
                    #[trigger] words[m],
                    #[trigger] revealed[k],
                )
            &&& forall|m: int, k: int|
                0 <= k < m < words.len() ==> !s.echoes(
                    sim,
                    #[trigger] words[m],
                    #[trigger] words[k],
                )
        }),
{
    let words = h->words@;
    let targets = set_positions(s.alive@);
    let n = s.vectors.words@.len();
    let (lo, hi, take) = band_of(h->level);
    let fits = shared_fits(sim, targets, n);
    let order = nearest_first(fits);
    lemma_nearest_first(fits);
    let at = lemma_widened_walk(
        s,
        sim,
        order,
        lo as int,
        hi as int,
        HINT_WIDEN as int,
        take as int,
        targets,
        revealed,
    );
    assert forall|m: int| 0 <= m < words.len() implies (#[trigger] words[m]) < n && s.hint_fits(
        sim,
        words[m],
        targets,
        revealed + words.take(m),
    ) by {
        assert(words[m] == order[at[m]]);
    }
    assert forall|m: int| 0 <= m < words.len() implies !s.guesses().contains(
        #[trigger] words[m],
    ) by {
        if s.guesses().contains(words[m]) {
            let k = choose|k: int| 0 <= k < s.guesses().len() && s.guesses()[k] == words[m];
            assert(s.obs@[k].idx == words[m]);
        }
    }
    assert forall|m: int, k: int| 0 <= m < words.len() && 0 <= k < revealed.len() implies !s.echoes(
        sim,
        #[trigger] words[m],
        #[trigger] revealed[k],
    ) by {
        assert((revealed + words.take(m))[k] == revealed[k]);
    }
    assert forall|m: int, k: int| 0 <= k < m < words.len() implies !s.echoes(
        sim,
        #[trigger] words[m],
        #[trigger] words[k],
    ) by {
        assert((revealed + words.take(m))[revealed.len() + k] == words[k]);
    }
}

/// The words of a rung come out nearest first: each fits the candidates at least as well as
/// the next.
pub proof fn lemma_rung_is_ordered<F: Fn(u32, u32) -> Single>(
    s: Solver,
    sim: F,
    level: nat,
    revealed: Seq<u32>,
    h: Hint,
    a: int,
    b: int,
)
    requires
        s.wf(),
        s.hinted(sim, level, revealed, h),
        h is Words,
        0 <= a < b < h->words@.len(),
    ensures
        ({
            let targets = set_positions(s.alive@);
            let m = targets.len() as int;
            shared_fit(sim, h->words@[a], targets, m).total() >= shared_fit(
                sim,
                h->words@[b],
                targets,
                m,
            ).total()
        }),
        h->words@[a] != h->words@[b],
{
    let words = h->words@;
    let targets = set_positions(s.alive@);
    let n = s.vectors.words@.len();
    let (lo, hi, take) = band_of(h->level);
    let fits = shared_fits(sim, targets, n);
    let order = nearest_first(fits);
    lemma_nearest_first(fits);
    let at = lemma_widened_walk(
        s,
        sim,
        order,
        lo as int,
        hi as int,
        HINT_WIDEN as int,
        take as int,
        targets,
        revealed,
    );
    assert(words[a] == order[at[a]] && words[b] == order[at[b]]);
    assert(at[a] < at[b]);
    assert(nearer(fits)(order[at[a]], order[at[b]]));
    assert(fits[words[a] as int] == shared_fit(sim, words[a], targets, targets.len() as int));
    assert(fits[words[b] as int] == shared_fit(sim, words[b], targets, targets.len() as int));
}

/// The ladder gets closer rung by rung: a word of a later rung whose band needed no widening
/// fits the candidates at least as well as any word of an earlier rung.
pub proof fn lemma_later_rungs_are_closer<F: Fn(u32, u32) -> Single>(
    s: Solver,
    sim: F,
    early: nat,
    late: nat,
    seen_early: Seq<u32>,
    seen_late: Seq<u32>,
    first: Hint,
    second: Hint,
    a: int,
    b: int,
)
    requires
        s.wf(),
        early < late,
        s.hinted(sim, early, seen_early, first),
        s.hinted(sim, late, seen_late, second),
        first is Words,
        second is Words,
        0 <= a < first->words@.len(),
        0 <= b < second->words@.len(),
        ({
            let targets = set_positions(s.alive@);
            let order = nearest_first(shared_fits(sim, targets, s.vectors.words@.len()));
            let (lo, hi, take) = band_of(second->level);
            s.pass(sim, order, lo as int, hi as int, take as int, targets, seen_late).len() >= take
        }),
    ensures
        ({
            let targets = set_positions(s.alive@);
            let m = targets.len() as int;
            shared_fit(sim, second->words@[b], targets, m).total() >= shared_fit(
                sim,
                first->words@[a],
                targets,
                m,
            ).total()
        }),
{
    let targets = set_positions(s.alive@);
    let n = s.vectors.words@.len();
    let fits = shared_fits(sim, targets, n);
    let order = nearest_first(fits);
    lemma_nearest_first(fits);
    let (lo1, hi1, take1) = band_of(first->level);
    let (lo2, hi2, take2) = band_of(second->level);
    let at1 = lemma_widened_walk(
        s,
        sim,
        order,
        lo1 as int,
        hi1 as int,
        HINT_WIDEN as int,
        take1 as int,
        targets,
        seen_early,
    );
    let at2 = lemma_widened_walk(
        s,
        sim,
        order,
        lo2 as int,
        hi2 as int,
        HINT_WIDEN as int,
        take2 as int,
        targets,
        seen_late,
    );
    let (x, y) = (first->words@[a], second->words@[b]);
    assert(x == order[at1[a]] && y == order[at2[b]]);
    assert(at2[b] < hi2 <= lo1 <= at1[a]);
    assert(nearer(fits)(order[at2[b]], order[at1[a]]));
    assert(fits[x as int] == shared_fit(sim, x, targets, targets.len() as int));
    assert(fits[y as int] == shared_fit(sim, y, targets, targets.len() as int));
}

/// No word is handed out on two rungs, as long as words are similar to themselves.
pub proof fn lemma_no_word_on_two_rungs<F: Fn(u32, u32) -> Single>(
    s: Solver,
    sim: F,
    level: nat,
    revealed: Seq<u32>,
    h: Hint,
    m: int,
)
    requires
        s.wf(),
        s.hinted(sim, level, revealed, h),
        h is Words,
        0 <= m < h->words@.len(),
        (Single { bits: HINT_DIVERSITY }).below(cosine(sim, h->words@[m], h->words@[m])),
    ensures
        !revealed.contains(h->words@[m]),
{
    lemma_hint_words_are_safe(s, sim, level, revealed, h);
    let words = h->words@;
    if revealed.contains(words[m]) {
        let k = choose|k: int| 0 <= k < revealed.len() && revealed[k] == words[m];
        assert(!s.echoes(sim, words[m], revealed[k]));
    }
}

/// How well a word fits is no more than its cosine to any target.
pub proof fn lemma_fit_bounds<F: Fn(u32, u32) -> Single>(
    sim: F,
    j: u32,
    targets: Seq<u32>,
    m: int,
    k: int,
)
    requires
        0 <= k < m <= targets.len(),
        forall|i: int| 0 <= i < targets.len() ==> !cosine(sim, j, #[trigger] targets[i]).nan(),
    ensures
        shared_fit(sim, j, targets, m).at_most(cosine(sim, j, targets[k])),
    decreases m,
{
    if k < m - 1 {
        lemma_fit_bounds(sim, j, targets, m - 1, k);
    } else {
        lemma_fit_is_a_number(sim, j, targets, m - 1);
    }
    assert(!cosine(sim, j, targets[m - 1]).nan());
}

/// How well a word fits is a number.
proof fn lemma_fit_is_a_number<F: Fn(u32, u32) -> Single>(
    sim: F,
    j: u32,
    targets: Seq<u32>,
    m: int,
)
    requires
        0 <= m <= targets.len(),
        forall|i: int| 0 <= i < targets.len() ==> !cosine(sim, j, #[trigger] targets[i]).nan(),
    ensures
        !shared_fit(sim, j, targets, m).nan(),
    decreases m,
{
    if m > 0 {
        lemma_fit_is_a_number(sim, j, targets, m - 1);
        assert(!cosine(sim, j, targets[m - 1]).nan());
    }
}

/// The cohesion is no more than the cosine of any two targets.
pub proof fn lemma_cohesion_bounds<F: Fn(u32, u32) -> Single>(
    sim: F,
    targets: Seq<u32>,
    a: int,
    b: int,
)
    requires
        0 <= a < b < targets.len(),
        forall|i: int, k: int|
            0 <= i < k < targets.len() ==> !cosine(
                sim,
                #[trigger] targets[i],
                #[trigger] targets[k],
            ).nan(),
    ensures
        cohesion(sim, targets).at_most(cosine(sim, targets[a], targets[b])),
{
    lemma_lowest_pair(sim, targets, 0, 1, Single { bits: SURE }, a, b);
}

proof fn lemma_lowest_pair<F: Fn(u32, u32) -> Single>(
    sim: F,
    targets: Seq<u32>,
    i: int,
    k: int,
    lo: Single,
    a: int,
    b: int,
)
    requires
        0 <= i < k,
        !lo.nan(),
        0 <= a < b < targets.len(),
        forall|i: int, k: int|
            0 <= i < k < targets.len() ==> !cosine(
                sim,
                #[trigger] targets[i],
                #[trigger] targets[k],
            ).nan(),
    ensures
        lowest_pair(sim, targets, i, k, lo).at_most(lo),
        i < a || (i == a && k <= b) ==> lowest_pair(sim, targets, i, k, lo).at_most(
            cosine(sim, targets[a], targets[b]),
        ),
    decreases targets.len() - i, targets.len() - k,
{
    if i >= targets.len() {
    } else if k >= targets.len() {
        lemma_lowest_pair(sim, targets, i + 1, i + 2, lo, a, b);
    } else {
        let x = cosine(sim, targets[i], targets[k]);
        assert(!x.nan());
        lemma_lowest_pair(sim, targets, i, k + 1, lo.lower(x), a, b);
    }
}

/// How well a word fits is its cosine to one of the targets.
pub proof fn lemma_fit_is_attained<F: Fn(u32, u32) -> Single>(
    sim: F,
    j: u32,
    targets: Seq<u32>,
    m: int,
)
    requires
        0 < m <= targets.len(),
        forall|i: int| 0 <= i < targets.len() ==> !cosine(sim, j, #[trigger] targets[i]).nan(),
    ensures
        exists|k: int|
            #![trigger targets[k]]
            0 <= k < m && shared_fit(sim, j, targets, m) == cosine(sim, j, targets[k]),
    decreases m,
{
    let c = cosine(sim, j, targets[m - 1]);
    if m > 1 {
        lemma_fit_is_attained(sim, j, targets, m - 1);
        let k = choose|k: int|
            #![trigger targets[k]]
            0 <= k < m - 1 && shared_fit(sim, j, targets, m - 1) == cosine(sim, j, targets[k]);
        assert(targets[k] == targets[k]);
    } else {
        assert(shared_fit(sim, j, targets, 0) == (Single { bits: BOUNDLESS }));
        if !c.below(Single { bits: BOUNDLESS }) {
            lemma_single_total_order(c, Single { bits: BOUNDLESS });
        }
    }
}

/// The cohesion is the cosine of two targets, or one where none lies under it.
pub proof fn lemma_cohesion_is_attained<F: Fn(u32, u32) -> Single>(sim: F, targets: Seq<u32>)
    requires
        forall|i: int, k: int|
            0 <= i < k < targets.len() ==> !cosine(
                sim,
                #[trigger] targets[i],
                #[trigger] targets[k],
            ).nan(),
    ensures
        cohesion(sim, targets).at_most(Single { bits: SURE }),
        cohesion(sim, targets) == (Single { bits: SURE }) || exists|a: int, b: int|
            0 <= a < b < targets.len() && cohesion(sim, targets) == cosine(
                sim,
                #[trigger] targets[a],
                #[trigger] targets[b],
            ),
{
    lemma_lowest_is_attained(sim, targets, 0, 1, Single { bits: SURE });
}

proof fn lemma_lowest_is_attained<F: Fn(u32, u32) -> Single>(
    sim: F,
    targets: Seq<u32>,
    i: int,
    k: int,
    lo: Single,
)
    requires
        0 <= i < k,
        !lo.nan(),
        forall|i: int, k: int|
            0 <= i < k < targets.len() ==> !cosine(
                sim,
                #[trigger] targets[i],
                #[trigger] targets[k],
            ).nan(),
    ensures
        lowest_pair(sim, targets, i, k, lo).at_most(lo),
        lowest_pair(sim, targets, i, k, lo) == lo || exists|a: int, b: int|
            0 <= a < b < targets.len() && lowest_pair(sim, targets, i, k, lo) == cosine(
                sim,
                #[trigger] targets[a],
                #[trigger] targets[b],
            ),
    decreases targets.len() - i, targets.len() - k,
{
    if i >= targets.len() {
    } else if k >= targets.len() {
        lemma_lowest_is_attained(sim, targets, i + 1, i + 2, lo);
    } else {
        let c = cosine(sim, targets[i], targets[k]);
        lemma_lowest_is_attained(sim, targets, i, k + 1, lo.lower(c));
    }
}

/// The best guess is one of the guesses, told with its fit, and no guess fits better.
pub proof fn lemma_best_guess_fits_best<F: Fn(u32, u32) -> Single>(
    sim: F,
    guesses: Seq<u32>,
    targets: Seq<u32>,
    m: int,
    k: int,
)
    requires
        0 <= k < m <= guesses.len(),
    ensures
        best_guess(sim, guesses, targets, m) matches Some((b, f)) && guesses.take(m).contains(b) && f
            == shared_fit(sim, b, targets, targets.len() as int) && shared_fit(
            sim,
            guesses[k],
            targets,
            targets.len() as int,
        ).total() <= f.total(),
        // among guesses that fit alike, the latest
        best_guess(sim, guesses, targets, m) matches Some((b, f)) && exists|i: int|
            #![trigger guesses[i]]
            0 <= i < m && guesses[i] == b && (i < k ==> shared_fit(
                sim,
                guesses[k],
                targets,
                targets.len() as int,
            ).total() < f.total()),
    decreases m,
{
    assert(guesses.take(m)[m - 1] == guesses[m - 1]);
    if m == 1 {
        assert(guesses[0] == (best_guess(sim, guesses, targets, 1)->0).0) by {
            assert(best_guess(sim, guesses, targets, 0) is None);
        }
    }
    if m > 1 {
        let j = if k < m - 1 {
            k
        } else {
            0
        };
        lemma_best_guess_fits_best(sim, guesses, targets, m - 1, j);
        let (b, _) = best_guess(sim, guesses, targets, m - 1)->0;
        let old = guesses.take(m - 1);
        let i = choose|i: int| 0 <= i < old.len() && old[i] == b;
        assert(guesses.take(m)[i] == b);
    }
}

/// When warmth is told: while one to eight candidates are left and no two of them lie under 0.30.
/// The fit of a word is then its lowest cosine to a candidate. The best of the player's guesses
/// is one of them, told with its own fit, and every guess is that far from some candidate.
pub proof fn lemma_warmth_compares_with_the_best<F: Fn(u32, u32) -> Single>(
    s: Solver,
    sim: F,
    idx: u32,
    t: int,
    k: int,
)
    requires
        s.wf(),
        forall|i: u32, j: u32| !(#[trigger] cosine(sim, i, j)).nan(),
        0 <= t < set_positions(s.alive@).len(),
        0 <= k < s.obs@.len(),
    ensures
        ({
            let targets = set_positions(s.alive@);
            let told = s.warmed(sim, idx);
            &&& s.alive_count > 8 ==> told is None
            &&& s.alive_count <= 8 && (forall|a: int, b: int|
                0 <= a < b < targets.len() ==> !cosine(
                    sim,
                    #[trigger] targets[a],
                    #[trigger] targets[b],
                ).below(Single { bits: 0x3e99_999a })) ==> told is Some
            &&& told matches Some(w) ==> {
                &&& w.fit.at_most(cosine(sim, idx, targets[t]))
                &&& exists|a: int|
                    #![trigger targets[a]]
                    0 <= a < targets.len() && w.fit == cosine(sim, idx, targets[a])
                &&& w.best matches Some((b, f))
                &&& s.guesses().contains(b)
                &&& f.at_most(cosine(sim, b, targets[t]))
                &&& exists|a: int|
                    #![trigger targets[a]]
                    0 <= a < targets.len() && f == cosine(sim, b, targets[a])
                &&& exists|a: int|
                    #![trigger targets[a]]
                    0 <= a < targets.len() && cosine(sim, s.obs@[k].idx, targets[a]).at_most(f)
            }
        }),
{
    let targets = set_positions(s.alive@);
    let n = targets.len() as int;
    let g = s.guesses();
    lemma_cohesion_is_attained(sim, targets);
    lemma_fit_bounds(sim, idx, targets, n, t);
    lemma_fit_is_attained(sim, idx, targets, n);
    lemma_best_guess_fits_best(sim, g, targets, g.len() as int, k);
    let (b, f) = best_guess(sim, g, targets, g.len() as int)->0;
    assert(g.take(g.len() as int) =~= g);
    lemma_fit_bounds(sim, b, targets, n, t);
    lemma_fit_is_attained(sim, b, targets, n);
    lemma_fit_is_attained(sim, g[k], targets, n);
    let a = choose|a: int|
        #![trigger targets[a]]
        0 <= a < n && shared_fit(sim, g[k], targets, n) == cosine(sim, g[k], targets[a]);
    assert(cosine(sim, g[k], targets[a]).total() <= f.total());
    assert(cosine(sim, g[k], targets[a]).at_most(f));
}

/// Nothing else disqualifies a word: a frequent plausible word that is no candidate, that nobody
/// banned or played, that is of no candidate's family, and that is neither a relative nor a
/// near-duplicate of a word already seen, can be handed out; and a word that fails any of these
/// cannot.
pub proof fn lemma_which_words_can_be_hints<F: Fn(u32, u32) -> Single>(
    s: Solver,
    sim: F,
    j: u32,
    targets: Seq<u32>,
    seen: Seq<u32>,
)
    ensures
        ({
            let text = s.vectors.texts();
            s.hint_fits(sim, j, targets, seen) <==> {
                &&& j < 20_000
                &&& !s.alive@[j as int]
                &&& !s.banned@[j as int]
                &&& plausible_word(text[j as int])
                &&& !s.guesses().contains(j)
                &&& forall|k: int|
                    0 <= k < targets.len() ==> !same_family(
                        text[j as int],
                        text[#[trigger] targets[k] as int],
                    )
                &&& forall|k: int|
                    0 <= k < seen.len() ==> !same_family(
                        text[j as int],
                        text[#[trigger] seen[k] as int],
                    ) && !(Single { bits: 0x3f0c_cccd }).below(cosine(sim, j, seen[k]))
            }
        }),
{
    if s.guesses().contains(j) {
        let k = choose|k: int| 0 <= k < s.guesses().len() && s.guesses()[k] == j;
        assert(s.obs@[k].idx == j);
    }
    if forall|k: int| 0 <= k < s.obs@.len() ==> (#[trigger] s.obs@[k]).idx != j {
    } else {
        let k = choose|k: int| 0 <= k < s.obs@.len() && (#[trigger] s.obs@[k]).idx == j;
        assert(s.guesses()[k] == j);
    }
    if s.hint_fits(sim, j, targets, seen) {
        assert forall|k: int| 0 <= k < seen.len() implies !same_family(
            s.vectors.texts()[j as int],
            s.vectors.texts()[#[trigger] seen[k] as int],
        ) && !(Single { bits: 0x3f0c_cccd }).below(cosine(sim, j, seen[k])) by {
            assert(!s.echoes(sim, j, seen[k]));
        }
    }
}

/// A walk keeps what it has picked.
proof fn lemma_walk_extends<F: Fn(u32, u32) -> Single>(
    s: Solver,
    sim: F,
    order: Seq<u32>,
    i: int,
    end: int,
    take: int,
    targets: Seq<u32>,
    exclude: Seq<u32>,
    picked: Seq<u32>,
)
    ensures
        ({
            let r = s.walk(sim, order, i, end, take, targets, exclude, picked);
            r.len() >= picked.len() && r.take(picked.len() as int) == picked
        }),
    decreases end - i,
{
    if i >= end || picked.len() >= take {
        assert(picked.take(picked.len() as int) =~= picked);
    } else if s.hint_fits(sim, order[i], targets, exclude + picked) {
        let more = picked.push(order[i]);
        lemma_walk_extends(s, sim, order, i + 1, end, take, targets, exclude, more);
        let r = s.walk(sim, order, i + 1, end, take, targets, exclude, more);
        assert(r.take(picked.len() as int) =~= r.take(more.len() as int).take(picked.len() as int));
        assert(more.take(picked.len() as int) =~= picked);
    } else {
        lemma_walk_extends(s, sim, order, i + 1, end, take, targets, exclude, picked);
    }
}

/// The first word of a walk is the first that fits, and there is one if any fits.
proof fn lemma_walk_takes_the_first<F: Fn(u32, u32) -> Single>(
    s: Solver,
    sim: F,
    order: Seq<u32>,
    i: int,
    end: int,
    take: int,
    targets: Seq<u32>,
    exclude: Seq<u32>,
) -> (p: int)
    requires
        take > 0,
    ensures
        ({
            let r = s.walk(sim, order, i, end, take, targets, exclude, Seq::empty());
            &&& r.len() > 0 ==> i <= p < end && r[0] == order[p] && s.hint_fits(
                sim,
                order[p],
                targets,
                exclude,
            )
            &&& r.len() == 0 ==> p >= end
            &&& forall|q: int|
                i <= q < p && q < end ==> !s.hint_fits(sim, #[trigger] order[q], targets, exclude)
        }),
    decreases end - i,
{
    let none = Seq::<u32>::empty();
    assert(exclude + none =~= exclude);
    if i >= end {
        i
    } else if s.hint_fits(sim, order[i], targets, exclude) {
        let one = none.push(order[i]);
        lemma_walk_extends(s, sim, order, i + 1, end, take, targets, exclude, one);
        let r = s.walk(sim, order, i + 1, end, take, targets, exclude, one);
        assert(r.take(1)[0] == one[0]);
        i
    } else {
        lemma_walk_takes_the_first(s, sim, order, i + 1, end, take, targets, exclude)
    }
}

/// A short band is widened: after `rounds` doublings either a word was found, the first that
/// fits, or none fits up to there.
proof fn lemma_widened_takes_the_first<F: Fn(u32, u32) -> Single>(
    s: Solver,
    sim: F,
    order: Seq<u32>,
    lo: int,
    hi: int,
    rounds: int,
    take: int,
    targets: Seq<u32>,
    exclude: Seq<u32>,
) -> (p: int)
    requires
        take > 0,
        0 <= lo,
        0 <= hi,
        0 <= rounds <= 2,
    ensures
        ({
            let r = s.widened_walk(sim, order, lo, hi, rounds, take, targets, exclude);
            let top = if rounds == 2 {
                4 * hi
            } else if rounds == 1 {
                2 * hi
            } else {
                hi
            };
            &&& r.len() > 0 ==> lo <= p < order.len() && p < top && r[0] == order[p]
                && s.hint_fits(sim, order[p], targets, exclude)
            &&& r.len() == 0 ==> p >= top || p >= order.len()
            &&& forall|q: int|
                lo <= q < p && q < order.len() && q < top ==> !s.hint_fits(
                    sim,
                    #[trigger] order[q],
                    targets,
                    exclude,
                )
        }),
    decreases rounds,
{
    let n = order.len() as int;
    let end = if hi <= n {
        hi
    } else {
        n
    };
    let from = if lo <= end {
        lo
    } else {
        end
    };
    let picked = s.pass(sim, order, lo, hi, take, targets, exclude);
    let p = lemma_walk_takes_the_first(s, sim, order, from, end, take, targets, exclude);
    if picked.len() >= take || rounds <= 0 || hi >= n {
        if picked.len() == 0 {
            if p > end {
                p
            } else {
                end
            }
        } else {
            p
        }
    } else {
        lemma_widened_takes_the_first(
            s,
            sim,
            order,
            lo,
            hi * HINT_WIDEN,
            rounds - 1,
            take,
            targets,
            exclude,
        )
    }
}

/// The first word of a rung is the nearest one that can be handed out, from the start of the
/// rung's band on: position 200, 25 or 2 of the neighbourhood. A rung is exhausted only if no word
/// can be up to four times the end of the band: position 3600, 480 or 48.
pub proof fn lemma_rung_starts_with_the_nearest<F: Fn(u32, u32) -> Single>(
    s: Solver,
    sim: F,
    level: nat,
    revealed: Seq<u32>,
    h: Hint,
    q: int,
)
    requires
        s.wf(),
        s.hinted(sim, level, revealed, h),
        level < 3,
        h is Words || h == Hint::Locked(HintLocked::Exhausted),
        ({
            let start = if level == 0 {
                200
            } else if level == 1 {
                25
            } else {
                2int
            };
            let top = if level == 0 {
                3600
            } else if level == 1 {
                480
            } else {
                48int
            };
            start <= q < top && q < s.vectors.words@.len()
        }),
    ensures
        ({
            let targets = set_positions(s.alive@);
            let order = nearest_first(shared_fits(sim, targets, s.vectors.words@.len()));
            s.hint_fits(sim, order[q], targets, revealed) ==> {
                &&& h is Words
                &&& exists|p: int|
                    #![trigger order[p]]
                    0 <= p <= q && h->words@[0] == order[p]
            }
        }),
        h is Words ==> ({
            let targets = set_positions(s.alive@);
            let order = nearest_first(shared_fits(sim, targets, s.vectors.words@.len()));
            exists|p: int|
                #![trigger order[p]]
                (if level == 0 {
                    200
                } else if level == 1 {
                    25
                } else {
                    2int
                }) <= p < order.len() && h->words@[0] == order[p]
        }),
{
    let targets = set_positions(s.alive@);
    let n = s.vectors.words@.len();
    let fits = shared_fits(sim, targets, n);
    let order = nearest_first(fits);
    lemma_nearest_first(fits);
    let (lo, hi, take) = band_of(rung(level)->0);
    let p = lemma_widened_takes_the_first(
        s,
        sim,
        order,
        lo as int,
        hi as int,
        2,
        take as int,
        targets,
        revealed,
    );
    if h is Words {
        assert(h->words@[0] == order[p]);
    }
}

/// Why a hint is refused: past the last rung; with no candidate left; with more than eight; with
/// two candidates under 0.30 of each other. Otherwise it is given, or the band is exhausted.
pub proof fn lemma_when_hints_are_locked<F: Fn(u32, u32) -> Single>(
    s: Solver,
    sim: F,
    level: nat,
    revealed: Seq<u32>,
    h: Hint,
)
    requires
        s.wf(),
        s.hinted(sim, level, revealed, h),
        forall|i: u32, j: u32| !(#[trigger] cosine(sim, i, j)).nan(),
    ensures
        level >= 3 <==> h == Hint::Locked(HintLocked::Ended),
        level < 3 ==> (s.alive_count == 0 <==> h == Hint::Locked(HintLocked::NoCandidate)),
        level < 3 ==> (s.alive_count > 8 <==> h == Hint::Locked(
            HintLocked::TooMany { alive: s.alive_count },
        )),
        level < 3 && 1 <= s.alive_count <= 8 ==> ({
            let targets = set_positions(s.alive@);
            (exists|a: int, b: int|
                0 <= a < b < targets.len() && cosine(
                    sim,
                    #[trigger] targets[a],
                    #[trigger] targets[b],
                ).below(Single { bits: 0x3e99_999a })) <==> h == Hint::Locked(
                HintLocked::Scattered { alive: s.alive_count },
            )
        }),
        h matches Hint::Words { level: l, words } ==> words@.len() > 0 && (level == 0 ==> l
            == HintLevel::Field) && (level == 1 ==> l == HintLevel::Tight) && (level == 2 ==> l
            == HintLevel::Near),
{
    let targets = set_positions(s.alive@);
    let low = Single { bits: HINT_MIN_COHESION };
    lemma_cohesion_is_attained(sim, targets);
    if exists|a: int, b: int|
        0 <= a < b < targets.len() && cosine(
            sim,
            #[trigger] targets[a],
            #[trigger] targets[b],
        ).below(low) {
        let (a, b) = choose|a: int, b: int|
            0 <= a < b < targets.len() && cosine(
                sim,
                #[trigger] targets[a],
                #[trigger] targets[b],
            ).below(low);
        lemma_cohesion_bounds(sim, targets, a, b);
    }
}

/// A walk that comes back short has left out no word that fits next to what it picked.
proof fn lemma_short_walk_is_complete<F: Fn(u32, u32) -> Single>(
    s: Solver,
    sim: F,
    order: Seq<u32>,
    i: int,
    end: int,
    take: int,
    targets: Seq<u32>,
    exclude: Seq<u32>,
    picked: Seq<u32>,
    q: int,
)
    requires
        i <= q < end,
        s.walk(sim, order, i, end, take, targets, exclude, picked).len() < take,
    ensures
        ({
            let r = s.walk(sim, order, i, end, take, targets, exclude, picked);
            r.contains(order[q]) || !s.hint_fits(sim, order[q], targets, exclude + r)
        }),
    decreases end - i,
{
    let r = s.walk(sim, order, i, end, take, targets, exclude, picked);
    lemma_walk_extends(s, sim, order, i, end, take, targets, exclude, picked);
    if s.hint_fits(sim, order[i], targets, exclude + picked) {
        let more = picked.push(order[i]);
        lemma_walk_extends(s, sim, order, i + 1, end, take, targets, exclude, more);
        assert(r.take(more.len() as int)[picked.len() as int] == order[i]);
        assert(r[picked.len() as int] == order[i]);
        if q > i {
            lemma_short_walk_is_complete(
                s,
                sim,
                order,
                i + 1,
                end,
                take,
                targets,
                exclude,
                more,
                q,
            );
        }
    } else {
        if q > i {
            lemma_short_walk_is_complete(
                s,
                sim,
                order,
                i + 1,
                end,
                take,
                targets,
                exclude,
                picked,
                q,
            );
        } else if s.hint_fits(sim, order[i], targets, exclude + r) {
            let (few, all) = (exclude + picked, exclude + r);
            assert forall|k: int| 0 <= k < few.len() implies !s.echoes(
                sim,
                order[i],
                #[trigger] few[k],
            ) by {
                if k >= exclude.len() {
                    assert(r.take(picked.len() as int)[k - exclude.len()] == picked[k - exclude.len()]);
                }
                assert(all[k] == few[k]);
            }
        }
    }
}

/// A rung holds four words, three or one. It comes back short only if its band, widened as far as
/// it goes, holds no other word that can be handed out next to those it has.
pub proof fn lemma_short_rung_is_complete<F: Fn(u32, u32) -> Single>(
    s: Solver,
    sim: F,
    level: nat,
    revealed: Seq<u32>,
    h: Hint,
    q: int,
)
    requires
        s.wf(),
        s.hinted(sim, level, revealed, h),
        h is Words,
        ({
            let (start, top) = if level == 0 {
                (200int, 3600int)
            } else if level == 1 {
                (25, 480)
            } else {
                (2, 48)
            };
            start <= q < top && q < s.vectors.words@.len()
        }),
    ensures
        ({
            let targets = set_positions(s.alive@);
            let order = nearest_first(shared_fits(sim, targets, s.vectors.words@.len()));
            let full = if level == 0 {
                4
            } else if level == 1 {
                3
            } else {
                1int
            };
            &&& h->words@.len() <= full
            &&& h->words@.len() < full ==> h->words@.contains(order[q]) || !s.hint_fits(
                sim,
                order[q],
                targets,
                revealed + h->words@,
            )
        }),
{
    let targets = set_positions(s.alive@);
    let n = s.vectors.words@.len();
    let fits = shared_fits(sim, targets, n);
    let order = nearest_first(fits);
    lemma_nearest_first(fits);
    let (lo, hi, take) = band_of(rung(level)->0);
    let (a, b, t) = (lo as int, hi as int, take as int);
    let at = lemma_widened_walk(s, sim, order, a, b, 2, t, targets, revealed);
    if h->words@.len() < take {
        lemma_short_widened_is_complete(s, sim, order, a, b, 2, t, targets, revealed, q);
    }
}

proof fn lemma_short_widened_is_complete<F: Fn(u32, u32) -> Single>(
    s: Solver,
    sim: F,
    order: Seq<u32>,
    lo: int,
    hi: int,
    rounds: int,
    take: int,
    targets: Seq<u32>,
    exclude: Seq<u32>,
    q: int,
)
    requires
        0 <= lo <= q < order.len(),
        0 <= rounds <= 2,
        q < (if rounds == 2 {
            4 * hi
        } else if rounds == 1 {
            2 * hi
        } else {
            hi
        }),
        s.widened_walk(sim, order, lo, hi, rounds, take, targets, exclude).len() < take,
    ensures
        ({
            let r = s.widened_walk(sim, order, lo, hi, rounds, take, targets, exclude);
            r.contains(order[q]) || !s.hint_fits(sim, order[q], targets, exclude + r)
        }),
    decreases rounds,
{
    let n = order.len() as int;
    let picked = s.pass(sim, order, lo, hi, take, targets, exclude);
    if picked.len() >= take || rounds <= 0 || hi >= n {
        let end = if hi <= n {
            hi
        } else {
            n
        };
        lemma_short_walk_is_complete(
            s,
            sim,
            order,
            lo,
            end,
            take,
            targets,
            exclude,
            Seq::empty(),
            q,
        );
    } else {
        lemma_short_widened_is_complete(
            s,
            sim,
            order,
            lo,
            hi * HINT_WIDEN,
            rounds - 1,
            take,
            targets,
            exclude,
            q,
        );
    }
}

/// The words `picked`, at the positions `at` of `order`, were taken greedily from position `lo`
/// on: each is the first that fits after the one before it.
spec fn greedy<F: Fn(u32, u32) -> Single>(
    s: Solver,
    sim: F,
    order: Seq<u32>,
    lo: int,
    targets: Seq<u32>,
    exclude: Seq<u32>,
    picked: Seq<u32>,
    at: Seq<int>,
) -> bool {
    &&& at.len() == picked.len()
    &&& forall|m: int| 0 <= m < at.len() ==> lo <= #[trigger] at[m] && picked[m] == order[at[m]]
    &&& forall|m: int, q: int|
        #![trigger at[m], order[q]]
        0 <= m < at.len() && lo <= q < at[m] && (m > 0 ==> at[m - 1] < q) ==> !s.hint_fits(
            sim,
            order[q],
            targets,
            exclude + picked.take(m),
        )
}

proof fn lemma_walk_is_greedy<F: Fn(u32, u32) -> Single>(
    s: Solver,
    sim: F,
    order: Seq<u32>,
    lo: int,
    i: int,
    end: int,
    take: int,
    targets: Seq<u32>,
    exclude: Seq<u32>,
    picked: Seq<u32>,
    at: Seq<int>,
) -> (r: Seq<int>)
    requires
        lo <= i || i >= end,
        greedy(s, sim, order, lo, targets, exclude, picked, at),
        forall|m: int| 0 <= m < at.len() ==> #[trigger] at[m] < i && at[m] < end,
        forall|q: int|
            lo <= q < i && (at.len() > 0 ==> at.last() < q) ==> !s.hint_fits(
                sim,
                #[trigger] order[q],
                targets,
                exclude + picked,
            ),
    ensures
        greedy(
            s,
            sim,
            order,
            lo,
            targets,
            exclude,
            s.walk(sim, order, i, end, take, targets, exclude, picked),
            r,
        ),
        forall|m: int| 0 <= m < r.len() ==> #[trigger] r[m] < end,
    decreases end - i,
{
    if i >= end || picked.len() >= take {
        at
    } else if s.hint_fits(sim, order[i], targets, exclude + picked) {
        let more = picked.push(order[i]);
        let next = at.push(i);
        assert(more.take(picked.len() as int) =~= picked);
        assert forall|m: int, q: int|
            #![trigger next[m], order[q]]
            0 <= m < next.len() && lo <= q < next[m] && (m > 0 ==> next[m - 1] < q) implies !s.hint_fits(
            sim,
            order[q],
            targets,
            exclude + more.take(m),
        ) by {
            if m < at.len() {
                assert(more.take(m) =~= picked.take(m));
                assert(at[m] == next[m]);
                if m > 0 {
                    assert(at[m - 1] == next[m - 1]);
                }
            } else if m > 0 {
                assert(next[m - 1] == at.last());
            }
        }
        lemma_walk_is_greedy(s, sim, order, lo, i + 1, end, take, targets, exclude, more, next)
    } else {
        lemma_walk_is_greedy(s, sim, order, lo, i + 1, end, take, targets, exclude, picked, at)
    }
}

proof fn lemma_widened_is_greedy<F: Fn(u32, u32) -> Single>(
    s: Solver,
    sim: F,
    order: Seq<u32>,
    lo: int,
    hi: int,
    rounds: int,
    take: int,
    targets: Seq<u32>,
    exclude: Seq<u32>,
) -> (r: Seq<int>)
    requires
        0 <= lo,
        0 <= hi,
        0 <= rounds <= 2,
    ensures
        greedy(
            s,
            sim,
            order,
            lo,
            targets,
            exclude,
            s.widened_walk(sim, order, lo, hi, rounds, take, targets, exclude),
            r,
        ),
        forall|m: int|
            0 <= m < r.len() ==> #[trigger] r[m] < order.len() && r[m] < if rounds == 2 {
                4 * hi
            } else if rounds == 1 {
                2 * hi
            } else {
                hi
            },
    decreases rounds,
{
    let end = if hi <= order.len() {
        hi
    } else {
        order.len() as int
    };
    let from = if lo <= end {
        lo
    } else {
        end
    };
    let none = Seq::<u32>::empty();
    let picked = s.pass(sim, order, lo, hi, take, targets, exclude);
    if picked.len() >= take || rounds <= 0 || hi >= order.len() {
        lemma_walk_is_greedy(
            s,
            sim,
            order,
            lo,
            from,
            end,
            take,
            targets,
            exclude,
            none,
            Seq::empty(),
        )
    } else {
        lemma_widened_is_greedy(s, sim, order, lo, hi * 2, rounds - 1, take, targets, exclude)
    }
}

/// A rung takes its words in the order of their fit, and never passes one over: from the first
/// position of its band to the last, each word given is the first that may be a hint after the one
/// before it. The bands are the fits 200 to 3600, 25 to 480 and 2 to 48.
pub proof fn lemma_rung_is_greedy<F: Fn(u32, u32) -> Single>(
    s: Solver,
    sim: F,
    level: nat,
    revealed: Seq<u32>,
    h: Hint,
) -> (at: Seq<int>)
    requires
        s.wf(),
        s.hinted(sim, level, revealed, h),
        h is Words,
    ensures
        at.len() == h->words@.len(),
        ({
            let targets = set_positions(s.alive@);
            let order = nearest_first(shared_fits(sim, targets, s.vectors.words@.len()));
            let (start, top) = if level == 0 {
                (200int, 3600int)
            } else if level == 1 {
                (25, 480)
            } else {
                (2, 48)
            };
            &&& forall|m: int|
                0 <= m < at.len() ==> start <= #[trigger] at[m] < top && at[m] < order.len()
                    && h->words@[m] == order[at[m]]
            &&& forall|m: int, q: int|
                #![trigger at[m], order[q]]
                0 <= m < at.len() && start <= q < at[m] && (m > 0 ==> at[m - 1] < q)
                    ==> !s.hint_fits(sim, order[q], targets, revealed + h->words@.take(m))
        }),
{
    let targets = set_positions(s.alive@);
    let order = nearest_first(shared_fits(sim, targets, s.vectors.words@.len()));
    lemma_nearest_first(shared_fits(sim, targets, s.vectors.words@.len()));
    let (lo, hi, take) = band_of(h->level);
    lemma_widened_is_greedy(
        s,
        sim,
        order,
        lo as int,
        hi as int,
        HINT_WIDEN as int,
        take as int,
        targets,
        revealed,
    )
}

} // verus!
