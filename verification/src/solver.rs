//! The constraint solver: every observed score narrows the set of possible secrets.

use vstd::prelude::*;

use crate::flags::{
    collect_first, collect_set, count_set, lemma_none_set, lemma_subset_count,
    set_count, set_positions,
};
use crate::ieee::{lemma_double_order_is_numeric, Double};
use crate::ranks::RANK_TOL_MULT;
use crate::scoring::{
    cemantix_scoring, lemma_cemantix_tolerances_grow, lemma_wider_admits_more,
    lemma_wider_window_accepts_more, Evidence, Scoring,
    TOL_LEVELS,
};
use crate::text::append_text;
use crate::vectors::Vectors;

verus! {

/// Probe and target caps of the cosine solver.
pub const MAX_PROBES: usize = 2000;

pub const MAX_TARGETS: usize = 4000;

/// Probe and target caps of the rank solver, kept low: the browser has a single thread.
pub const RANK_PROBES: usize = 300;

pub const RANK_TARGETS: usize = 1200;

/// One answer from the game. `score` is what the game printed: a cosine for Cémantix, the raw
/// integer for QuelMot.
#[derive(Clone, Copy, Debug)]
pub struct Observation {
    pub idx: u32,
    pub score: Double,
}

/// What an observation did to the set of candidates.
#[derive(Clone, Copy, Debug)]
pub struct ObserveInfo {
    pub before: usize,
    pub after: usize,
    pub relaxed: bool,
}

/// The tolerance in force.
#[derive(Clone, Copy, Debug)]
pub enum Tolerance {
    /// A half-width on the cosine.
    HalfWidth(Double),
    /// The power to which the rank window is raised.
    WindowPower(i32),
}

/// Constraint solver over a lexicon.
pub struct Solver<'a> {
    pub vectors: &'a Vectors,
    pub alive: Vec<bool>,
    pub banned: Vec<bool>,
    pub restricted: bool,
    pub scoring: Scoring,
    /// Position on the tolerance ladder of the game.
    pub tol_level: usize,
    pub obs: Vec<Observation>,
    /// What each observation says of each word.
    pub evidence: Vec<Evidence>,
    pub alive_count: usize,
    pub max_probes: usize,
    pub max_targets: usize,
}

/// Word `j` is compatible with an observation: it is not the guess, and the evidence admits it
/// at the tolerance level.
pub open spec fn compatible(scoring: Scoring, o: Observation, e: Evidence, level: int, j: int) -> bool {
    j != o.idx && e.admits(scoring, o.score, level, j)
}

/// The candidates that one observation leaves over.
pub open spec fn narrowed(
    alive: Seq<bool>,
    scoring: Scoring,
    o: Observation,
    e: Evidence,
    level: int,
) -> Seq<bool> {
    Seq::new(alive.len(), |j: int| alive[j] && compatible(scoring, o, e, level, j))
}

/// Some word is a candidate.
pub open spec fn any(alive: Seq<bool>) -> bool {
    exists|j: int| 0 <= j < alive.len() && #[trigger] alive[j]
}

impl<'a> Solver<'a> {
    /// The tables agree on the number of words, and the count of candidates is right.
    pub open spec fn wf(self) -> bool {
        let n = self.vectors.words@.len();
        &&& self.vectors.wf()
        &&& self.alive@.len() == n
        &&& self.banned@.len() == n
        &&& self.tol_level < TOL_LEVELS
        &&& self.evidence@.len() == self.obs@.len()
        &&& forall|k: int|
            #![trigger self.obs@[k]]
            #![trigger self.evidence@[k]]
            0 <= k < self.obs@.len() ==> self.obs@[k].idx < n && self.evidence@[k].fits(
                self.scoring,
                n,
            )
        &&& self.alive_count == set_count(self.alive@)
    }

    /// Word `j` is compatible with observation number `k`.
    pub open spec fn passes(self, k: int, level: int, j: int) -> bool {
        compatible(self.scoring, self.obs@[k], self.evidence@[k], level, j)
    }

    /// Word `j` may be the secret before any score is known: nobody banned it, and it is
    /// plausible where the frequency prior holds.
    pub open spec fn eligible(self, restricted: bool, j: int) -> bool {
        !self.banned@[j] && (!restricted || self.vectors.plausible@[j])
    }

    /// The words compatible with the first `m` observations at a tolerance level.
    pub open spec fn field_after(self, restricted: bool, level: int, m: int) -> Seq<bool> {
        Seq::new(
            self.vectors.words@.len(),
            |j: int|
                self.eligible(restricted, j) && forall|k: int|
                    0 <= k < m ==> #[trigger] self.passes(k, level, j),
        )
    }

    /// The words compatible with every observation at a tolerance level.
    pub open spec fn field(self, restricted: bool, level: int) -> Seq<bool> {
        self.field_after(restricted, level, self.obs@.len() as int)
    }

    /// The candidates are exactly the words compatible with everything seen so far.
    pub open spec fn settled(self) -> bool {
        self.alive@ == self.field(self.restricted, self.tol_level as int)
    }

    /// Solver for Cémantix scoring (four decimals).
    pub fn new(vectors: &'a Vectors) -> (r: Self)
        requires
            vectors.wf(),
        ensures
            started(r, *vectors, cemantix_scoring()),
    {
        Self::with_scoring(vectors, Scoring::cemantix())
    }

    /// Solver that knows no score yet: its candidates are the plausible words.
    pub fn with_scoring(vectors: &'a Vectors, scoring: Scoring) -> (r: Self)
        requires
            vectors.wf(),
        ensures
            started(r, *vectors, scoring),
    {
        let n: usize = vectors.n();
        let alive = vectors.plausible.clone();
        assert(alive@ =~= vectors.plausible@);
        let alive_count: usize = count_set(&alive);
        let (max_probes, max_targets) = if scoring.is_rank() {
            (RANK_PROBES, RANK_TARGETS)
        } else {
            (MAX_PROBES, MAX_TARGETS)
        };
        let r = Solver {
            vectors,
            alive,
            banned: vec![false; n],
            restricted: true,
            scoring,
            tol_level: 0,
            obs: Vec::new(),
            evidence: Vec::new(),
            alive_count,
            max_probes,
            max_targets,
        };
        assert(r.field(true, 0) =~= r.alive@);
        assert(r.banned@ =~= Seq::new(n as nat, |j: int| false));
        r
    }

    /// Number of tolerance levels.
    fn tol_levels(&self) -> (r: usize)
        ensures
            r == TOL_LEVELS,
    {
        match self.scoring {
            Scoring::Cosine { tols, .. } => tols.len(),
            Scoring::Rank(_) => RANK_TOL_MULT.len(),
        }
    }

    /// Current tolerance: a cosine half-width for Cémantix, a power of the rank window for
    /// QuelMot.
    pub fn tol(&self) -> (r: Tolerance)
        requires
            self.tol_level < TOL_LEVELS,
        ensures
            r == match self.scoring {
                Scoring::Cosine { tols, .. } => Tolerance::HalfWidth(tols[self.tol_level as int]),
                Scoring::Rank(_) => Tolerance::WindowPower(RANK_TOL_MULT[self.tol_level as int]),
            },
    {
        match self.scoring {
            Scoring::Cosine { tols, .. } => Tolerance::HalfWidth(tols[self.tol_level]),
            Scoring::Rank(_) => Tolerance::WindowPower(RANK_TOL_MULT[self.tol_level]),
        }
    }

    /// The tolerance as it is shown, from its number in decimal.
    pub fn tol_label(&self, number: &str) -> (r: String)
        ensures
            r@ == match self.scoring {
                Scoring::Cosine { .. } => seq!['±'] + number@,
                Scoring::Rank(_) => seq!['×', '÷'] + number@,
            },
    {
        let mut r = String::new();
        match self.scoring {
            Scoring::Cosine { .. } => {
                r.push('±');
            },
            Scoring::Rank(_) => {
                r.push('×');
                r.push('÷');
            },
        }
        append_text(&mut r, number);
        r
    }

    /// The opener this game should start from.
    pub fn opener(&self) -> (r: Option<u32>)
        ensures
            r == match self.scoring {
                Scoring::Cosine { .. } => self.vectors.opener,
                Scoring::Rank(_) => self.vectors.rank_opener,
            },
    {
        match self.scoring {
            Scoring::Cosine { .. } => self.vectors.opener,
            Scoring::Rank(_) => self.vectors.rank_opener,
        }
    }

    /// Strikes a word out for good.
    pub fn ban(&mut self, idx: u32)
        requires
            old(self).wf(),
            idx < old(self).vectors.words@.len(),
        ensures
            banned_one(*old(self), *final(self), idx),
    {
        proof {
            if self.alive@[idx as int] {
                crate::flags::lemma_clear_one(self.alive@, idx as int);
            } else {
                assert(self.alive@.update(idx as int, false) =~= self.alive@);
            }
        }
        self.banned.set(idx as usize, true);
        if self.alive[idx as usize] {
            self.alive.set(idx as usize, false);
            self.alive_count = self.alive_count - 1;
        }
        proof {
            let f = self.field(self.restricted, self.tol_level as int);
            let g = old(self).field(self.restricted, self.tol_level as int);
            assert forall|j: int| 0 <= j < f.len() implies f[j] == (j != idx && g[j]) by {
                assert forall|k: int| self.passes(k, self.tol_level as int, j) == old(self).passes(
                    k,
                    self.tol_level as int,
                    j,
                ) by {}
                if f[j] {
                    assert forall|k: int| 0 <= k < self.obs@.len() implies #[trigger] old(
                        self,
                    ).passes(k, self.tol_level as int, j) by {
                        assert(self.passes(k, self.tol_level as int, j));
                    }
                }
                if j != idx && g[j] {
                    assert forall|k: int| 0 <= k < self.obs@.len() implies #[trigger] self.passes(
                        k,
                        self.tol_level as int,
                        j,
                    ) by {
                        assert(old(self).passes(k, self.tol_level as int, j));
                    }
                }
            }
            if old(self).settled() {
                assert(self.alive@ =~= f);
            }
        }
    }

    /// Keep only the candidates whose relation to the guess matches observation number `k`.
    fn apply_score(&mut self, k: usize)
        requires
            old(self).wf(),
            k < old(self).obs@.len(),
        ensures
            final(self).wf(),
            same_knowledge(*old(self), *final(self)),
            final(self).restricted == old(self).restricted,
            final(self).tol_level == old(self).tol_level,
            final(self).alive@ == narrowed(
                old(self).alive@,
                old(self).scoring,
                old(self).obs@[k as int],
                old(self).evidence@[k as int],
                old(self).tol_level as int,
            ),
    {
        let n: usize = self.vectors.n();
        let o: Observation = self.obs[k];
        let ghost before = *self;
        for j in 0..n
            invariant
                n == self.vectors.words@.len(),
                before.wf(),
                k < before.obs@.len(),
                o == before.obs@[k as int],
                same_knowledge(before, *self),
                self.restricted == before.restricted,
                self.tol_level == before.tol_level,
                self.alive_count == before.alive_count,
                self.alive@.len() == n,
                forall|i: int|
                    0 <= i < n ==> #[trigger] self.alive@[i] == (before.alive@[i] && (i >= j
                        || compatible(
                        before.scoring,
                        o,
                        before.evidence@[k as int],
                        before.tol_level as int,
                        i,
                    ))),
        {
            assert(before.evidence@[k as int].fits(before.scoring, n as nat));
            if self.alive[j] {
                let keep: bool = j as u32 != o.idx && self.evidence[k].accepts(
                    &self.scoring,
                    o.score,
                    self.tol_level,
                    j,
                    n,
                );
                if !keep {
                    self.alive.set(j, false);
                }
            }
        }
        self.alive_count = count_set(&self.alive);
        assert(self.alive@ =~= narrowed(
            before.alive@,
            before.scoring,
            o,
            before.evidence@[k as int],
            before.tol_level as int,
        ));
    }

    /// Recomputes the candidates from everything seen so far.
    fn rebuild(&mut self)
        requires
            old(self).wf(),
        ensures
            final(self).wf(),
            same_knowledge(*old(self), *final(self)),
            final(self).restricted == old(self).restricted,
            final(self).tol_level == old(self).tol_level,
            final(self).alive@ == old(self).field(
                old(self).restricted,
                old(self).tol_level as int,
            ),
    {
        let n: usize = self.vectors.n();
        let ghost before = *self;
        let ghost level = before.tol_level as int;
        for j in 0..n
            invariant
                n == self.vectors.words@.len(),
                before.wf(),
                same_knowledge(before, *self),
                self.restricted == before.restricted,
                self.tol_level == before.tol_level,
                self.alive@.len() == n,
                forall|i: int|
                    0 <= i < j ==> #[trigger] self.alive@[i] == before.eligible(
                        before.restricted,
                        i,
                    ),
        {
            let eligible: bool = !self.banned[j] && (!self.restricted || self.vectors.plausible[j]);
            self.alive.set(j, eligible);
        }
        self.alive_count = count_set(&self.alive);
        assert(self.alive@ =~= before.field_after(before.restricted, level, 0));
        let m: usize = self.obs.len();
        for k in 0..m
            invariant
                self.wf(),
                before.wf(),
                m == before.obs@.len(),
                level == before.tol_level,
                same_knowledge(before, *self),
                self.restricted == before.restricted,
                self.tol_level == before.tol_level,
                self.alive@ == before.field_after(before.restricted, level, k as int),
        {
            let ghost wide = self.alive@;
            self.apply_score(k);
            let ghost next = before.field_after(before.restricted, level, k + 1);
            assert forall|j: int| 0 <= j < next.len() implies self.alive@[j] == next[j] by {
                assert(before.passes(k as int, level, j) == compatible(
                    before.scoring,
                    before.obs@[k as int],
                    before.evidence@[k as int],
                    level,
                    j,
                ));
                if wide[j] && before.passes(k as int, level, j) {
                    assert forall|i: int| 0 <= i < k + 1 implies #[trigger] before.passes(
                        i,
                        level,
                        j,
                    ) by {}
                }
            }
            assert(self.alive@ =~= next);
        }
    }

    /// Takes in one answer. When no word is left the solver first drops the frequency prior,
    /// then widens the tolerance step by step. Dropping the prior only makes sense for cosine
    /// scoring: the rank table is defined on the plausible lexicon, outside it there is
    /// nothing to test.
    pub fn observe(&mut self, o: Observation, e: Evidence) -> (info: ObserveInfo)
        requires
            old(self).wf(),
            o.idx < old(self).vectors.words@.len(),
            e.fits(old(self).scoring, old(self).vectors.words@.len()),
        ensures
            final(self).wf(),
            observed(*old(self), o, e, *final(self), info),
    {
        let before: usize = self.alive_count;
        let ghost first = *self;
        let last: usize = self.obs.len();
        self.obs.push(o);
        self.evidence.push(e);
        let ghost asked = *self;
        self.apply_score(last);
        let ghost kept = self.alive@;
        assert(kept == narrowed(first.alive@, first.scoring, o, e, first.tol_level as int));
        proof {
            lemma_none_set(kept);
        }
        let mut relaxed = false;
        let drop: bool = self.alive_count == 0 && self.restricted && !self.scoring.is_rank();
        if drop {
            self.restricted = false;
            relaxed = true;
            proof {
                lemma_same_field(asked, *self);
            }
            self.rebuild();
        }
        proof {
            lemma_none_set(self.alive@);
        }
        let ghost from = if drop { first.tol_level as int } else { first.tol_level + 1 };
        while self.alive_count == 0 && self.tol_level + 1 < self.tol_levels()
            invariant
                self.wf(),
                asked.wf(),
                same_knowledge(asked, *self),
                first.tol_level == asked.tol_level,
                any(kept) ==> !drop && !relaxed && self.tol_level == first.tol_level,
                self.tol_level >= first.tol_level,
                self.restricted == (asked.restricted && !drop),
                relaxed == (drop || self.tol_level > first.tol_level),
                !relaxed ==> self.alive@ == kept,
                relaxed ==> self.alive@ == asked.field(self.restricted, self.tol_level as int),
                any(self.alive@) <==> self.alive_count != 0,
                from == if drop { first.tol_level as int } else { first.tol_level + 1 },
                forall|l: int|
                    from <= l < self.tol_level ==> !any(#[trigger] asked.field(self.restricted, l)),
            decreases TOL_LEVELS - self.tol_level,
        {
            let ghost step = *self;
            self.tol_level = self.tol_level + 1;
            relaxed = true;
            proof {
                lemma_same_field(asked, *self);
            }
            self.rebuild();
            proof {
                lemma_none_set(self.alive@);
                assert forall|l: int| from <= l < self.tol_level implies !any(
                    #[trigger] asked.field(self.restricted, l),
                ) by {
                    if l == step.tol_level {
                        assert(step.alive@ == asked.field(step.restricted, l));
                    }
                }
            }
        }
        proof {
            if first.settled() && !relaxed {
                let f = asked.field(asked.restricted, asked.tol_level as int);
                lemma_field_grows(first, asked, o, e);
                assert(self.alive@ =~= f);
            }
            lemma_same_field(asked, *self);
            if !relaxed {
                lemma_subset_count(self.alive@, first.alive@);
            }
        }
        ObserveInfo { before, after: self.alive_count, relaxed }
    }

    /// The words that may still be the secret, in frequency order.
    pub fn candidates(&self) -> (r: Vec<u32>)
        requires
            self.wf(),
        ensures
            r@ == set_positions(self.alive@),
            r@.len() == self.alive_count,
    {
        collect_set(&self.alive)
    }

    /// First k candidates in frequency order (= most plausible secrets).
    pub fn top(&self, k: usize) -> (r: Vec<u32>)
        requires
            self.wf(),
        ensures
            r@ == set_positions(self.alive@).take(
                if k <= self.alive_count {
                    k as int
                } else {
                    self.alive_count as int
                },
            ),
    {
        collect_first(&self.alive, k)
    }
}

/// A solver that knows no score yet.
pub open spec fn started(s: Solver, vectors: Vectors, scoring: Scoring) -> bool {
    &&& s.wf()
    &&& *s.vectors == vectors
    &&& s.scoring == scoring
    &&& s.alive@ == vectors.plausible@
    &&& s.banned@ == Seq::new(vectors.words@.len(), |j: int| false)
    &&& s.restricted
    &&& s.tol_level == 0
    &&& s.obs@.len() == 0
    &&& s.max_probes == if scoring is Rank {
        RANK_PROBES
    } else {
        MAX_PROBES
    }
    &&& s.max_targets == if scoring is Rank {
        RANK_TARGETS
    } else {
        MAX_TARGETS
    }
    &&& s.settled()
}

/// Two solvers know the same scores and the same banned words of the same lexicon.
pub open spec fn same_knowledge(a: Solver, b: Solver) -> bool {
    &&& a.vectors == b.vectors
    &&& a.banned@ == b.banned@
    &&& a.scoring == b.scoring
    &&& a.obs@ == b.obs@
    &&& a.evidence@ == b.evidence@
    &&& a.max_probes == b.max_probes
    &&& a.max_targets == b.max_targets
}

/// What banning a word does: the word is banned and no candidate any more, nothing else
/// changes, and a settled solver stays settled.
pub open spec fn banned_one(before: Solver, after: Solver, idx: u32) -> bool {
    &&& after.wf()
    &&& after.vectors == before.vectors
    &&& after.scoring == before.scoring
    &&& after.obs@ == before.obs@
    &&& after.evidence@ == before.evidence@
    &&& after.restricted == before.restricted
    &&& after.tol_level == before.tol_level
    &&& after.max_probes == before.max_probes
    &&& after.max_targets == before.max_targets
    &&& after.banned@ == before.banned@.update(idx as int, true)
    &&& after.alive@ == before.alive@.update(idx as int, false)
    &&& before.settled() ==> after.settled()
}

/// What taking in one answer does.
pub open spec fn observed(
    before: Solver,
    o: Observation,
    e: Evidence,
    after: Solver,
    info: ObserveInfo,
) -> bool {
    let level = before.tol_level as int;
    let kept = narrowed(before.alive@, before.scoring, o, e, level);
    let drop = !any(kept) && before.restricted && !(before.scoring is Rank);
    let from = if drop {
        level
    } else {
        level + 1
    };
    &&& after.vectors == before.vectors
    &&& after.banned@ == before.banned@
    &&& after.scoring == before.scoring
    &&& after.max_probes == before.max_probes
    &&& after.max_targets == before.max_targets
    &&& after.obs@ == before.obs@.push(o)
    &&& after.evidence@ == before.evidence@.push(e)
    &&& info.before == before.alive_count
    &&& info.after == after.alive_count
    // the prior is dropped, and the tolerance widened, only when no word is left
    &&& after.restricted == (before.restricted && !drop)
    &&& info.relaxed == (drop || after.tol_level > level)
    &&& level <= after.tol_level < TOL_LEVELS
    &&& any(kept) ==> !info.relaxed
    // without relaxing, the compatible candidates stay
    &&& !info.relaxed ==> after.alive@ == kept
    // with it, everything seen so far is applied again
    &&& info.relaxed ==> after.alive@ == after.field(after.restricted, after.tol_level as int)
    // at the first level that leaves a word, or at the last
    &&& forall|l: int|
        from <= l < after.tol_level ==> !any(#[trigger] after.field(after.restricted, l))
    &&& any(after.alive@) || after.tol_level == TOL_LEVELS - 1
    &&& before.settled() ==> after.settled()
    &&& !info.relaxed ==> info.after <= info.before
}

/// The field depends on what a solver knows only.
pub proof fn lemma_same_field(a: Solver, b: Solver)
    requires
        same_knowledge(a, b),
    ensures
        forall|r: bool, l: int|
            #![trigger a.field(r, l)]
            #![trigger b.field(r, l)]
            a.field(r, l) == b.field(r, l),
{
    assert forall|r: bool, l: int|
        #![trigger a.field(r, l)]
        #![trigger b.field(r, l)]
        a.field(r, l) == b.field(r, l) by {
        let (f, g) = (a.field(r, l), b.field(r, l));
        assert forall|j: int| 0 <= j < f.len() implies f[j] == g[j] by {
            assert forall|k: int| a.passes(k, l, j) == b.passes(k, l, j) by {}
            if f[j] {
                assert forall|k: int| 0 <= k < b.obs@.len() implies #[trigger] b.passes(
                    k,
                    l,
                    j,
                ) by {
                    assert(a.passes(k, l, j));
                }
            }
            if g[j] {
                assert forall|k: int| 0 <= k < a.obs@.len() implies #[trigger] a.passes(
                    k,
                    l,
                    j,
                ) by {
                    assert(b.passes(k, l, j));
                }
            }
        }
        assert(f =~= g);
    }
}

/// One more observation narrows the field as it narrows the candidates.
proof fn lemma_field_grows(a: Solver, b: Solver, o: Observation, e: Evidence)
    requires
        a.evidence@.len() == a.obs@.len(),
        a.vectors == b.vectors,
        a.banned@ == b.banned@,
        a.scoring == b.scoring,
        b.obs@ == a.obs@.push(o),
        b.evidence@ == a.evidence@.push(e),
    ensures
        forall|r: bool, l: int| #[trigger]
            b.field(r, l) == narrowed(a.field(r, l), a.scoring, o, e, l),
{
    assert forall|r: bool, l: int| #[trigger]
        b.field(r, l) == narrowed(a.field(r, l), a.scoring, o, e, l) by {
        let m = a.obs@.len() as int;
        let (f, g) = (b.field(r, l), narrowed(a.field(r, l), a.scoring, o, e, l));
        assert forall|j: int| 0 <= j < f.len() implies f[j] == g[j] by {
            assert(b.passes(m, l, j) == compatible(a.scoring, o, e, l, j));
            if f[j] {
                assert forall|k: int| 0 <= k < m implies #[trigger] a.passes(k, l, j) by {
                    assert(b.passes(k, l, j));
                }
            }
            if g[j] {
                assert forall|k: int| 0 <= k < m + 1 implies #[trigger] b.passes(k, l, j) by {
                    if k < m {
                        assert(a.passes(k, l, j));
                    }
                }
            }
        }
        assert(f =~= g);
    }
}

/// A candidate that an answer admits stays a candidate, whatever else the answer rules out:
/// an honest game never loses its secret.
pub proof fn lemma_admitted_word_survives(
    before: Solver,
    o: Observation,
    e: Evidence,
    after: Solver,
    info: ObserveInfo,
    secret: int,
)
    requires
        observed(before, o, e, after, info),
        0 <= secret < before.alive@.len(),
        before.alive@[secret],
        secret != o.idx,
        e.admits(before.scoring, o.score, before.tol_level as int, secret),
    ensures
        after.alive@[secret],
        !info.relaxed,
{
    let kept = narrowed(before.alive@, before.scoring, o, e, before.tol_level as int);
    assert(kept[secret]);
}

/// In a settled solver, no candidate was banned or guessed, and each is compatible with every
/// score seen so far.
pub proof fn lemma_candidates_are_open(s: Solver, j: int)
    requires
        s.wf(),
        s.settled(),
        0 <= j < s.alive@.len(),
        s.alive@[j],
    ensures
        !s.banned@[j],
        s.restricted ==> s.vectors.plausible@[j],
        forall|k: int|
            0 <= k < s.obs@.len() ==> (#[trigger] s.obs@[k]).idx != j && s.evidence@[k].admits(
                s.scoring,
                s.obs@[k].score,
                s.tol_level as int,
                j,
            ),
{
    assert(s.field(s.restricted, s.tol_level as int)[j]);
    assert forall|k: int| 0 <= k < s.obs@.len() implies (#[trigger] s.obs@[k]).idx != j
        && s.evidence@[k].admits(s.scoring, s.obs@[k].score, s.tol_level as int, j) by {
        assert(s.passes(k, s.tol_level as int, j));
    }
}

/// Conversely, a word that nobody banned or guessed, that the prior allows and that every
/// score admits is a candidate.
pub proof fn lemma_open_words_are_candidates(s: Solver, j: int)
    requires
        s.wf(),
        s.settled(),
        0 <= j < s.alive@.len(),
        !s.banned@[j],
        s.restricted ==> s.vectors.plausible@[j],
        forall|k: int|
            0 <= k < s.obs@.len() ==> (#[trigger] s.obs@[k]).idx != j && s.evidence@[k].admits(
                s.scoring,
                s.obs@[k].score,
                s.tol_level as int,
                j,
            ),
    ensures
        s.alive@[j],
{
    assert forall|k: int| 0 <= k < s.obs@.len() implies #[trigger] s.passes(
        k,
        s.tol_level as int,
        j,
    ) by {
        assert(s.obs@[k].idx != j);
    }
    assert(s.field(s.restricted, s.tol_level as int)[j]);
}

/// In Cémantix, relaxing only ever adds words: a wider tolerance and a dropped prior keep
/// every word that a narrower tolerance kept.
pub proof fn lemma_relaxing_keeps_words(
    s: Solver,
    restricted: bool,
    wider_prior: bool,
    low: int,
    high: int,
    j: int,
)
    requires
        s.scoring == cemantix_scoring(),
        wider_prior ==> restricted,
        0 <= low <= high < TOL_LEVELS,
        0 <= j < s.vectors.words@.len(),
        s.field(restricted, low)[j],
    ensures
        s.field(wider_prior, high)[j],
{
    lemma_cemantix_tolerances_grow(low, high);
    assert forall|k: int| 0 <= k < s.obs@.len() implies #[trigger] s.passes(k, high, j) by {
        assert(s.passes(k, low, j));
        lemma_wider_admits_more(s.evidence@[k], s.scoring, s.obs@[k].score, low, high, j);
    }
}

/// In a rank game, raising the tolerance level only ever adds words, when the windows grow with
/// the level.
pub proof fn lemma_wider_windows_keep_words(s: Solver, restricted: bool, low: int, high: int, j: int)
    requires
        s.wf(),
        s.scoring is Rank,
        forall|k: int| #![trigger s.evidence@[k]]
            0 <= k < s.obs@.len() ==> (s.evidence@[k] matches Evidence::Ranks(_, edges)
                && edges@[low].within(edges@[high])),
        0 <= j < s.vectors.words@.len(),
        s.field(restricted, low)[j],
    ensures
        s.field(restricted, high)[j],
{
    assert forall|k: int| 0 <= k < s.obs@.len() implies #[trigger] s.passes(k, high, j) by {
        assert(s.passes(k, low, j));
        match (s.scoring, s.evidence@[k]) {
            (Scoring::Rank(m), Evidence::Ranks(ranks, edges)) => {
                lemma_wider_window_accepts_more(
                    m,
                    s.obs@[k].score,
                    ranks@[j].unwrap(),
                    edges@[low],
                    edges@[high],
                );
            },
            _ => {},
        }
    }
}

/// Which candidates remain does not depend on the order in which the scores came in.
pub proof fn lemma_order_of_scores_is_irrelevant(a: Solver, b: Solver, x: int, y: int, r: bool, l: int)
    requires
        a.vectors == b.vectors,
        a.banned@ == b.banned@,
        a.scoring == b.scoring,
        a.evidence@.len() == a.obs@.len(),
        0 <= x < a.obs@.len(),
        0 <= y < a.obs@.len(),
        b.obs@ == a.obs@.update(x, a.obs@[y]).update(y, a.obs@[x]),
        b.evidence@ == a.evidence@.update(x, a.evidence@[y]).update(y, a.evidence@[x]),
    ensures
        a.field(r, l) == b.field(r, l),
{
    let (f, g) = (a.field(r, l), b.field(r, l));
    assert forall|j: int| 0 <= j < f.len() implies f[j] == g[j] by {
        assert forall|k: int| 0 <= k < a.obs@.len() implies #[trigger] b.passes(k, l, j)
            == a.passes(
            if k == x {
                y
            } else if k == y {
                x
            } else {
                k
            },
            l,
            j,
        ) by {}
        if g[j] {
            assert forall|k: int| 0 <= k < a.obs@.len() implies #[trigger] a.passes(k, l, j) by {
                let m = if k == x {
                    y
                } else if k == y {
                    x
                } else {
                    k
                };
                assert(b.passes(m, l, j));
            }
        }
    }
    assert(f =~= g);
}

/// What every answer does. The guess itself is no candidate any more. Without relaxing no word
/// becomes one; and the constraints are relaxed only when the answer rules every candidate out.
pub proof fn lemma_answers_only_rule_out(
    before: Solver,
    o: Observation,
    e: Evidence,
    after: Solver,
    info: ObserveInfo,
    j: int,
)
    requires
        before.wf(),
        after.wf(),
        observed(before, o, e, after, info),
        o.idx < before.vectors.words@.len(),
        0 <= j < before.alive@.len(),
    ensures
        after.alive@.len() == before.alive@.len(),
        !after.alive@[o.idx as int],
        !info.relaxed && after.alive@[j] ==> before.alive@[j] && e.admits(
            before.scoring,
            o.score,
            before.tol_level as int,
            j,
        ),
        info.relaxed && before.alive@[j] && j != o.idx ==> !e.admits(
            before.scoring,
            o.score,
            before.tol_level as int,
            j,
        ),
        info.before == set_count(before.alive@),
        info.after == set_count(after.alive@),
{
    let kept = narrowed(before.alive@, before.scoring, o, e, before.tol_level as int);
    if before.alive@[j] && j != o.idx && e.admits(
        before.scoring,
        o.score,
        before.tol_level as int,
        j,
    ) {
        assert(kept[j]);
    }
    if info.relaxed && after.alive@[o.idx as int] {
        let k = before.obs@.len() as int;
        assert(after.obs@[k] == o);
        assert(after.passes(k, after.tol_level as int, o.idx as int));
    }
}

/// How the constraints are relaxed. A rank game never looks outside the plausible lexicon. A
/// cosine game drops the frequency prior before it widens the tolerance. No step is taken back,
/// and none is taken that a word would have made needless.
pub proof fn lemma_relaxing_goes_step_by_step(
    before: Solver,
    o: Observation,
    e: Evidence,
    after: Solver,
    info: ObserveInfo,
    level: int,
    j: int,
)
    requires
        before.wf(),
        after.wf(),
        observed(before, o, e, after, info),
        0 <= j < before.alive@.len(),
    ensures
        after.tol_level >= before.tol_level,
        after.restricted ==> before.restricted,
        before.scoring is Rank ==> after.restricted == before.restricted,
        before.scoring is Cosine && after.tol_level > before.tol_level ==> !after.restricted,
        info.relaxed <==> after.tol_level > before.tol_level || after.restricted
            != before.restricted,
        // a level that was passed over leaves no word
        (before.tol_level < level || (before.tol_level == level && before.restricted
            && !after.restricted)) && level < after.tol_level ==> after.banned@[j] || (after.restricted
            && !after.vectors.plausible@[j]) || exists|k: int|
            0 <= k < after.obs@.len() && ((#[trigger] after.obs@[k]).idx == j
                || !after.evidence@[k].admits(after.scoring, after.obs@[k].score, level, j)),
        // what is left empty could not be helped
        after.alive_count == 0 ==> after.tol_level == TOL_LEVELS - 1,
{
    if (before.tol_level < level || (before.tol_level == level && before.restricted
        && !after.restricted)) && level < after.tol_level {
        let f = after.field(after.restricted, level);
        assert(!any(f));
        assert(!f[j]);
        if after.eligible(after.restricted, j) {
            let k = choose|k: int| 0 <= k < after.obs@.len() && !#[trigger] after.passes(k, level, j);
            assert(after.obs@[k].idx == j || !after.evidence@[k].admits(
                after.scoring,
                after.obs@[k].score,
                level,
                j,
            ));
        }
    }
    if any(after.alive@) {
        lemma_none_set(after.alive@);
        let k = choose|k: int| 0 <= k < after.alive@.len() && #[trigger] after.alive@[k];
        assert(after.alive@[k]);
    }
}

/// Every candidate of a cosine game lies within the tolerance of every score, in numbers.
pub proof fn lemma_candidates_match_their_scores(s: Solver, j: int, k: int)
    requires
        s.wf(),
        s.settled(),
        0 <= j < s.alive@.len(),
        s.alive@[j],
        0 <= k < s.obs@.len(),
    ensures
        s.obs@[k].idx != j,
        !s.banned@[j],
        s.scoring matches Scoring::Cosine { tols, .. } ==> (s.evidence@[k] matches Evidence::Gaps(
            gaps,
        ) && gaps@[j].value() <= tols[s.tol_level as int].value()),
        s.scoring is Rank ==> (s.evidence@[k] matches Evidence::Ranks(ranks, _) && ranks@[j] is Some),
{
    lemma_candidates_are_open(s, j);
    assert(s.obs@[k].idx != j);
    match (s.scoring, s.evidence@[k]) {
        (Scoring::Cosine { tols, .. }, Evidence::Gaps(gaps)) => {
            lemma_double_order_is_numeric(gaps@[j], tols[s.tol_level as int]);
        },
        _ => {},
    }
}

/// A new solver knows nothing: every plausible word is a candidate and no other, and none is
/// banned.
pub proof fn lemma_new_solver_is_open(s: Solver, vectors: Vectors, scoring: Scoring, j: int)
    requires
        started(s, vectors, scoring),
        0 <= j < vectors.words@.len(),
    ensures
        s.alive@[j] == vectors.plausible@[j],
        !s.banned@[j],
        s.obs@.len() == 0 && s.evidence@.len() == 0,
        s.restricted && s.tol_level == 0,
        s.alive_count == set_count(vectors.plausible@),
        scoring is Rank ==> s.max_probes == 300 && s.max_targets == 1200,
        scoring is Cosine ==> s.max_probes == 2000 && s.max_targets == 4000,
{
}

/// Banning strikes out one word for good and no other: it is never a candidate again, whatever is
/// answered later.
pub proof fn lemma_banned_words_stay_out(
    before: Solver,
    idx: u32,
    after: Solver,
    o: Observation,
    e: Evidence,
    later: Solver,
    info: ObserveInfo,
    j: int,
)
    requires
        before.wf(),
        before.settled(),
        idx < before.vectors.words@.len(),
        banned_one(before, after, idx),
        observed(after, o, e, later, info),
        0 <= j < before.alive@.len(),
    ensures
        after.banned@[idx as int] && !after.alive@[idx as int],
        j != idx ==> after.alive@[j] == before.alive@[j] && after.banned@[j] == before.banned@[j],
        later.banned@ == after.banned@,
        !later.alive@[idx as int],
        after.alive_count == set_count(after.alive@),
{
    assert(later.settled());
    assert(!later.eligible(later.restricted, idx as int));
}

} // verus!
