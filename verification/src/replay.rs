//! Two games that get the same scores are the same game: neither the ‰ ranks of the server nor
//! its count of solvers changes what is played.

use vstd::prelude::*;

use crate::flags::set_positions;
use crate::game::{
    answered, forced_turn, free_turn, turned, Game, Outcome, Stop, Turn, MAX_GUESSES,
};
use crate::guess::{Choice, Gauge};
use crate::partition::{
    answers, bucket_sizes, rank_slot, rank_slots, slots, weighs, Entropy, RankSlot, Weight,
};
use crate::scoring::{one, Evidence, Scoring, FOUND_PERCENTILE};
use crate::site::ScoreResp;
use crate::solver::{
    any, banned_one, lemma_same_field, narrowed, observed, same_knowledge, started,
    Observation, ObserveInfo, Solver,
};
use crate::stride::sampled;
use crate::vectors::Vectors;

verus! {

/// Two solvers know the same and keep the same candidates.
pub open spec fn same_state(a: Solver, b: Solver) -> bool {
    &&& same_knowledge(a, b)
    &&& a.alive@ == b.alive@
    &&& a.restricted == b.restricted
    &&& a.tol_level == b.tol_level
    &&& a.alive_count == b.alive_count
}

/// Two solvers that know no score yet, of the same lexicon and scoring, are in the same state.
pub proof fn lemma_starts_are_the_same(a: Solver, b: Solver, vectors: Vectors, scoring: Scoring)
    requires
        started(a, vectors, scoring),
        started(b, vectors, scoring),
    ensures
        same_state(a, b),
{
    assert(a.obs@ =~= b.obs@);
    assert(a.evidence@ =~= b.evidence@);
}

/// What an answer does to a solver is determined: two solvers in the same state stay so.
pub proof fn lemma_observing_is_determined(
    a: Solver,
    b: Solver,
    o: Observation,
    e: Evidence,
    a2: Solver,
    b2: Solver,
    i: ObserveInfo,
    j: ObserveInfo,
)
    requires
        same_state(a, b),
        a2.wf(),
        b2.wf(),
        observed(a, o, e, a2, i),
        observed(b, o, e, b2, j),
    ensures
        same_state(a2, b2),
        i == j,
{
    assert(same_knowledge(a2, b2));
    lemma_same_field(a2, b2);
    let level = a.tol_level as int;
    let kept = narrowed(a.alive@, a.scoring, o, e, level);
    let drop = !any(kept) && a.restricted && !(a.scoring is Rank);
    let (l, m) = (a2.tol_level as int, b2.tol_level as int);
    assert(a2.restricted == b2.restricted);
    if !any(kept) {
        if l < m {
            assert(any(a2.alive@));
            assert(i.relaxed);
            assert(any(b2.field(b2.restricted, l)));
        }
        if m < l {
            assert(any(b2.alive@));
            assert(j.relaxed);
            assert(any(a2.field(a2.restricted, m)));
        }
    }
    assert(l == m);
    assert(i.relaxed == j.relaxed);
    assert(a2.alive@ == b2.alive@);
}

/// Striking out the same word keeps two solvers in the same state.
proof fn lemma_banning_is_determined(a: Solver, b: Solver, idx: u32, a2: Solver, b2: Solver)
    requires
        same_state(a, b),
        banned_one(a, a2, idx),
        banned_one(b, b2, idx),
    ensures
        same_state(a2, b2),
{
}

/// The gauge always answers the same.
pub open spec fn steady<
    S: Fn(u32, u32) -> i32,
    R: Fn(u32, u32) -> Option<RankSlot>,
    H: Fn(&Vec<usize>) -> Entropy,
>(g: Gauge<S, R, H>) -> bool {
    &&& forall|p: u32, t: u32, x: i32, y: i32| #[trigger]
        call_ensures(g.slot, (p, t), x) && #[trigger] call_ensures(g.slot, (p, t), y) ==> x == y
    &&& forall|p: u32, t: u32, x: Option<RankSlot>, y: Option<RankSlot>| #[trigger]
        call_ensures(g.place, (p, t), x) && #[trigger] call_ensures(g.place, (p, t), y) ==> x == y
    &&& forall|u: Vec<usize>, v: Vec<usize>, x: Entropy, y: Entropy|
        u@ == v@ && #[trigger] call_ensures(g.bits, (&u,), x) && #[trigger] call_ensures(
            g.bits,
            (&v,),
            y,
        ) ==> x == y
}

/// What compares a score with the words always answers the same.
pub open spec fn consistent<E: Fn(Observation) -> Evidence>(evidence: E) -> bool {
    forall|o: Observation, x: Evidence, y: Evidence| #[trigger]
        call_ensures(evidence, (o,), x) && #[trigger] call_ensures(evidence, (o,), y) ==> x == y
}

/// A steady gauge gives a probe one weight.
proof fn lemma_weight_is_determined<
    S: Fn(u32, u32) -> i32,
    R: Fn(u32, u32) -> Option<RankSlot>,
    H: Fn(&Vec<usize>) -> Entropy,
>(s: Solver, g: Gauge<S, R, H>, p: u32, targets: Seq<u32>, v: Weight, w: Weight)
    requires
        steady(g),
        s.weight_over(g, p, targets, v),
        s.weight_over(g, p, targets, w),
    ensures
        v == w,
{
    match s.scoring {
        Scoring::Cosine { .. } => {
            let a = choose|keys: Seq<i32>| #[trigger]
                slots(g.slot, p, targets, keys) && weighs(g.bits, keys, v);
            let b = choose|keys: Seq<i32>| #[trigger]
                slots(g.slot, p, targets, keys) && weighs(g.bits, keys, w);
            assert forall|i: int| 0 <= i < targets.len() implies a[i] == b[i] by {
                assert(call_ensures(g.slot, (p, targets[i]), a[i]));
                assert(call_ensures(g.slot, (p, targets[i]), b[i]));
            }
            assert(a =~= b);
            assert(answers(g.bits, bucket_sizes(a), v.entropy));
        },
        Scoring::Rank(_) => {
            if s.vectors.ranks is Some {
                let far = g.floor_quotient.upper(one()).lower(g.reach);
                let a = choose|keys: Seq<i32>| #[trigger]
                    rank_slots(g.place, p, targets, far, keys) && weighs(g.bits, keys, v);
                let b = choose|keys: Seq<i32>| #[trigger]
                    rank_slots(g.place, p, targets, far, keys) && weighs(g.bits, keys, w);
                assert forall|i: int| 0 <= i < targets.len() implies a[i] == b[i] by {
                    assert(rank_slot(g.place, p, targets[i], far, a[i]));
                    assert(rank_slot(g.place, p, targets[i], far, b[i]));
                }
                assert(a =~= b);
                assert(answers(g.bits, bucket_sizes(a), v.entropy));
            }
        },
    }
}

/// Two solvers in the same state have the same words to weigh.
proof fn lemma_same_probes(a: Solver, b: Solver)
    requires
        same_state(a, b),
    ensures
        a.obvious() == b.obvious(),
        a.probes() == b.probes(),
{
    assert(a.hubs() =~= b.hubs());
    let sample = sampled(set_positions(a.alive@), a.max_probes as nat);
    assert(Seq::new(
        a.vectors.words@.len(),
        |i: int| sample.contains(i as u32) || a.first_hubs().contains(i as u32),
    ) =~= Seq::new(
        b.vectors.words@.len(),
        |i: int| sample.contains(i as u32) || b.first_hubs().contains(i as u32),
    ));
}

/// Two solvers in the same state choose the same guess.
pub proof fn lemma_choice_is_determined<
    S: Fn(u32, u32) -> i32,
    R: Fn(u32, u32) -> Option<RankSlot>,
    H: Fn(&Vec<usize>) -> Entropy,
>(a: Solver, b: Solver, g: Gauge<S, R, H>, c: Choice, d: Choice)
    requires
        same_state(a, b),
        steady(g),
        free_turn(a, g, c),
        free_turn(b, g, d),
    ensures
        c == d,
{
    lemma_same_probes(a, b);
    if a.obvious() is None {
        let targets = sampled(set_positions(a.alive@), a.max_targets as nat);
        let probes = a.probes();
        let v = choose|weights: Seq<Weight>| #[trigger]
            a.all_weighed(g, probes, targets, weights) && c == a.picked(probes, weights);
        let w = choose|weights: Seq<Weight>| #[trigger]
            b.all_weighed(g, probes, targets, weights) && d == b.picked(probes, weights);
        assert forall|i: int| 0 <= i < probes.len() implies v[i] == w[i] by {
            assert(a.weight_over(g, probes[i], targets, v[i]));
            assert(b.weight_over(g, probes[i], targets, w[i]));
            assert(a.weight_over(g, probes[i], targets, w[i]));
            lemma_weight_is_determined(a, g, probes[i], targets, v[i], w[i]);
        }
        assert(v =~= w);
    }
}

/// Two answers differ in the ‰ rank and in the number of solvers only, and neither ‰ rank says
/// that the word is found.
pub open spec fn alike(a: ScoreResp, b: ScoreResp) -> bool {
    match (a, b) {
        (ScoreResp::Unknown(m), ScoreResp::Unknown(n)) => m@ == n@,
        (ScoreResp::Closed, ScoreResp::Closed) => true,
        (ScoreResp::Score { s, p, .. }, ScoreResp::Score { s: t, p: q, .. }) => s == t && p != Some(
            FOUND_PERCENTILE,
        ) && q != Some(FOUND_PERCENTILE),
        _ => false,
    }
}

/// Two games stand the same.
pub open spec fn same_game(a: Game, b: Game) -> bool {
    &&& same_state(a.solver, b.solver)
    &&& a.guesses == b.guesses
    &&& a.unknown_streak == b.unknown_streak
    &&& a.forced@ == b.forced@
    &&& a.next_forced == b.next_forced
}

/// Two answers did the same to their games.
pub open spec fn same_outcome(a: Result<Outcome, Stop>, b: Result<Outcome, Stop>) -> bool {
    match (a, b) {
        (Err(x), Err(y)) => x == y,
        (
            Ok(Outcome::Struck { word: v, message: m }),
            Ok(Outcome::Struck { word: w, message: n }),
        ) => v@ == w@ && m@ == n@,
        (
            Ok(Outcome::Narrowed { score: s, info: i, .. }),
            Ok(Outcome::Narrowed { score: t, info: j, .. }),
        ) => s == t && i == j,
        (Ok(Outcome::Solved(x)), Ok(Outcome::Solved(y))) => x.guesses == y.guesses && x.word@
            == y.word@,
        _ => false,
    }
}

/// The ‰ rank is never used as a constraint: answers that differ in it only, or in the number of
/// solvers, do the same to two games that stand the same.
pub proof fn lemma_alike_answers_do_the_same<E: Fn(Observation) -> Evidence>(
    a: Game,
    b: Game,
    idx: u32,
    x: ScoreResp,
    y: ScoreResp,
    t: u64,
    u: u64,
    evidence: E,
    a2: Game,
    b2: Game,
    r: Result<Outcome, Stop>,
    q: Result<Outcome, Stop>,
)
    requires
        same_game(a, b),
        consistent(evidence),
        alike(x, y),
        answered(a, idx, x, t, evidence, a2, r),
        answered(b, idx, y, u, evidence, b2, q),
        a2.wf() || r is Err,
        b2.wf() || q is Err,
    ensures
        same_outcome(r, q),
        same_game(a2, b2),
{
    match (x, y) {
        (ScoreResp::Score { s, .. }, ScoreResp::Score { .. }) => {
            match (r, q) {
                (
                    Ok(Outcome::Narrowed { info: i, .. }),
                    Ok(Outcome::Narrowed { info: j, .. }),
                ) => {
                    let o = Observation { idx, score: s };
                    let e = choose|e: Evidence| #[trigger]
                        call_ensures(evidence, (o,), e) && observed(a.solver, o, e, a2.solver, i);
                    let f = choose|e: Evidence| #[trigger]
                        call_ensures(evidence, (o,), e) && observed(b.solver, o, e, b2.solver, j);
                    assert(e == f);
                    lemma_observing_is_determined(
                        a.solver,
                        b.solver,
                        o,
                        e,
                        a2.solver,
                        b2.solver,
                        i,
                        j,
                    );
                },
                _ => {},
            }
        },
        _ => {},
    }
}

/// One round of a game: the turn that was played, the answer it got and what that did.
pub struct Round<'a> {
    pub before: Game<'a>,
    pub turn: Turn,
    pub asked: Game<'a>,
    pub resp: ScoreResp,
    pub elapsed_ms: u64,
    pub after: Game<'a>,
    pub result: Result<Outcome, Stop>,
}

impl<'a> Round<'a> {
    /// The round was played by the rules.
    pub open spec fn valid<
        S: Fn(u32, u32) -> i32,
        R: Fn(u32, u32) -> Option<RankSlot>,
        H: Fn(&Vec<usize>) -> Entropy,
        E: Fn(Observation) -> Evidence,
    >(self, g: Gauge<S, R, H>, evidence: E) -> bool {
        &&& turned(self.before, g, self.asked, Ok(self.turn))
        &&& answered(
            self.asked,
            self.turn.choice.idx,
            self.resp,
            self.elapsed_ms,
            evidence,
            self.after,
            self.result,
        )
        &&& self.after.wf() || self.result is Err
    }

    /// The game ended with this round: it was won or stopped, or no guess is left.
    pub open spec fn last(self) -> bool {
        self.result is Err || self.result->Ok_0 is Solved || self.after.guesses == MAX_GUESSES
    }
}

/// The rounds of a whole game, one after the other until it ended.
pub open spec fn whole_game<
    S: Fn(u32, u32) -> i32,
    R: Fn(u32, u32) -> Option<RankSlot>,
    H: Fn(&Vec<usize>) -> Entropy,
    E: Fn(Observation) -> Evidence,
>(rounds: Seq<Round>, g: Gauge<S, R, H>, evidence: E) -> bool {
    &&& rounds.len() > 0
    &&& forall|k: int| 0 <= k < rounds.len() ==> (#[trigger] rounds[k]).valid(g, evidence)
    &&& forall|k: int|
        0 <= k < rounds.len() ==> (#[trigger] rounds[k]).last() == (k == rounds.len() - 1)
    &&& forall|k: int| #![trigger rounds[k]]
        0 < k < rounds.len() ==> rounds[k].before == rounds[k - 1].after
}

/// The two games were the same up to round `k`: the same guesses, with the same outcome.
pub open spec fn same_round(a: Round, b: Round) -> bool {
    &&& a.turn == b.turn
    &&& same_outcome(a.result, b.result)
    &&& same_game(a.after, b.after)
}

proof fn lemma_rounds_agree<
    S: Fn(u32, u32) -> i32,
    R: Fn(u32, u32) -> Option<RankSlot>,
    H: Fn(&Vec<usize>) -> Entropy,
    E: Fn(Observation) -> Evidence,
>(a: Seq<Round>, b: Seq<Round>, g: Gauge<S, R, H>, evidence: E, k: int)
    requires
        whole_game(a, g, evidence),
        whole_game(b, g, evidence),
        steady(g),
        consistent(evidence),
        same_game(a[0].before, b[0].before),
        forall|k: int|
            #![trigger a[k], b[k]]
            0 <= k < a.len() && k < b.len() && a[k].turn.choice.idx == b[k].turn.choice.idx
                ==> alike(a[k].resp, b[k].resp),
        0 <= k < a.len(),
    ensures
        k < b.len(),
        same_round(a[k], b[k]),
    decreases k,
{
    if k > 0 {
        lemma_rounds_agree(a, b, g, evidence, k - 1);
        let (c, d) = (a[k - 1], b[k - 1]);
        assert(!c.last());
        assert(!d.last());
    }
    let (c, d) = (a[k], b[k]);
    assert(same_game(c.before, d.before));
    assert(c.valid(g, evidence) && d.valid(g, evidence));
    if c.turn.forced {
        let idx = c.before.forced@[c.before.next_forced as int];
        assert(forced_turn(c.before.solver, g, idx, c.turn.choice));
        assert(forced_turn(d.before.solver, g, idx, d.turn.choice));
        let targets = set_positions(c.before.solver.alive@);
        let v = choose|w: Weight| #[trigger]
            c.before.solver.weight_over(g, idx, targets, w) && c.turn.choice.entropy
                == w.entropy.bits && c.turn.choice.buckets == w.buckets;
        let w = choose|w: Weight| #[trigger]
            d.before.solver.weight_over(g, idx, targets, w) && d.turn.choice.entropy
                == w.entropy.bits && d.turn.choice.buckets == w.buckets;
        assert(c.before.solver.weight_over(g, idx, targets, w));
        lemma_weight_is_determined(c.before.solver, g, idx, targets, v, w);
    } else {
        lemma_choice_is_determined(
            c.before.solver,
            d.before.solver,
            g,
            c.turn.choice,
            d.turn.choice,
        );
    }
    assert(same_game(c.asked, d.asked));
    lemma_alike_answers_do_the_same(
        c.asked,
        d.asked,
        c.turn.choice.idx,
        c.resp,
        d.resp,
        c.elapsed_ms,
        d.elapsed_ms,
        evidence,
        c.after,
        d.after,
        c.result,
        d.result,
    );
}

/// Two whole games that start the same, and whose oracles answer alike but for the ‰ ranks and
/// the number of solvers, are the same game: the same guesses, the same outcomes, the same end.
pub proof fn lemma_percentiles_change_no_game<
    S: Fn(u32, u32) -> i32,
    R: Fn(u32, u32) -> Option<RankSlot>,
    H: Fn(&Vec<usize>) -> Entropy,
    E: Fn(Observation) -> Evidence,
>(a: Seq<Round>, b: Seq<Round>, g: Gauge<S, R, H>, evidence: E)
    requires
        whole_game(a, g, evidence),
        whole_game(b, g, evidence),
        steady(g),
        consistent(evidence),
        same_game(a[0].before, b[0].before),
        forall|k: int|
            #![trigger a[k], b[k]]
            0 <= k < a.len() && k < b.len() && a[k].turn.choice.idx == b[k].turn.choice.idx
                ==> alike(a[k].resp, b[k].resp),
    ensures
        a.len() == b.len(),
        forall|k: int| #![trigger a[k]] #![trigger b[k]] 0 <= k < a.len() ==> same_round(a[k], b[k]),
{
    assert forall|k: int| #![trigger a[k]] 0 <= k < a.len() implies k < b.len() && same_round(
        a[k],
        b[k],
    ) by {
        lemma_rounds_agree(a, b, g, evidence, k);
    }
    let n = a.len() - 1;
    assert(a[n].last());
    assert(b[n].last());
}

} // verus!
