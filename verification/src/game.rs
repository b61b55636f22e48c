//! One game: who plays what next, and when it is over. The caller asks the oracle and hands its
//! answers back.

use vstd::prelude::*;

use crate::flags::set_positions;
use crate::guess::{gauges, Choice, Gauge};
use crate::ieee::Double;
use crate::partition::{Entropy, RankSlot, Weight};
use crate::ranks::ONE_BITS;
use crate::scoring::{cemantix_scoring, one, quelmot_model, Evidence, RankModel, Scoring};
use crate::site::ScoreResp;
use crate::solver::{banned_one, observed, started, Observation, ObserveInfo, Solver};
use crate::text::{append_text, char_list, decimal, same_text, write_decimal};
use crate::vectors::Vectors;

verus! {

/// A game is given up after this many guesses.
pub const MAX_GUESSES: u32 = 60;

/// A game is given up when more than this many words in a row are unknown.
pub const MAX_UNKNOWN: u32 = 50;

/// A game that was won.
pub struct GameResult {
    pub guesses: u32,
    pub word: String,
    pub total_ms: u64,
}

/// Why a game cannot go on.
#[derive(Clone, Copy, Debug, PartialEq, Eq, Structural)]
pub enum Stop {
    /// A rank game needs the rank table.
    NoRanks,
    /// Too many guesses.
    TooLong(u32),
    /// Too many unknown words in a row.
    TooManyUnknown,
    /// The puzzle is closed.
    Closed,
}

impl Stop {
    /// The reason in words.
    pub open spec fn text(self) -> Seq<char> {
        match self {
            Stop::NoRanks => "ce jeu se joue aux rangs : lancez d'abord « build-ranks »"@,
            Stop::TooLong(n) => "abandon après "@ + decimal(n as nat) + " coups"@,
            Stop::TooManyUnknown => "trop de mots inconnus d'affilée"@,
            Stop::Closed => "ce puzzle n'est plus ouvert (réponse {\"r\": true})"@,
        }
    }

    /// The reason in words.
    pub fn message(self) -> (r: String)
        ensures
            r@ == self.text(),
    {
        let mut r = String::new();
        match self {
            Stop::NoRanks => {
                append_text(&mut r, "ce jeu se joue aux rangs : lancez d'abord « build-ranks »");
            },
            Stop::TooLong(n) => {
                append_text(&mut r, "abandon après ");
                append_text(&mut r, write_decimal(n as u64).as_str());
                append_text(&mut r, " coups");
            },
            Stop::TooManyUnknown => {
                append_text(&mut r, "trop de mots inconnus d'affilée");
            },
            Stop::Closed => {
                append_text(&mut r, "ce puzzle n'est plus ouvert (réponse {\"r\": true})");
            },
        }
        assert(r@ =~= self.text());
        r
    }
}

/// What an answer did to the game.
pub enum Outcome {
    /// The word is unknown and struck out.
    Struck { word: String, message: String },
    /// The score narrowed the candidates.
    Narrowed { score: Double, percentile: Option<u32>, solvers: Option<u64>, info: ObserveInfo },
    /// The word is the secret.
    Solved(GameResult),
}

/// The next guess.
#[derive(Clone, Copy, Debug)]
pub struct Turn {
    pub number: u32,
    pub forced: bool,
    pub choice: Choice,
}

/// A running game.
pub struct Game<'a> {
    pub solver: Solver<'a>,
    pub guesses: u32,
    pub unknown_streak: u32,
    /// Guesses to play first: openers that the player chose, or the free hints a rank game
    /// hands out.
    pub forced: Vec<u32>,
    pub next_forced: usize,
}

impl<'a> Game<'a> {
    /// The solver is sound, the counters are in range and the forced guesses are words.
    pub open spec fn wf(self) -> bool {
        &&& self.solver.wf()
        &&& self.guesses <= MAX_GUESSES
        &&& self.unknown_streak <= MAX_UNKNOWN
        &&& self.next_forced <= self.forced@.len()
        &&& self.solver.known(self.forced@)
    }

    /// Starts a game. `forced` are guesses to play first, then the solver takes over.
    pub fn start(vectors: &'a Vectors, scoring: Scoring, forced: Vec<u32>) -> (r: Result<Self, Stop>)
        requires
            vectors.wf(),
            forall|k: int| 0 <= k < forced@.len() ==> (#[trigger] forced@[k]) < vectors.words@.len(),
        ensures
            match r {
                Ok(g) => {
                    &&& !(scoring is Rank && vectors.ranks is None)
                    &&& g.wf()
                    &&& started(g.solver, *vectors, scoring)
                    &&& g.guesses == 0
                    &&& g.unknown_streak == 0
                    &&& g.forced == forced
                    &&& g.next_forced == 0
                },
                Err(e) => e == Stop::NoRanks && scoring is Rank && vectors.ranks is None,
            },
    {
        if scoring.is_rank() && vectors.ranks.is_none() {
            return Err(Stop::NoRanks);
        }
        Ok(
            Game {
                solver: Solver::with_scoring(vectors, scoring),
                guesses: 0,
                unknown_streak: 0,
                forced,
                next_forced: 0,
            },
        )
    }

    /// Begins a turn: the forced guess to play, `None` when the choice is the solver's.
    pub fn begin_turn(&mut self) -> (r: Result<Option<u32>, Stop>)
        requires
            old(self).wf(),
        ensures
            final(self).wf(),
            final(self).solver == old(self).solver,
            final(self).guesses == old(self).guesses,
            final(self).unknown_streak == old(self).unknown_streak,
            final(self).forced == old(self).forced,
            match r {
                Err(e) => old(self).guesses == MAX_GUESSES && e == Stop::TooLong(MAX_GUESSES)
                    && final(self).next_forced == old(self).next_forced,
                Ok(Some(idx)) => old(self).guesses < MAX_GUESSES && old(self).next_forced < old(
                    self,
                ).forced@.len() && idx == old(self).forced@[old(self).next_forced as int]
                    && final(self).next_forced == old(self).next_forced + 1,
                Ok(None) => old(self).guesses < MAX_GUESSES && old(self).next_forced == old(
                    self,
                ).forced@.len() && final(self).next_forced == old(self).next_forced,
            },
    {
        if self.guesses >= MAX_GUESSES {
            return Err(Stop::TooLong(self.guesses));
        }
        if self.next_forced < self.forced.len() {
            let idx: u32 = self.forced[self.next_forced];
            self.next_forced = self.next_forced + 1;
            Ok(Some(idx))
        } else {
            Ok(None)
        }
    }

    /// The choice of a forced guess, from its weight over the candidates.
    pub fn forced_choice(&self, idx: u32, w: Weight) -> (r: Choice)
        ensures
            r == (Choice {
                idx,
                entropy: w.entropy.bits,
                buckets: w.buckets,
                probes: 1,
                candidates: self.solver.alive_count,
            }),
    {
        Choice {
            idx,
            entropy: w.entropy.bits,
            buckets: w.buckets,
            probes: 1,
            candidates: self.solver.alive_count,
        }
    }

    /// Plays the next turn: the forced guesses first, then those of the solver.
    pub fn next_turn<
        S: Fn(u32, u32) -> i32,
        R: Fn(u32, u32) -> Option<RankSlot>,
        H: Fn(&Vec<usize>) -> Entropy,
    >(&mut self, g: &Gauge<S, R, H>) -> (r: Result<Turn, Stop>)
        requires
            old(self).wf(),
            gauges(*g, old(self).solver.vectors.words@.len()),
        ensures
            final(self).wf(),
            turned(*old(self), *g, *final(self), r),
    {
        match self.begin_turn() {
            Err(e) => Err(e),
            Ok(Some(idx)) => {
                let ghost at = self.next_forced - 1;
                assert(self.forced@[at] < self.solver.vectors.words@.len());
                let w = self.solver.evaluate(idx, g);
                let choice = self.forced_choice(idx, w);
                Ok(Turn { number: self.guesses + 1, forced: true, choice })
            },
            Ok(None) => {
                let choice = self.solver.next_guess(g);
                Ok(Turn { number: self.guesses + 1, forced: false, choice })
            },
        }
    }

    /// Takes in the answer to guess `idx`, `elapsed_ms` after the start of the game. `evidence`
    /// compares a score with every word.
    pub fn answer<E: Fn(Observation) -> Evidence>(
        &mut self,
        idx: u32,
        resp: ScoreResp,
        elapsed_ms: u64,
        evidence: &E,
    ) -> (r: Result<Outcome, Stop>)
        requires
            old(self).wf(),
            old(self).guesses < MAX_GUESSES,
            idx < old(self).solver.vectors.words@.len(),
            compares(*evidence, old(self).solver),
        ensures
            final(self).wf() || r is Err,
            answered(*old(self), idx, resp, elapsed_ms, *evidence, *final(self), r),
    {
        match resp {
            ScoreResp::Unknown(message) => {
                self.unknown_streak = self.unknown_streak + 1;
                if self.unknown_streak > MAX_UNKNOWN {
                    return Err(Stop::TooManyUnknown);
                }
                let word = self.solver.vectors.words[idx as usize].clone();
                self.solver.ban(idx);
                Ok(Outcome::Struck { word, message })
            },
            ScoreResp::Closed => Err(Stop::Closed),
            ScoreResp::Score { s, p, solvers } => {
                self.unknown_streak = 0;
                self.guesses = self.guesses + 1;
                if self.solver.scoring.solved(s, p) {
                    let word = self.solver.vectors.words[idx as usize].clone();
                    return Ok(
                        Outcome::Solved(
                            GameResult { guesses: self.guesses, word, total_ms: elapsed_ms },
                        ),
                    );
                }
                let o = Observation { idx, score: s };
                let e = evidence(o);
                assert(e.fits(self.solver.scoring, self.solver.vectors.words@.len()));
                let info = self.solver.observe(o, e);
                Ok(Outcome::Narrowed { score: s, percentile: p, solvers, info })
            },
        }
    }

    /// The longest the game can still last, in turns.
    pub open spec fn turns_left(self) -> int {
        (MAX_GUESSES - self.guesses) * (MAX_UNKNOWN + 1) + (MAX_UNKNOWN - self.unknown_streak)
    }
}

/// What playing the next turn does to a game.
pub open spec fn turned<
    S: Fn(u32, u32) -> i32,
    R: Fn(u32, u32) -> Option<RankSlot>,
    H: Fn(&Vec<usize>) -> Entropy,
>(before: Game, g: Gauge<S, R, H>, after: Game, r: Result<Turn, Stop>) -> bool {
    &&& after.solver == before.solver
    &&& after.guesses == before.guesses
    &&& after.unknown_streak == before.unknown_streak
    &&& after.forced == before.forced
    &&& match r {
        Err(e) => before.guesses == MAX_GUESSES && e == Stop::TooLong(MAX_GUESSES)
            && after.next_forced == before.next_forced,
        Ok(t) => {
            &&& before.guesses < MAX_GUESSES
            &&& t.number == before.guesses + 1
            &&& t.forced == (before.next_forced < before.forced@.len())
            &&& if t.forced {
                after.next_forced == before.next_forced + 1 && forced_turn(
                    before.solver,
                    g,
                    before.forced@[before.next_forced as int],
                    t.choice,
                )
            } else {
                after.next_forced == before.next_forced && free_turn(before.solver, g, t.choice)
            }
        },
    }
}

/// A forced guess is weighed over the candidates.
pub open spec fn forced_turn<
    S: Fn(u32, u32) -> i32,
    R: Fn(u32, u32) -> Option<RankSlot>,
    H: Fn(&Vec<usize>) -> Entropy,
>(s: Solver, g: Gauge<S, R, H>, idx: u32, c: Choice) -> bool {
    exists|w: Weight| #[trigger]
        s.weight_over(g, idx, set_positions(s.alive@), w) && c == (Choice {
            idx,
            entropy: w.entropy.bits,
            buckets: w.buckets,
            probes: 1,
            candidates: s.alive_count,
        })
}

/// A free guess is the solver's.
pub open spec fn free_turn<
    S: Fn(u32, u32) -> i32,
    R: Fn(u32, u32) -> Option<RankSlot>,
    H: Fn(&Vec<usize>) -> Entropy,
>(s: Solver, g: Gauge<S, R, H>, c: Choice) -> bool {
    match s.obvious() {
        Some(o) => c == o,
        None => exists|weights: Seq<Weight>| #[trigger]
            s.all_weighed(
                g,
                s.probes(),
                crate::stride::sampled(set_positions(s.alive@), s.max_targets as nat),
                weights,
            ) && c == s.picked(s.probes(), weights),
    }
}

/// `evidence` compares any score with every word of the solver's lexicon.
pub open spec fn compares<E: Fn(Observation) -> Evidence>(evidence: E, s: Solver) -> bool {
    &&& forall|o: Observation|
        o.idx < s.vectors.words@.len() ==> #[trigger] call_requires(evidence, (o,))
    &&& forall|o: Observation, e: Evidence| #[trigger]
        call_ensures(evidence, (o,), e) ==> e.fits(s.scoring, s.vectors.words@.len())
}

/// What an answer does to a game.
pub open spec fn answered<E: Fn(Observation) -> Evidence>(
    before: Game,
    idx: u32,
    resp: ScoreResp,
    elapsed_ms: u64,
    evidence: E,
    after: Game,
    r: Result<Outcome, Stop>,
) -> bool {
    let asked = before.solver.vectors.words@[idx as int]@;
    &&& after.forced == before.forced
    &&& after.next_forced == before.next_forced
    &&& match resp {
        // an unknown word is struck out, unless there were too many of them in a row
        ScoreResp::Unknown(m) => {
            &&& after.guesses == before.guesses
            &&& after.unknown_streak == before.unknown_streak + 1
            &&& if before.unknown_streak == MAX_UNKNOWN {
                after.solver == before.solver && r matches Err(Stop::TooManyUnknown)
            } else {
                &&& banned_one(before.solver, after.solver, idx)
                &&& r matches Ok(Outcome::Struck { word, message })
                &&& word@ == asked
                &&& message == m
            }
        },
        ScoreResp::Closed => after == before && r matches Err(Stop::Closed),
        ScoreResp::Score { s, p, solvers } => {
            &&& after.guesses == before.guesses + 1
            &&& after.unknown_streak == 0
            &&& if before.solver.scoring.finds(s, p) {
                &&& after.solver == before.solver
                &&& r matches Ok(Outcome::Solved(g))
                &&& g.guesses == before.guesses + 1
                &&& g.word@ == asked
                &&& g.total_ms == elapsed_ms
            } else {
                let o = Observation { idx, score: s };
                r matches Ok(Outcome::Narrowed { score, percentile, solvers: v, info }) && score
                    == s && percentile == p && v == solvers && exists|e: Evidence| #[trigger]
                    call_ensures(evidence, (o,), e) && observed(
                        before.solver,
                        o,
                        e,
                        after.solver,
                        info,
                    )
            }
        },
    }
}

/// Every game ends: an answer that lets it go on leaves it fewer turns.
pub proof fn lemma_game_is_bounded<E: Fn(Observation) -> Evidence>(
    before: Game,
    idx: u32,
    resp: ScoreResp,
    elapsed_ms: u64,
    evidence: E,
    after: Game,
    r: Result<Outcome, Stop>,
)
    requires
        before.wf(),
        before.guesses < MAX_GUESSES,
        answered(before, idx, resp, elapsed_ms, evidence, after, r),
    ensures
        r is Ok && !(r->Ok_0 is Solved) ==> 0 <= after.turns_left() < before.turns_left(),
        before.turns_left() <= 3110,
{
    let a = MAX_GUESSES - before.guesses;
    assert((a - 1) * 51 == a * 51 - 51);
}

/// A settled solver stays settled through the whole game.
pub proof fn lemma_game_stays_settled<E: Fn(Observation) -> Evidence>(
    before: Game,
    idx: u32,
    resp: ScoreResp,
    elapsed_ms: u64,
    evidence: E,
    after: Game,
    r: Result<Outcome, Stop>,
)
    requires
        before.wf(),
        before.solver.settled(),
        answered(before, idx, resp, elapsed_ms, evidence, after, r),
    ensures
        after.solver.settled(),
{
}

/// Why a game cannot be set up.
pub enum OptionError {
    Alpha,
    Window,
    UnknownGame(String),
}

impl OptionError {
    /// The reason in words.
    pub open spec fn text(self) -> Seq<char> {
        match self {
            OptionError::Alpha => "--alpha doit être > 0"@,
            OptionError::Window => "--window doit être > 1"@,
            OptionError::UnknownGame(g) => "jeu inconnu « "@ + g@
                + " » (cemantix ou quelmot)"@,
        }
    }

    /// The reason in words.
    pub fn message(&self) -> (r: String)
        ensures
            r@ == self.text(),
    {
        let mut r = String::new();
        match self {
            OptionError::Alpha => {
                append_text(&mut r, "--alpha doit être > 0");
            },
            OptionError::Window => {
                append_text(&mut r, "--window doit être > 1");
            },
            OptionError::UnknownGame(g) => {
                append_text(&mut r, "jeu inconnu « ");
                append_text(&mut r, g.as_str());
                append_text(&mut r, " » (cemantix ou quelmot)");
            },
        }
        assert(r@ =~= self.text());
        r
    }
}

/// The rank model of QuelMot, with another lexicon factor and another window where they are
/// given.
pub open spec fn adjusted_model(alpha: Option<Double>, window: Option<Double>) -> RankModel {
    let m = quelmot_model();
    RankModel {
        alpha: match alpha {
            Some(a) => a,
            None => m.alpha,
        },
        window: match window {
            Some(w) => w,
            None => m.window,
        },
        ..m
    }
}

/// The scoring of a game by its name. A rank game takes a lexicon factor above zero and a
/// window above one; a cosine game takes no notice of them.
pub fn game_scoring(game: &str, alpha: Option<Double>, window: Option<Double>) -> (r: Result<
    Scoring,
    OptionError,
>)
    ensures
        ({
            let bad_alpha = alpha is Some && alpha->0.at_most(Double { bits: 0 });
            let bad_window = window is Some && window->0.at_most(one());
            if game@ == "cemantix"@ {
                r == Ok::<Scoring, OptionError>(cemantix_scoring())
            } else if game@ == "quelmot"@ {
                if bad_alpha {
                    r matches Err(OptionError::Alpha)
                } else if bad_window {
                    r matches Err(OptionError::Window)
                } else {
                    r == Ok::<Scoring, OptionError>(Scoring::Rank(adjusted_model(alpha, window)))
                }
            } else {
                r matches Err(OptionError::UnknownGame(g)) && g@ == game@
            }
        }),
{
    let name = char_list(game);
    if same_text(&name, &char_list("cemantix")) {
        return Ok(Scoring::cemantix());
    }
    if same_text(&name, &char_list("quelmot")) {
        let mut m = RankModel::quelmot();
        if let Some(a) = alpha {
            if a.le(Double { bits: 0 }) {
                return Err(OptionError::Alpha);
            }
            m.alpha = a;
        }
        if let Some(w) = window {
            if w.le(Double { bits: ONE_BITS }) {
                return Err(OptionError::Window);
            }
            m.window = w;
        }
        return Ok(Scoring::Rank(m));
    }
    Err(OptionError::UnknownGame(crate::text::text_of(&name)))
}

/// The secret ends the game, and nothing else wins it: an answer that says so wins with the word
/// that was asked, after one guess more; any other lets the game go on or stops it.
pub proof fn lemma_only_the_secret_wins<E: Fn(Observation) -> Evidence>(
    before: Game,
    idx: u32,
    resp: ScoreResp,
    elapsed_ms: u64,
    evidence: E,
    after: Game,
    r: Result<Outcome, Stop>,
)
    requires
        before.wf(),
        idx < before.solver.vectors.words@.len(),
        answered(before, idx, resp, elapsed_ms, evidence, after, r),
    ensures
        (r matches Ok(Outcome::Solved(_))) <==> (resp matches ScoreResp::Score { s, p, .. }
            && before.solver.scoring.finds(s, p)),
        r matches Ok(Outcome::Solved(g)) ==> g.guesses == before.guesses + 1 && g.word@
            == before.solver.vectors.words@[idx as int]@,
        // scores count as guesses, unknown words do not
        resp is Score ==> after.guesses == before.guesses + 1 && after.unknown_streak == 0,
        !(resp is Score) ==> after.guesses == before.guesses,
        // an unknown word is struck out, and the game stops at the fifty-first in a row
        resp is Unknown && before.unknown_streak < 50 ==> after.solver.banned@[idx as int]
            && !after.solver.alive@[idx as int] && r is Ok,
        resp is Unknown && before.unknown_streak >= 50 && before.unknown_streak <= MAX_UNKNOWN
            ==> r == Err::<Outcome, Stop>(Stop::TooManyUnknown),
        resp is Closed ==> after == before && r == Err::<Outcome, Stop>(Stop::Closed),
        // what is told of an answer is the answer
        r matches Ok(Outcome::Solved(g)) ==> g.total_ms == elapsed_ms && after.solver
            == before.solver,
        r matches Ok(Outcome::Struck { word, message }) ==> word@
            == before.solver.vectors.words@[idx as int]@ && resp == ScoreResp::Unknown(message),
        r matches Ok(Outcome::Narrowed { score, percentile, solvers, info }) ==> resp
            == (ScoreResp::Score { s: score, p: percentile, solvers }) && info.before
            == before.solver.alive_count && info.after == after.solver.alive_count,
{
}

/// Forced guesses come first, in their order, and each is played once; then the solver chooses. No
/// turn is played after sixty guesses.
pub proof fn lemma_forced_guesses_come_first<
    S: Fn(u32, u32) -> i32,
    R: Fn(u32, u32) -> Option<RankSlot>,
    H: Fn(&Vec<usize>) -> Entropy,
>(before: Game, g: Gauge<S, R, H>, after: Game, r: Result<Turn, Stop>)
    requires
        before.wf(),
        turned(before, g, after, r),
    ensures
        before.guesses >= 60 <==> r is Err,
        r matches Ok(t) ==> t.number == before.guesses + 1,
        r matches Ok(t) ==> (if before.next_forced < before.forced@.len() {
            &&& t.forced
            &&& t.choice.idx == before.forced@[before.next_forced as int]
            &&& t.choice.candidates == before.solver.alive_count
            &&& after.next_forced == before.next_forced + 1
        } else {
            &&& !t.forced
            &&& after.next_forced == before.next_forced
            &&& before.solver.obvious() is Some ==> Some(t.choice) == before.solver.obvious()
        }),
        after.solver == before.solver,
{
}

/// What the solver chooses without an obvious guess is one of its probes, weighed over the
/// candidates.
pub proof fn lemma_free_guess_is_a_probe<
    S: Fn(u32, u32) -> i32,
    R: Fn(u32, u32) -> Option<RankSlot>,
    H: Fn(&Vec<usize>) -> Entropy,
>(s: Solver, g: Gauge<S, R, H>, c: Choice)
    requires
        s.wf(),
        s.max_probes > 0,
        s.obvious() is None,
        free_turn(s, g, c),
    ensures
        s.probes().contains(c.idx),
        exists|w: Weight| #[trigger]
            s.weight_over(
                g,
                c.idx,
                crate::stride::sampled(set_positions(s.alive@), s.max_targets as nat),
                w,
            ) && c.entropy == w.entropy.bits && c.buckets == w.buckets,
{
    let targets = crate::stride::sampled(set_positions(s.alive@), s.max_targets as nat);
    let weights = choose|weights: Seq<Weight>| #[trigger]
        s.all_weighed(g, s.probes(), targets, weights) && c == s.picked(s.probes(), weights);
    crate::guess::lemma_pick_is_a_probe(s, weights);
    crate::guess::lemma_pick_tells_its_numbers(s, weights);
    let i = choose|i: int|
        #![trigger weights[i]]
        0 <= i < weights.len() && c.idx == s.probes()[i] && c.entropy == weights[i].entropy.bits
            && c.buckets == weights[i].buckets;
    assert(s.weight_over(g, s.probes()[i], targets, weights[i]));
}

/// The options of a rank game replace its lexicon factor and its window, and nothing else.
pub proof fn lemma_options_change_two_numbers(alpha: Option<Double>, window: Option<Double>)
    ensures
        ({
            let m = adjusted_model(alpha, window);
            let q = quelmot_model();
            &&& m.alpha == (if alpha is Some {
                alpha->0
            } else {
                q.alpha
            })
            &&& m.window == (if window is Some {
                window->0
            } else {
                q.window
            })
            &&& m.slack == q.slack && m.top == q.top && m.floor == q.floor && m.found == q.found
        }),
{
}

} // verus!
