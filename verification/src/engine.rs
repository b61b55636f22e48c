//! The engine behind the web page: a compact model, its rank table and one solver.

use vstd::prelude::*;

use crate::cosine::measures;
use crate::flags::{lemma_set_positions, set_count, set_positions};
use crate::game::free_turn;
use crate::guess::{gauges, Choice, Gauge};
use crate::hints::{best_guess, lemma_hint_words_are_safe, rung, Hint, HintLevel, HintLocked};
use crate::ieee::{Double, Single};
use crate::json::{json_list, list_to_json};
use crate::model::{optional_text, position_of};
use crate::partition::{Entropy, RankSlot, Weight};
use crate::ranks::{rows_of, RankTable};
use crate::scoring::{
    cemantix_scoring, one, quelmot_model, tol_level_for, Evidence, RankModel, Scoring, TOL_LEVELS, TOL_MULT,
};
use crate::session::{meant, read_word};
use crate::solver::{
    banned_one, observed, started, Observation, ObserveInfo, Solver, MAX_PROBES, MAX_TARGETS,
    RANK_PROBES, RANK_TARGETS,
};
use crate::text::{append_text, char_list, decimal, lines, lines_of, same_text, text_of, texts, write_decimal};
use crate::vectors::{halves_of, plausible_flags, Vectors, PRIOR_RANK};

verus! {

/// How many candidates are named after an answer.
pub const TOP_SHOWN: usize = 12;

/// Why the engine cannot be set up.
pub enum EngineError {
    /// The vectors do not fit the words and the dimension.
    ModelSize { bytes: usize, words: usize, dim: usize },
    /// The rank table does not fit the plausible words and the levels.
    RankSize { bytes: usize, words: usize, levels: usize },
    /// A rank model takes five numbers.
    RankNumbers,
    /// A rank game needs the rank table.
    NoRanks,
    /// There is no such game.
    UnknownGame(String),
}

impl EngineError {
    /// The reason in words.
    pub open spec fn text(self) -> Seq<char> {
        match self {
            EngineError::ModelSize { bytes, words, dim } => "taille du modèle incohérente : "@
                + decimal(bytes as nat) + " octets pour "@ + decimal(words as nat) + " mots x "@
                + decimal(dim as nat) + " dims"@,
            EngineError::RankSize { bytes, words, levels } => "table de rangs incohérente : "@
                + decimal(bytes as nat) + " octets pour "@ + decimal(words as nat) + " mots x "@
                + decimal(levels as nat) + " niveaux"@,
            EngineError::RankNumbers => "rank_model attend 5 nombres"@,
            EngineError::NoRanks
            => "ce jeu se joue aux rangs, or la table de rangs n'a pas été exportée"@,
            EngineError::UnknownGame(g) => "jeu inconnu « "@ + g@ + " »"@,
        }
    }

    /// The reason in words.
    pub fn message(&self) -> (r: String)
        ensures
            r@ == self.text(),
    {
        let mut r = String::new();
        match self {
            EngineError::ModelSize { bytes, words, dim } => {
                append_text(&mut r, "taille du modèle incohérente : ");
                append_text(&mut r, write_decimal(*bytes as u64).as_str());
                append_text(&mut r, " octets pour ");
                append_text(&mut r, write_decimal(*words as u64).as_str());
                append_text(&mut r, " mots x ");
                append_text(&mut r, write_decimal(*dim as u64).as_str());
                append_text(&mut r, " dims");
            },
            EngineError::RankSize { bytes, words, levels } => {
                append_text(&mut r, "table de rangs incohérente : ");
                append_text(&mut r, write_decimal(*bytes as u64).as_str());
                append_text(&mut r, " octets pour ");
                append_text(&mut r, write_decimal(*words as u64).as_str());
                append_text(&mut r, " mots x ");
                append_text(&mut r, write_decimal(*levels as u64).as_str());
                append_text(&mut r, " niveaux");
            },
            EngineError::RankNumbers => {
                append_text(&mut r, "rank_model attend 5 nombres");
            },
            EngineError::NoRanks => {
                append_text(
                    &mut r,
                    "ce jeu se joue aux rangs, or la table de rangs n'a pas été exportée",
                );
            },
            EngineError::UnknownGame(g) => {
                append_text(&mut r, "jeu inconnu « ");
                append_text(&mut r, g.as_str());
                append_text(&mut r, " »");
            },
        }
        assert(r@ =~= self.text());
        r
    }
}

/// Builds the model of the page.
///
/// - `halves` and `words`: the compact model, little-endian half-precision rows and one word per
///   line.
/// - `ranks` and `rank_levels`: the neighbour-quantile dump and the ranks it tabulates. Either
///   may be empty to ship without the rank games.
pub fn build_vectors(
    halves: &[u8],
    words: &str,
    dim: usize,
    opener: &Option<String>,
    ranks: &[u8],
    rank_levels: &Vec<u32>,
    rank_opener: &Option<String>,
) -> (r: Result<Vectors, EngineError>)
    requires
        lines_of(words@).len() <= u32::MAX,
    ensures
        ({
            let list = lines_of(words@);
            let flags = plausible_flags(list, PRIOR_RANK as int);
            let lexicon = set_positions(flags);
            let with_ranks = ranks@.len() > 0 && rank_levels@.len() > 0;
            match r {
                Err(EngineError::ModelSize { bytes, words: n, dim: d }) => halves@.len() != list.len()
                    * dim * 2 && bytes == halves@.len() && n == list.len() && d == dim,
                Err(EngineError::RankSize { bytes, words: n, levels }) => halves@.len() == list.len()
                    * dim * 2 && with_ranks && ranks@.len() != lexicon.len() * rank_levels@.len()
                    * 2 && bytes == ranks@.len() && n == lexicon.len() && levels
                    == rank_levels@.len(),
                Err(_) => false,
                Ok(v) => {
                    &&& halves@.len() == list.len() * dim * 2
                    &&& v.wf()
                    &&& v.name@ == "web"@
                    &&& v.dim == dim
                    &&& v.texts() == list
                    &&& v.vecs@ == halves_of(halves@)
                    &&& v.plausible@ == flags
                    &&& position_of(list, optional_text(*opener), v.opener)
                    &&& position_of(list, optional_text(*rank_opener), v.rank_opener)
                    &&& match v.ranks {
                        Some(t) => {
                            &&& with_ranks
                            &&& ranks@.len() == lexicon.len() * rank_levels@.len() * 2
                            &&& t.levels@ == rank_levels@
                            &&& t.row_of@ == rows_of(list.len(), lexicon)
                            &&& t.sims@ == halves_of(ranks@)
                        },
                        None => !with_ranks,
                    }
                },
            }
        }),
{
    let list = lines(&char_list(words));
    let n: usize = list.len();
    proof {
        assert(texts(list@).len() == n);
        assert(0 <= n * dim <= 0xffff_ffff * 0xffff_ffff_ffff_ffff) by (nonlinear_arith)
            requires
                n <= 0xffff_ffff,
                dim <= 0xffff_ffff_ffff_ffff,
        ;
    }
    if halves.len() as u128 != n as u128 * dim as u128 * 2 {
        return Err(EngineError::ModelSize { bytes: halves.len(), words: n, dim });
    }
    let mut name = String::new();
    append_text(&mut name, "web");
    assert(name@ =~= "web"@);
    let mut v = Vectors::from_f16(name, dim, list, halves, PRIOR_RANK);
    let at: Option<u32> = match opener {
        Some(w) => v.lookup(w.as_str()),
        None => None,
    };
    let rank_at: Option<u32> = match rank_opener {
        Some(w) => v.lookup(w.as_str()),
        None => None,
    };
    if ranks.len() > 0 && rank_levels.len() > 0 {
        let lex = v.plausible_indices();
        proof {
            lemma_set_positions(v.plausible@);
            let (a, b) = (lex@.len() as int, rank_levels.len() as int);
            assert(0 <= a * b <= 0xffff_ffff * 0xffff_ffff_ffff_ffff) by (nonlinear_arith)
                requires
                    0 <= a <= 0xffff_ffff,
                    0 <= b <= 0xffff_ffff_ffff_ffff,
            ;
        }
        if ranks.len() as u128 != lex.len() as u128 * rank_levels.len() as u128 * 2 {
            return Err(
                EngineError::RankSize {
                    bytes: ranks.len(),
                    words: lex.len(),
                    levels: rank_levels.len(),
                },
            );
        }
        let table = RankTable::from_f16(n, &lex, rank_levels, ranks);
        v.ranks = table;
    }
    v.opener = at;
    v.rank_opener = rank_at;
    Ok(v)
}

/// The rank model of five numbers (alpha, window, slack, top and floor), QuelMot's if there are
/// none. `found` is half a point under the fourth.
pub fn rank_model_from(numbers: &Vec<Double>, found: Double) -> (r: Result<RankModel, EngineError>)
    ensures
        if numbers@.len() == 5 {
            r == Ok::<RankModel, EngineError>(
                RankModel {
                    alpha: numbers@[0],
                    window: numbers@[1],
                    slack: numbers@[2],
                    top: numbers@[3],
                    floor: numbers@[4],
                    found,
                },
            )
        } else if numbers@.len() == 0 {
            r == Ok::<RankModel, EngineError>(quelmot_model())
        } else {
            r matches Err(EngineError::RankNumbers)
        },
{
    if numbers.len() == 5 {
        Ok(
            RankModel {
                alpha: numbers[0],
                window: numbers[1],
                slack: numbers[2],
                top: numbers[3],
                floor: numbers[4],
                found,
            },
        )
    } else if numbers.len() == 0 {
        Ok(RankModel::quelmot())
    } else {
        Err(EngineError::RankNumbers)
    }
}

/// The next guess, for the page.
pub struct GuessOut {
    pub word: String,
    pub idx: u32,
    pub entropy: Double,
    pub buckets: usize,
    pub candidates: usize,
    pub opener: bool,
}

/// What a chosen word is worth, for the page.
pub struct EvalOut {
    pub word: String,
    pub idx: u32,
    pub entropy: Double,
    pub buckets: usize,
    pub candidate: bool,
}

/// What an answer did, for the page.
pub struct ObserveOut {
    pub info: ObserveInfo,
    pub restricted: bool,
    pub top: Vec<String>,
}

/// One rung of the hint ladder, flat so the page has nothing to unpack.
pub struct HintOut {
    /// Whether a rung was granted.
    pub granted: bool,
    /// The name of the rung, or of the refusal.
    pub rung: &'static str,
    pub level: usize,
    /// Rungs still obtainable after this call. A refusal consumes none.
    pub remaining: usize,
    pub words: Vec<String>,
    /// The same words as indices, so the page can hand them back.
    pub idx: Vec<u32>,
    /// Surviving candidates, for the refusal messages.
    pub alive: usize,
}

/// Warmer or colder for one word, without ever saying whether it is a candidate.
pub struct WarmthOut {
    pub word: String,
    /// How well the word fits every surviving candidate, none while the ladder is locked.
    pub fit: Option<Single>,
    /// The player's own guess that fits best, and its fit.
    pub best: Option<String>,
    pub best_fit: Option<Single>,
    pub locked: bool,
}

/// The engine of the page.
pub struct Engine<'a> {
    pub vectors: &'a Vectors,
    pub solver: Solver<'a>,
    pub scoring: Scoring,
    pub rank_model: RankModel,
    /// Rounding steps that the model's own error calls for.
    pub needed: Double,
    pub game: String,
}

/// The smallest tolerance level that covers `needed` rounding steps, the last one if none does.
pub open spec fn covering_level(needed: Double, level: int) -> bool {
    &&& 0 <= level < TOL_LEVELS
    &&& forall|i: int|
        0 <= i < level ==> !needed.at_most(Double { bits: #[trigger] TOL_MULT[i] })
    &&& needed.at_most(Double { bits: TOL_MULT[level] }) || level == TOL_LEVELS - 1
}

/// A solver at the start of a game on the page: as any new one, but for a cosine game at the
/// tolerance level that the compressed model calls for.
pub open spec fn fresh(s: Solver, vectors: Vectors, scoring: Scoring, needed: Double) -> bool {
    &&& s.wf()
    &&& s.settled()
    &&& *s.vectors == vectors
    &&& s.scoring == scoring
    &&& s.alive@ == vectors.plausible@
    &&& s.banned@ == Seq::new(vectors.words@.len(), |j: int| false)
    &&& s.restricted
    &&& s.obs@.len() == 0
    &&& s.max_probes == if scoring is Rank {
        RANK_PROBES
    } else {
        MAX_PROBES
    }
    &&& s.max_targets == if scoring is Rank {
        RANK_TARGETS
    } else {
        MAX_TARGETS
    }
    &&& if scoring is Cosine {
        covering_level(needed, s.tol_level as int)
    } else {
        s.tol_level == 0
    }
}

/// The words of some indices.
pub open spec fn names_of(v: Vectors, idx: Seq<u32>) -> Seq<Seq<char>> {
    Seq::new(idx.len(), |k: int| v.texts()[idx[k] as int])
}

/// Names some words.
pub fn name_words(v: &Vectors, idx: &Vec<u32>) -> (r: Vec<String>)
    requires
        forall|k: int| 0 <= k < idx@.len() ==> (#[trigger] idx@[k]) < v.words@.len(),
    ensures
        texts(r@) == names_of(*v, idx@),
{
    let mut r: Vec<String> = Vec::new();
    for k in 0..idx.len()
        invariant
            forall|k: int| 0 <= k < idx@.len() ==> (#[trigger] idx@[k]) < v.words@.len(),
            texts(r@) == names_of(*v, idx@).take(k as int),
    {
        assert(idx@[k as int] < v.words@.len());
        let ghost was = texts(r@);
        r.push(v.words[idx[k] as usize].clone());
        assert(texts(r@) =~= was.push(names_of(*v, idx@)[k as int]));
        assert(texts(r@) =~= names_of(*v, idx@).take(k + 1));
    }
    assert(texts(r@) =~= names_of(*v, idx@));
    r
}

/// The first `k` of some positions, or all of them.
pub open spec fn first_positions(s: Seq<u32>, k: nat) -> Seq<u32> {
    s.take(
        if k <= s.len() {
            k as int
        } else {
            s.len() as int
        },
    )
}

impl<'a> Engine<'a> {
    /// The solver works on the engine's model by the engine's scoring, and a rank game has its
    /// table.
    pub open spec fn wf(self) -> bool {
        &&& self.vectors.wf()
        &&& self.solver.wf()
        &&& self.solver.vectors == self.vectors
        &&& self.solver.scoring == self.scoring
        &&& self.solver.max_probes > 0
        &&& self.scoring is Rank ==> self.vectors.ranks is Some
    }

    /// Starts the engine on a game, Cémantix if none is named.
    pub fn new(
        vectors: &'a Vectors,
        rank_model: RankModel,
        needed: Double,
        game: &Option<String>,
    ) -> (r: Result<Self, EngineError>)
        requires
            vectors.wf(),
        ensures
            ({
                let name = match *game {
                    Some(g) => g@,
                    None => "cemantix"@,
                };
                match r {
                    Ok(e) => e.wf() && e.vectors == vectors && e.rank_model == rank_model
                        && e.needed == needed && switched(*vectors, rank_model, needed, name, e),
                    Err(e) => refused(*vectors, name, e),
                }
            }),
    {
        let mut start = String::new();
        append_text(&mut start, "cemantix");
        let mut e = Engine {
            vectors,
            solver: Solver::new(vectors),
            scoring: Scoring::cemantix(),
            rank_model,
            needed,
            game: start,
        };
        let done = match game {
            Some(g) => e.set_game(g.as_str()),
            None => e.set_game("cemantix"),
        };
        match done {
            Ok(_) => Ok(e),
            Err(err) => Err(err),
        }
    }

    /// Start a new game with the current scoring.
    pub fn reset(&mut self)
        requires
            old(self).vectors.wf(),
            old(self).scoring is Rank ==> old(self).vectors.ranks is Some,
        ensures
            final(self).wf(),
            fresh(final(self).solver, *old(self).vectors, old(self).scoring, old(self).needed),
            final(self).vectors == old(self).vectors,
            final(self).scoring == old(self).scoring,
            final(self).rank_model == old(self).rank_model,
            final(self).needed == old(self).needed,
            final(self).game == old(self).game,
    {
        let mut s = Solver::with_scoring(self.vectors, self.scoring);
        if !self.scoring.is_rank() {
            s.tol_level = tol_level_for(self.needed);
        }
        proof {
            let f = s.field(true, s.tol_level as int);
            assert(s.alive@ =~= f);
        }
        self.solver = s;
    }

    /// Switch game and start over. Fails when there is no rank table for a rank game, and then
    /// changes nothing.
    pub fn set_game(&mut self, game: &str) -> (r: Result<(), EngineError>)
        requires
            old(self).wf(),
        ensures
            final(self).wf(),
            final(self).vectors == old(self).vectors,
            final(self).rank_model == old(self).rank_model,
            final(self).needed == old(self).needed,
            match r {
                Ok(_) => switched(
                    *old(self).vectors,
                    old(self).rank_model,
                    old(self).needed,
                    game@,
                    *final(self),
                ),
                Err(e) => *final(self) == *old(self) && refused(*old(self).vectors, game@, e),
            },
    {
        let name = char_list(game);
        let scoring = if same_text(&name, &char_list("cemantix")) {
            Scoring::cemantix()
        } else if same_text(&name, &char_list("quelmot")) {
            if self.vectors.ranks.is_none() {
                proof {
                    reveal_strlit("cemantix");
                    reveal_strlit("quelmot");
                }
                return Err(EngineError::NoRanks);
            }
            Scoring::Rank(self.rank_model)
        } else {
            return Err(EngineError::UnknownGame(text_of(&name)));
        };
        self.scoring = scoring;
        self.game = text_of(&name);
        self.reset();
        Ok(())
    }

    pub fn game(&self) -> (r: String)
        ensures
            r@ == self.game@,
    {
        self.game.clone()
    }

    /// Can the rank games be played with this export?
    pub fn has_ranks(&self) -> (r: bool)
        ensures
            r == (self.vectors.ranks is Some),
    {
        self.vectors.ranks.is_some()
    }

    /// The tolerance as it is shown, from its number in decimal.
    pub fn tol(&self, number: &str) -> (r: String)
        ensures
            r@ == match self.solver.scoring {
                Scoring::Cosine { .. } => seq!['±'] + number@,
                Scoring::Rank(_) => seq!['×', '÷'] + number@,
            },
    {
        self.solver.tol_label(number)
    }

    /// Local rank a rank-game score stands for, `None` on the floor or in a cosine game.
    /// `quotient` is `(top − score) / alpha`.
    pub fn rank_for(&self, score: Double, quotient: Double) -> (r: Option<Double>)
        ensures
            r == match self.scoring {
                Scoring::Rank(m) => if m.floored(score) {
                    None
                } else {
                    Some(quotient.upper(one()))
                },
                Scoring::Cosine { .. } => None,
            },
    {
        match self.scoring {
            Scoring::Rank(m) => m.local_rank(score, quotient),
            Scoring::Cosine { .. } => None,
        }
    }

    /// Rank past which a rank game floors its score, so all a floored answer says is "further
    /// than this". `quotient` is `(top − floor) / alpha`.
    pub fn floor_rank(&self, quotient: Double) -> (r: Option<Double>)
        ensures
            r == match self.scoring {
                Scoring::Rank(_) => Some(quotient.upper(one())),
                Scoring::Cosine { .. } => None,
            },
    {
        match self.scoring {
            Scoring::Rank(m) => Some(m.floor_rank(quotient)),
            Scoring::Cosine { .. } => None,
        }
    }

    pub fn n(&self) -> (r: usize)
        ensures
            r == self.vectors.words@.len(),
    {
        self.vectors.n()
    }

    pub fn plausible(&self) -> (r: usize)
        ensures
            r == set_count(self.vectors.plausible@),
    {
        self.vectors.plausible_count()
    }

    pub fn candidates(&self) -> (r: usize)
        ensures
            r == self.solver.alive_count,
    {
        self.solver.alive_count
    }

    /// Looks up a word as it was typed.
    pub fn lookup(&self, word: &str) -> (r: Option<u32>)
        requires
            self.wf(),
        ensures
            position_of(self.vectors.texts(), Some(meant(word@)), r),
    {
        let w = read_word(word);
        self.vectors.lookup(w.as_str())
    }

    pub fn word(&self, idx: u32) -> (r: String)
        requires
            idx < self.vectors.words@.len(),
        ensures
            r@ == self.vectors.texts()[idx as int],
    {
        self.vectors.words[idx as usize].clone()
    }

    /// The next guess. An opener is precomputed: what it is worth in this game is measured.
    pub fn next_guess<
        S: Fn(u32, u32) -> i32,
        R: Fn(u32, u32) -> Option<RankSlot>,
        H: Fn(&Vec<usize>) -> Entropy,
    >(&self, g: &Gauge<S, R, H>) -> (r: GuessOut)
        requires
            self.wf(),
            self.vectors.words@.len() > 0,
            gauges(*g, self.vectors.words@.len()),
        ensures
            exists|c: Choice| #[trigger]
                free_turn(self.solver, *g, c) && self.shows(*g, c, r),
    {
        let c = self.solver.next_guess(g);
        proof {
            lemma_guess_is_a_word(self.solver, *g, c);
        }
        let opener: bool = c.entropy.is_nan();
        let mut entropy: Double = c.entropy;
        let mut buckets: usize = c.buckets;
        if opener {
            let w = self.solver.evaluate(c.idx, g);
            entropy = w.entropy.bits;
            buckets = w.buckets;
        }
        let r = GuessOut {
            word: self.vectors.words[c.idx as usize].clone(),
            idx: c.idx,
            entropy,
            buckets,
            candidates: c.candidates,
            opener,
        };
        assert(free_turn(self.solver, *g, c));
        assert(self.shows(*g, c, r));
        r
    }

    /// How a choice is shown on the page.
    pub open spec fn shows<
        S: Fn(u32, u32) -> i32,
        R: Fn(u32, u32) -> Option<RankSlot>,
        H: Fn(&Vec<usize>) -> Entropy,
    >(self, g: Gauge<S, R, H>, c: Choice, r: GuessOut) -> bool {
        &&& r.idx == c.idx
        &&& r.word@ == self.vectors.texts()[c.idx as int]
        &&& r.candidates == c.candidates
        &&& r.opener == c.entropy.nan()
        &&& if r.opener {
            exists|w: Weight| #[trigger]
                self.solver.weight_over(g, c.idx, set_positions(self.solver.alive@), w)
                    && r.entropy == w.entropy.bits && r.buckets == w.buckets
        } else {
            r.entropy == c.entropy && r.buckets == c.buckets
        }
    }

    /// Expected information of a user-chosen word.
    pub fn evaluate<
        S: Fn(u32, u32) -> i32,
        R: Fn(u32, u32) -> Option<RankSlot>,
        H: Fn(&Vec<usize>) -> Entropy,
    >(&self, idx: u32, g: &Gauge<S, R, H>) -> (r: EvalOut)
        requires
            self.wf(),
            idx < self.vectors.words@.len(),
            gauges(*g, self.vectors.words@.len()),
        ensures
            r.word@ == self.vectors.texts()[idx as int],
            r.idx == idx,
            r.candidate == self.solver.alive@[idx as int],
            exists|w: Weight| #[trigger]
                self.solver.weight_over(*g, idx, set_positions(self.solver.alive@), w) && r.entropy
                    == w.entropy.bits && r.buckets == w.buckets,
    {
        let w = self.solver.evaluate(idx, g);
        EvalOut {
            word: self.vectors.words[idx as usize].clone(),
            idx,
            entropy: w.entropy.bits,
            buckets: w.buckets,
            candidate: self.solver.alive[idx as usize],
        }
    }

    /// Record one answer: a cosine for Cémantix, the raw integer for a rank game. Free hints go
    /// in here like any other guess.
    pub fn observe(&mut self, idx: u32, score: Double, e: Evidence) -> (r: ObserveOut)
        requires
            old(self).wf(),
            idx < old(self).vectors.words@.len(),
            e.fits(old(self).scoring, old(self).vectors.words@.len()),
        ensures
            final(self).wf(),
            final(self).vectors == old(self).vectors,
            final(self).scoring == old(self).scoring,
            final(self).rank_model == old(self).rank_model,
            final(self).needed == old(self).needed,
            final(self).game == old(self).game,
            observed(
                old(self).solver,
                (Observation { idx, score }),
                e,
                final(self).solver,
                r.info,
            ),
            r.restricted == final(self).solver.restricted,
            texts(r.top@) == names_of(
                *old(self).vectors,
                first_positions(set_positions(final(self).solver.alive@), TOP_SHOWN as nat),
            ),
    {
        let info = self.solver.observe(Observation { idx, score }, e);
        let top = self.solver.top(TOP_SHOWN);
        proof {
            lemma_set_positions(self.solver.alive@);
        }
        ObserveOut { info, restricted: self.solver.restricted, top: name_words(self.vectors, &top) }
    }

    /// Number of rungs on the hint ladder.
    pub fn hint_levels(&self) -> (r: usize)
        ensures
            r == 3,
            rung(r as nat) is None,
            rung((r - 1) as nat) is Some,
    {
        HintLevel::LADDER.len()
    }

    /// One rung of the hint ladder, `revealed` being the words the earlier rungs already handed
    /// out. Stateless: the page owns the level counter, so a refusal costs the player nothing.
    pub fn hint<F: Fn(u32, u32) -> Single>(&self, level: usize, revealed: &Vec<u32>, sim: &F) -> (r:
        HintOut)
        requires
            self.wf(),
            measures(*sim, self.vectors.words@.len()),
            self.solver.known(revealed@),
        ensures
            exists|h: Hint| #[trigger]
                self.solver.hinted(*sim, level as nat, revealed@, h) && self.shows_hint(
                    level as nat,
                    h,
                    r,
                ),
    {
        let h = self.solver.hint(level, revealed, sim);
        let alive: usize = self.solver.alive_count;
        match &h {
            Hint::Words { level: at, words } => {
                proof {
                    lemma_hint_words_are_safe(self.solver, *sim, level as nat, revealed@, h);
                    assert(rung(level as nat) is Some);
                }
                let mut idx: Vec<u32> = Vec::new();
                for k in 0..words.len()
                    invariant
                        idx@ == words@.take(k as int),
                {
                    idx.push(words[k]);
                    assert(idx@ =~= words@.take(k + 1));
                }
                assert(words@.take(words@.len() as int) =~= words@);
                HintOut {
                    granted: true,
                    rung: at.name(),
                    level,
                    remaining: 3 - (level + 1),
                    words: name_words(self.vectors, words),
                    idx,
                    alive,
                }
            },
            Hint::Locked(why) => {
                let r = HintOut {
                    granted: false,
                    rung: why.name(),
                    level,
                    remaining: if level < 3 {
                        3 - level
                    } else {
                        0
                    },
                    words: Vec::new(),
                    idx: Vec::new(),
                    alive,
                };
                assert(texts(r.words@) =~= Seq::empty());
                r
            },
        }
    }

    /// How a hint is shown on the page.
    pub open spec fn shows_hint(self, level: nat, h: Hint, r: HintOut) -> bool {
        &&& r.level == level
        &&& r.alive == self.solver.alive_count
        &&& match h {
            Hint::Words { level: at, words } => {
                &&& r.granted
                &&& r.rung@ == match at {
                    HintLevel::Field => "field"@,
                    HintLevel::Tight => "tight"@,
                    HintLevel::Near => "near"@,
                }
                &&& r.remaining == 2 - level
                &&& r.idx@ == words@
                &&& texts(r.words@) == names_of(*self.vectors, words@)
            },
            Hint::Locked(why) => {
                &&& !r.granted
                &&& r.rung@ == match why {
                    HintLocked::NoCandidate => "no_candidate"@,
                    HintLocked::TooMany { .. } => "too_many"@,
                    HintLocked::Scattered { .. } => "scattered"@,
                    HintLocked::Exhausted => "exhausted"@,
                    HintLocked::Ended => "ended"@,
                }
                &&& r.remaining == if level < 3 {
                    3 - level
                } else {
                    0
                }
                &&& r.idx@.len() == 0
                &&& r.words@.len() == 0
            },
        }
    }

    /// Warmer or colder for a word the player is typing: how well it fits the surviving
    /// candidates, against the best of their own guesses. Never says "candidate": that would be
    /// a complete answer rather than a hint.
    pub fn warmth<F: Fn(u32, u32) -> Single>(&self, idx: u32, sim: &F) -> (r: WarmthOut)
        requires
            self.wf(),
            measures(*sim, self.vectors.words@.len()),
            idx < self.vectors.words@.len(),
        ensures
            ({
                let targets = set_positions(self.solver.alive@);
                let m = targets.len() as int;
                let open = 1 <= self.solver.alive_count <= crate::hints::HINT_MAX_SET
                    && !crate::hints::cohesion(*sim, targets).below(
                    Single { bits: crate::hints::HINT_MIN_COHESION },
                );
                let best = best_guess(
                    *sim,
                    self.solver.guesses(),
                    targets,
                    self.solver.obs@.len() as int,
                );
                &&& r.word@ == self.vectors.texts()[idx as int]
                &&& r.locked == !open
                &&& r.fit == if open {
                    Some(crate::hints::shared_fit(*sim, idx, targets, m))
                } else {
                    None
                }
                &&& if open && best is Some {
                    &&& r.best matches Some(w)
                    &&& w@ == self.vectors.texts()[(best->0).0 as int]
                    &&& r.best_fit == Some((best->0).1)
                } else {
                    r.best is None && r.best_fit is None
                }
            }),
    {
        let word = self.vectors.words[idx as usize].clone();
        match self.solver.warmth(idx, sim) {
            Some(w) => {
                let (best, best_fit) = match w.best {
                    Some((i, f)) => {
                        proof {
                            let targets = set_positions(self.solver.alive@);
                            lemma_best_guess_is_a_guess(
                                *sim,
                                self.solver.guesses(),
                                targets,
                                self.solver.obs@.len() as int,
                            );
                            let k = choose|k: int|
                                0 <= k < self.solver.guesses().len()
                                    && #[trigger] self.solver.guesses()[k] == i;
                            assert(self.solver.obs@[k].idx == i);
                        }
                        (Some(self.vectors.words[i as usize].clone()), Some(f))
                    },
                    None => (None, None),
                };
                WarmthOut { word, fit: Some(w.fit), best, best_fit, locked: false }
            },
            None => WarmthOut { word, fit: None, best: None, best_fit: None, locked: true },
        }
    }

    pub fn ban(&mut self, idx: u32)
        requires
            old(self).wf(),
            idx < old(self).vectors.words@.len(),
        ensures
            final(self).wf(),
            final(self).vectors == old(self).vectors,
            final(self).scoring == old(self).scoring,
            final(self).rank_model == old(self).rank_model,
            final(self).needed == old(self).needed,
            final(self).game == old(self).game,
            banned_one(old(self).solver, final(self).solver, idx),
    {
        self.solver.ban(idx);
    }

    /// The first `k` candidates as a JSON list.
    pub fn top(&self, k: usize) -> (r: String)
        requires
            self.wf(),
        ensures
            r@ == json_list(
                names_of(
                    *self.vectors,
                    first_positions(set_positions(self.solver.alive@), k as nat),
                ),
            ),
    {
        let top = self.solver.top(k);
        proof {
            lemma_set_positions(self.solver.alive@);
        }
        list_to_json(&name_words(self.vectors, &top))
    }
}

/// The scoring of a game that can be played, by its name.
pub open spec fn scoring_named(vectors: Vectors, rank_model: RankModel, name: Seq<char>) -> Option<
    Scoring,
> {
    if name == "cemantix"@ {
        Some(cemantix_scoring())
    } else if name == "quelmot"@ && vectors.ranks is Some {
        Some(Scoring::Rank(rank_model))
    } else {
        None
    }
}

/// The engine plays the game of that name from its start.
pub open spec fn switched(
    vectors: Vectors,
    rank_model: RankModel,
    needed: Double,
    name: Seq<char>,
    e: Engine,
) -> bool {
    &&& scoring_named(vectors, rank_model, name) == Some(e.scoring)
    &&& e.game@ == name
    &&& fresh(e.solver, vectors, e.scoring, needed)
}

/// The game of that name cannot be played, for this reason.
pub open spec fn refused(vectors: Vectors, name: Seq<char>, e: EngineError) -> bool {
    &&& name != "cemantix"@
    &&& match e {
        EngineError::NoRanks => name == "quelmot"@ && vectors.ranks is None,
        EngineError::UnknownGame(g) => name != "quelmot"@ && g@ == name,
        _ => false,
    }
}

/// The best guess is one of the guesses.
proof fn lemma_best_guess_is_a_guess<F: Fn(u32, u32) -> Single>(
    sim: F,
    guesses: Seq<u32>,
    targets: Seq<u32>,
    m: int,
)
    requires
        0 <= m <= guesses.len(),
    ensures
        best_guess(sim, guesses, targets, m) matches Some((i, _)) ==> exists|k: int|
            0 <= k < guesses.len() && #[trigger] guesses[k] == i,
    decreases m,
{
    if m > 0 {
        lemma_best_guess_is_a_guess(sim, guesses, targets, m - 1);
        assert(guesses[m - 1] == guesses[m - 1]);
    }
}

/// A guess is a word of the lexicon.
proof fn lemma_guess_is_a_word<
    S: Fn(u32, u32) -> i32,
    R: Fn(u32, u32) -> Option<RankSlot>,
    H: Fn(&Vec<usize>) -> Entropy,
>(s: Solver, g: Gauge<S, R, H>, c: Choice)
    requires
        s.wf(),
        s.vectors.words@.len() > 0,
        s.max_probes > 0,
        free_turn(s, g, c),
    ensures
        c.idx < s.vectors.words@.len(),
{
    lemma_set_positions(s.alive@);
    lemma_set_positions(s.hubs());
    if s.obvious() is None {
        let weights = choose|weights: Seq<Weight>| #[trigger]
            s.all_weighed(
                g,
                s.probes(),
                crate::stride::sampled(set_positions(s.alive@), s.max_targets as nat),
                weights,
            ) && c == s.picked(s.probes(), weights);
        crate::guess::lemma_pick_is_a_probe(s, weights);
    }
}

/// The level that a model's error calls for: of 1, 2, 5, 10 and 30 rounding steps the first that
/// covers it, or the last. There is one, and a larger error never calls for a smaller level.
pub proof fn lemma_larger_errors_need_wider_levels(x: Double, y: Double, a: int, b: int)
    requires
        x.at_most(y),
        covering_level(x, a),
        covering_level(y, b),
    ensures
        a <= b,
        x == y ==> a == b,
        a == 0 <==> x.at_most(Double { bits: 0x3ff0_0000_0000_0000 }),
        a <= 1 <==> x.at_most(Double { bits: 0x4000_0000_0000_0000 }),
        a <= 2 <==> x.at_most(Double { bits: 0x4014_0000_0000_0000 }),
        a <= 3 <==> x.at_most(Double { bits: 0x4024_0000_0000_0000 }),
        0 <= a <= 4,
{
    assert(TOL_MULT[0] == 0x3ff0_0000_0000_0000 && TOL_MULT[1] == 0x4000_0000_0000_0000
        && TOL_MULT[2] == 0x4014_0000_0000_0000 && TOL_MULT[3] == 0x4024_0000_0000_0000);
    assert(TOL_MULT[4] == 0x403e_0000_0000_0000);
    let covers = |i: int| x.at_most(Double { bits: TOL_MULT[i] });
    if a > 0 {
        assert(!covers(0));
    }
    if a > 1 {
        assert(!covers(1));
    }
    if a > 2 {
        assert(!covers(2));
    }
    if a > 3 {
        assert(!covers(3));
    }
    if b < a {
        assert(!covers(b));
    }
}

/// A game that starts on the page is a new game: every plausible word is possible, nothing is
/// banned and nothing was guessed. Only a compressed model starts with a wider tolerance.
pub proof fn lemma_page_starts_a_new_game(
    s: Solver,
    vectors: Vectors,
    scoring: Scoring,
    needed: Double,
    j: int,
)
    requires
        fresh(s, vectors, scoring, needed),
        0 <= j < vectors.words@.len(),
    ensures
        s.alive@[j] == vectors.plausible@[j],
        !s.banned@[j],
        s.obs@.len() == 0 && s.evidence@.len() == 0,
        scoring is Rank || needed.at_most(Double { bits: 0x3ff0_0000_0000_0000 }) ==> started(
            s,
            vectors,
            scoring,
        ),
{
    assert(TOL_MULT[0] == 0x3ff0_0000_0000_0000);
    if scoring is Cosine && s.tol_level > 0 {
        assert(!needed.at_most(Double { bits: TOL_MULT[0] }));
    }
}

/// A refused rung costs nothing: the rungs that remain are those from it on. A granted one is
/// used up, and what is shown of it are its words.
pub proof fn lemma_refusals_cost_nothing(e: Engine, level: nat, h: Hint, r: HintOut)
    requires
        e.wf(),
        e.shows_hint(level, h, r),
        h matches Hint::Words { words, .. } ==> level < 3 && e.solver.known(words@),
    ensures
        r.granted <==> h is Words,
        r.granted ==> r.remaining + level + 1 == 3,
        !r.granted && level <= 3 ==> r.remaining + level == 3,
        !r.granted && level > 3 ==> r.remaining == 0,
        h matches Hint::Words { words, .. } ==> r.idx@ == words@ && r.words@.len() == words@.len()
            && forall|k: int|
            #![trigger r.words@[k]]
            0 <= k < words@.len() ==> r.words@[k]@ == e.vectors.words@[words@[k] as int]@,
        h is Locked ==> r.idx@.len() == 0 && r.words@.len() == 0,
{
    if let Hint::Words { words, .. } = h {
        assert(texts(r.words@).len() == words@.len());
        assert forall|k: int| #![trigger r.words@[k]] 0 <= k < words@.len() implies r.words@[k]@
            == e.vectors.words@[words@[k] as int]@ by {
            assert(texts(r.words@)[k] == names_of(*e.vectors, words@)[k]);
            assert(words@[k] < e.vectors.words@.len());
        }
    }
}

/// A game is either switched to or refused, never both, and only an unknown name or a missing
/// rank table is refused.
pub proof fn lemma_switching_goes_by_name(v: Vectors, m: RankModel, name: Seq<char>, e: EngineError)
    ensures
        refused(v, name, e) ==> scoring_named(v, m, name) is None,
        scoring_named(v, m, "cemantix"@) == Some(cemantix_scoring()),
        v.ranks is Some ==> scoring_named(v, m, "quelmot"@) == Some(Scoring::Rank(m)),
        v.ranks is None ==> refused(v, "quelmot"@, EngineError::NoRanks),
        (e matches EngineError::UnknownGame(g) && g@ == name) && name != "cemantix"@ && name
            != "quelmot"@ ==> refused(v, name, e),
{
    reveal_strlit("cemantix");
    reveal_strlit("quelmot");
    assert("cemantix"@.len() != "quelmot"@.len());
}

/// What is shown of a long list is its beginning, and a short list is shown whole.
pub proof fn lemma_first_come_first(s: Seq<u32>, k: nat)
    ensures
        first_positions(s, k).is_prefix_of(s),
        s.len() <= k ==> first_positions(s, k) == s,
        s.len() > k ==> first_positions(s, k).len() == k,
{
    assert(s.take(s.len() as int) =~= s);
}

/// What the page shows of a choice is the choice itself. The opener is marked as one, and is
/// weighed like any other word.
pub proof fn lemma_page_shows_the_choice<
    S: Fn(u32, u32) -> i32,
    R: Fn(u32, u32) -> Option<RankSlot>,
    H: Fn(&Vec<usize>) -> Entropy,
>(e: Engine, g: Gauge<S, R, H>, c: Choice, r: GuessOut, i: u32)
    requires
        e.wf(),
        free_turn(e.solver, g, c),
        e.shows(g, c, r),
        c.idx < e.vectors.words@.len(),
    ensures
        r.idx == c.idx,
        r.word@ == e.vectors.words@[c.idx as int]@,
        r.candidates == c.candidates,
        !r.opener ==> r.entropy == c.entropy && r.buckets == c.buckets,
        r.opener ==> exists|w: Weight| #[trigger]
            e.solver.weight_over(g, c.idx, set_positions(e.solver.alive@), w) && r.entropy
                == w.entropy.bits && r.buckets == w.buckets,
        e.solver.obs@.len() > 0 && e.solver.alive_count < 2 ==> !r.opener,
        e.solver.obs@.len() == 0 && i < e.vectors.words@.len() && !e.solver.banned@[i as int] && (
        e.scoring is Cosine ==> e.vectors.opener == Some(i)) && (e.scoring is Rank
            ==> e.vectors.rank_opener == Some(i)) ==> r.opener && r.idx == i,
{
    if e.solver.obs@.len() == 0 && i < e.vectors.words@.len() && !e.solver.banned@[i as int] && (
    e.scoring is Cosine ==> e.vectors.opener == Some(i)) && (e.scoring is Rank
        ==> e.vectors.rank_opener == Some(i)) {
        crate::guess::lemma_first_guess_is_the_opener(e.solver, i);
    }
    lemma_set_positions(e.solver.alive@);
}

/// Switching to a game starts it anew under its name, and the rank game is the one that goes by
/// ranks.
pub proof fn lemma_switching_starts_the_game(
    v: Vectors,
    m: RankModel,
    needed: Double,
    name: Seq<char>,
    e: Engine,
)
    requires
        switched(v, m, needed, name, e),
    ensures
        e.game@ == name,
        name == "cemantix"@ || name == "quelmot"@,
        e.scoring is Rank <==> name == "quelmot"@,
        e.scoring matches Scoring::Rank(r) ==> r == m && v.ranks is Some,
        e.scoring is Cosine ==> e.scoring == cemantix_scoring(),
        e.solver.scoring == e.scoring,
        e.solver.alive@ == v.plausible@,
        e.solver.obs@.len() == 0,
{
    reveal_strlit("cemantix");
    reveal_strlit("quelmot");
    assert("cemantix"@.len() != "quelmot"@.len());
}

} // verus!
