//! An offline oracle that reproduces a server's scoring from the local model.
//!
//! Cémantix is exact: the score is the local cosine. QuelMot is a simulation, since their
//! lexicon is not ours: the local rank of the guess is multiplied by a factor before it is
//! turned into a score, optionally with noise, to model that the two lexicons do not dilate
//! uniformly.

use vstd::prelude::*;

use crate::bench::lemma_factor_undone;
use crate::cosine::{cosine, measures};
use crate::flags::{
    count_set, lemma_clear_one, lemma_set_positions, lemma_subset_count, set_count, set_positions,
};
use crate::ieee::{Double, Single};
use crate::order::{
    lemma_nearest_first, nearer, nearest_first, order_by_similarity, positions,
};
use crate::ranks::ONE_BITS;
use crate::scoring::{one, RankModel, Scoring};
use crate::site::ScoreResp;
use crate::vectors::{exact_rank, lemma_nearer_ranks_first, similarities_to, Vectors};

verus! {

/// How many neighbours the server ranks.
pub const RANKED: usize = 1000;

/// The offline oracle.
pub struct LocalOracle {
    pub secret: u32,
    pub scoring: Scoring,
    /// How similar each word is to the secret.
    pub sims: Vec<Single>,
    /// A word is among the ranked neighbours from this similarity on.
    pub thresh: Single,
    /// Local rank of every word among the secret's neighbours, `u32::MAX` outside the plausible
    /// lexicon. Only built for rank scoring.
    pub rank_of: Vec<u32>,
    /// Size of the simulated lexicon divided by ours.
    pub alpha: Double,
    pub jitter: Double,
    pub seed: u64,
}

/// The similarity of the word that `sims` ranks number 1000, or last if there are fewer.
pub open spec fn threshold(sims: Seq<Single>) -> Single {
    let last = if RANKED < sims.len() {
        RANKED as int
    } else {
        sims.len() - 1
    };
    sims[nearest_first(sims)[last] as int]
}

/// The words other than the secret that are more similar to it than `s`.
pub open spec fn closer_than(sims: Seq<Single>, secret: u32, s: Single) -> Seq<bool> {
    Seq::new(sims.len(), |w: int| w != secret && s.below(sims[w]))
}

/// Mixes a number until every bit of it depends on every other.
pub open spec fn mixed(h: u64) -> u64 {
    let a = h ^ (h >> 33);
    let b = ((a * 0xff51_afd7_ed55_8ccd) % 0x1_0000_0000_0000_0000) as u64;
    b ^ (b >> 33)
}

impl LocalOracle {
    /// The tables cover `n` words.
    pub open spec fn wf(self, n: nat) -> bool {
        &&& self.sims@.len() == n
        &&& self.secret < n
        &&& n <= u32::MAX
    }

    /// Oracle for one secret, without noise.
    pub fn new<F: Fn(u32, u32) -> Single>(model: &Vectors, secret: u32, scoring: Scoring, sim: &F) -> (r:
        Self)
        requires
            model.wf(),
            measures(*sim, model.words@.len()),
            secret < model.words@.len(),
        ensures
            built(r, *model, secret, scoring, *sim),
            r.jitter == (Double { bits: 0 }),
            r.seed == 0,
    {
        Self::with_lexicon(model, secret, scoring, Double { bits: 0 }, 0, sim)
    }

    /// Oracle for one secret. `jitter` is the relative noise added to each simulated rank.
    pub fn with_lexicon<F: Fn(u32, u32) -> Single>(
        model: &Vectors,
        secret: u32,
        scoring: Scoring,
        jitter: Double,
        seed: u64,
        sim: &F,
    ) -> (r: Self)
        requires
            model.wf(),
            measures(*sim, model.words@.len()),
            secret < model.words@.len(),
        ensures
            built(r, *model, secret, scoring, *sim),
            r.jitter == jitter,
            r.seed == seed,
    {
        let n: usize = model.n();
        let sims = model.dots(secret, sim);
        let order = order_by_similarity(&sims);
        proof {
            lemma_nearest_first(sims@);
        }
        let last: usize = if RANKED < n {
            RANKED
        } else {
            n - 1
        };
        let thresh: Single = sims[order[last] as usize];
        let mut rank_of: Vec<u32> = Vec::new();
        if scoring.is_rank() {
            let lex = model.plausible_indices();
            proof {
                lemma_set_positions(model.plausible@);
            }
            let ranks = model.exact_ranks(secret, &lex, sim);
            rank_of = vec![u32::MAX; n];
            for k in 0..lex.len()
                invariant
                    n == model.words@.len(),
                    rank_of@.len() == n,
                    lex@ == set_positions(model.plausible@),
                    ranks@.len() == lex@.len(),
                    forall|i: int| 0 <= i < lex@.len() ==> (#[trigger] lex@[i]) < n,
                    forall|i: int, j: int|
                        0 <= i < j < lex@.len() ==> #[trigger] lex@[i] < #[trigger] lex@[j],
                    forall|i: int| 0 <= i < k ==> rank_of@[#[trigger] lex@[i] as int] == ranks@[i],
                    forall|w: int|
                        0 <= w < n && !lex@.take(k as int).contains(w as u32)
                            ==> #[trigger] rank_of@[w] == u32::MAX,
            {
                let ghost was = rank_of@;
                let w: u32 = lex[k];
                rank_of.set(w as usize, ranks[k]);
                proof {
                    let (a, b) = (lex@.take(k as int), lex@.take(k + 1));
                    assert(b =~= a.push(w));
                    assert forall|i: int| 0 <= i < k + 1 implies rank_of@[#[trigger] lex@[i] as int]
                        == ranks@[i] by {
                        if i < k {
                            assert(lex@[i] < lex@[k as int]);
                        }
                    }
                    assert forall|v: int| 0 <= v < n && !b.contains(v as u32) implies #[trigger]
                        rank_of@[v] == u32::MAX by {
                        assert(b[k as int] == w);
                        if a.contains(v as u32) {
                            let i = choose|i: int| 0 <= i < a.len() && a[i] == v as u32;
                            assert(b[i] == v as u32);
                        }
                        assert(was[v] == u32::MAX);
                    }
                }
            }
            proof {
                assert(lex@.take(lex@.len() as int) =~= lex@);
                assert forall|w: u32| w < n implies #[trigger] ranks_of(
                    *model,
                    secret,
                    *sim,
                    w,
                    rank_of@[w as int],
                ) by {
                    if model.plausible@[w as int] {
                        assert(lex@.contains(w));
                        let k = choose|k: int| 0 <= k < lex@.len() && lex@[k] == w;
                        assert(lex@[k] == w);
                        assert(rank_of@[lex@[k] as int] == ranks@[k]);
                        assert(ranks@[(k as u32) as int] == exact_rank(
                            secret,
                            lex@,
                            similarities_to(*sim, secret, lex@),
                            k as u32,
                        ));
                    } else {
                        assert(!lex@.contains(w));
                    }
                }
            }
        }
        let alpha: Double = match scoring {
            Scoring::Rank(m) => m.alpha,
            Scoring::Cosine { .. } => Double { bits: ONE_BITS },
        };
        LocalOracle { secret, scoring, sims, thresh, rank_of, alpha, jitter, seed }
    }

    /// Simulates a lexicon of another size.
    pub fn set_alpha(&mut self, alpha: Double)
        ensures
            *final(self) == (LocalOracle { alpha, ..*old(self) }),
    {
        self.alpha = alpha;
    }

    /// The noise of one (secret, guess) pair: 53 well-mixed bits, the same each time; `None`
    /// without jitter.
    pub open spec fn noise_bits(self, idx: u32) -> Option<u64> {
        if self.jitter.at_most(Double { bits: 0 }) {
            None
        } else {
            Some(mixed(self.seed ^ ((self.secret as u64) << 32) ^ (idx as u64)) >> 11)
        }
    }

    /// The noise of one (secret, guess) pair.
    pub fn noise(&self, idx: u32) -> (r: Option<u64>)
        ensures
            r == self.noise_bits(idx),
            r matches Some(u) ==> u < 0x20_0000_0000_0000,
    {
        if self.jitter.le(Double { bits: 0 }) {
            return None;
        }
        let mut h: u64 = self.seed ^ ((self.secret as u64) << 32) ^ (idx as u64);
        h = h ^ (h >> 33);
        h = h.wrapping_mul(0xff51_afd7_ed55_8ccd);
        h = h ^ (h >> 33);
        assert(h >> 11 < 0x20_0000_0000_0000) by (bit_vector);
        Some(h >> 11)
    }

    /// The ‰ rank that the server would give a guess.
    pub open spec fn percentile_spec(self, idx: u32) -> Option<u32> {
        let s = self.sims@[idx as int];
        let closer = set_count(closer_than(self.sims@, self.secret, s));
        if idx == self.secret {
            Some(1000)
        } else if self.thresh.at_most(s) && closer <= 998 {
            Some((999 - closer) as u32)
        } else {
            None
        }
    }

    /// The ‰ rank that the server would give a guess: 1000 for the secret, 999 for its nearest
    /// neighbour, and none past the ranked neighbours.
    pub fn percentile(&self, idx: u32) -> (r: Option<u32>)
        requires
            idx < self.sims@.len(),
        ensures
            r == self.percentile_spec(idx),
    {
        let s: Single = self.sims[idx as usize];
        if idx == self.secret {
            return Some(1000);
        }
        if !self.thresh.le(s) {
            return None;
        }
        let mut closer: Vec<bool> = Vec::new();
        let n: usize = self.sims.len();
        for w in 0..n
            invariant
                n == self.sims@.len(),
                closer@ == closer_than(self.sims@, self.secret, s).take(w as int),
        {
            closer.push(w as u64 != self.secret as u64 && s.lt(self.sims[w]));
            assert(closer@ =~= closer_than(self.sims@, self.secret, s).take(w + 1));
        }
        assert(closer@ =~= closer_than(self.sims@, self.secret, s));
        let count: usize = count_set(&closer);
        if count <= 998 {
            Some((999 - count) as u32)
        } else {
            None
        }
    }

    /// The score of a guess in a rank game. `site` turns the size of the simulated lexicon, a
    /// local rank and its noise into `top − rank on the site`. Outside the plausible lexicon a
    /// word is far enough that the score is floored.
    pub fn rank_score<K: Fn(Double, u32, Option<u64>) -> Double>(
        &self,
        m: &RankModel,
        idx: u32,
        site: &K,
    ) -> (r: Double)
        requires
            forall|alpha: Double, rank: u32, noise: Option<u64>| #[trigger]
                call_requires(*site, (alpha, rank, noise)),
        ensures
            self.rank_scored(*m, idx, *site, r),
    {
        if idx == self.secret {
            return m.top;
        }
        if (idx as usize) < self.rank_of.len() {
            let rank: u32 = self.rank_of[idx as usize];
            if rank != u32::MAX && rank > 0 {
                return m.score_at(site(self.alpha, rank, self.noise(idx)));
            }
        }
        m.floor
    }

    /// `r` is the score of a guess in a rank game.
    pub open spec fn rank_scored<K: Fn(Double, u32, Option<u64>) -> Double>(
        self,
        m: RankModel,
        idx: u32,
        site: K,
        r: Double,
    ) -> bool {
        if idx == self.secret {
            r == m.top
        } else if idx < self.rank_of@.len() && 0 < self.rank_of@[idx as int] < u32::MAX {
            exists|raw: Double| #[trigger]
                call_ensures(
                    site,
                    (self.alpha, self.rank_of@[idx as int], self.noise_bits(idx)),
                    raw,
                ) && r
                    == raw.upper(m.floor)
        } else {
            r == m.floor
        }
    }

    /// The answer to a guess. `round` rounds a cosine the way the game does.
    pub fn score<C: Fn(Single) -> Double, K: Fn(Double, u32, Option<u64>) -> Double>(
        &self,
        idx: u32,
        round: &C,
        site: &K,
    ) -> (r: ScoreResp)
        requires
            idx < self.sims@.len(),
            forall|s: Single| #[trigger] call_requires(*round, (s,)),
            forall|alpha: Double, rank: u32, noise: Option<u64>| #[trigger]
                call_requires(*site, (alpha, rank, noise)),
        ensures
            r matches ScoreResp::Score { s, p, solvers } && solvers is None && match self.scoring {
                Scoring::Rank(m) => p is None && self.rank_scored(m, idx, *site, s),
                Scoring::Cosine { .. } => p == self.percentile_spec(idx) && call_ensures(
                    *round,
                    (self.sims@[idx as int],),
                    s,
                ),
            },
    {
        match self.scoring {
            Scoring::Rank(m) => ScoreResp::Score {
                s: self.rank_score(&m, idx, site),
                p: None,
                solvers: None,
            },
            Scoring::Cosine { .. } => ScoreResp::Score {
                s: round(self.sims[idx as usize]),
                p: self.percentile(idx),
                solvers: None,
            },
        }
    }
}

/// `r` is the local rank of word `w` among the secret's neighbours in the plausible lexicon.
pub open spec fn ranks_of<F: Fn(u32, u32) -> Single>(
    model: Vectors,
    secret: u32,
    sim: F,
    w: u32,
    r: u32,
) -> bool {
    let lexicon = set_positions(model.plausible@);
    if model.plausible@[w as int] {
        exists|k: u32|
            k < lexicon.len() && #[trigger] lexicon[k as int] == w && r == exact_rank(
                secret,
                lexicon,
                similarities_to(sim, secret, lexicon),
                k,
            )
    } else {
        r == u32::MAX
    }
}

/// The oracle of a secret.
pub open spec fn built<F: Fn(u32, u32) -> Single>(
    o: LocalOracle,
    model: Vectors,
    secret: u32,
    scoring: Scoring,
    sim: F,
) -> bool {
    let n = model.words@.len();
    &&& o.wf(n)
    &&& o.secret == secret
    &&& o.scoring == scoring
    &&& o.sims@ == similarities_to(sim, secret, positions(n))
    &&& o.thresh == threshold(o.sims@)
    &&& o.alpha == match scoring {
        Scoring::Rank(m) => m.alpha,
        Scoring::Cosine { .. } => one(),
    }
    &&& if scoring is Rank {
        o.rank_of@.len() == n && forall|w: u32|
            w < n ==> #[trigger] ranks_of(model, secret, sim, w, o.rank_of@[w as int])
    } else {
        o.rank_of@.len() == 0
    }
}

/// The ‰ ranks follow the similarities: of two guesses, one of them ranked and the other more
/// similar to the secret, the other is ranked too, and higher.
pub proof fn lemma_percentiles_follow_similarity(o: LocalOracle, a: u32, b: u32)
    requires
        a < o.sims@.len(),
        b < o.sims@.len(),
        b != o.secret,
        o.sims@[b as int].below(o.sims@[a as int]),
        o.percentile_spec(b) is Some,
    ensures
        o.percentile_spec(a) is Some,
        o.percentile_spec(b)->0 < o.percentile_spec(a)->0,
{
    if a != o.secret {
        let near = closer_than(o.sims@, o.secret, o.sims@[a as int]);
        let far = closer_than(o.sims@, o.secret, o.sims@[b as int]);
        assert(far[a as int]);
        lemma_clear_one(far, a as int);
        lemma_subset_count(near, far.update(a as int, false));
    }
}

/// A ‰ rank lies between 1 and 1000, and only the secret has 1000.
pub proof fn lemma_percentile_range(o: LocalOracle, idx: u32)
    requires
        o.percentile_spec(idx) is Some,
    ensures
        1 <= o.percentile_spec(idx)->0 <= 1000,
        o.percentile_spec(idx)->0 == 1000 <==> idx == o.secret,
{
}

/// Guessing the secret ends the game: the oracle's answer to it says that it is found, in a
/// cosine game whatever the rounding, and in a rank game whose best score counts as found.
pub proof fn lemma_secret_is_found<K: Fn(Double, u32, Option<u64>) -> Double>(
    o: LocalOracle,
    site: K,
    s: Double,
)
    requires
        match o.scoring {
            Scoring::Rank(m) => m.found.at_most(m.top) && o.rank_scored(m, o.secret, site, s),
            Scoring::Cosine { .. } => true,
        },
    ensures
        match o.scoring {
            Scoring::Rank(_) => o.scoring.finds(s, None),
            Scoring::Cosine { .. } => o.scoring.finds(s, o.percentile_spec(o.secret)),
        },
{
}

/// The ‰ ranks are those of the nearest words: a guess other than the secret is ranked exactly
/// when fewer than 999 other words are more similar to the secret, and its rank is 999 less the
/// number of those.
pub proof fn lemma_nearest_words_are_ranked<F: Fn(u32, u32) -> Single>(
    o: LocalOracle,
    model: Vectors,
    secret: u32,
    scoring: Scoring,
    sim: F,
    idx: u32,
)
    requires
        model.wf(),
        built(o, model, secret, scoring, sim),
        forall|k: int| 0 <= k < o.sims@.len() ==> !(#[trigger] o.sims@[k]).nan(),
        idx < o.sims@.len(),
    ensures
        idx == secret ==> o.percentile_spec(idx) == Some(1000u32),
        idx != secret ==> ({
            let closer = set_count(
                Seq::new(
                    o.sims@.len(),
                    |w: int| w != secret && o.sims@[idx as int].below(o.sims@[w]),
                ),
            );
            o.percentile_spec(idx) == if closer < 999 {
                Some((999 - closer) as u32)
            } else {
                None
            }
        }),
{
    let sims = o.sims@;
    let n = sims.len();
    let s = sims[idx as int];
    let closer = Seq::new(n, |w: int| w != secret && s.below(sims[w]));
    assert(closer =~= closer_than(sims, o.secret, s));
    if idx != secret && !o.thresh.at_most(s) {
        let order = nearest_first(sims);
        lemma_nearest_first(sims);
        let last = if RANKED < n {
            RANKED as int
        } else {
            n - 1
        };
        assert(s.below(o.thresh));
        assert forall|k: int| 0 <= k <= last implies s.below(sims[#[trigger] order[k] as int]) by {
            if k < last {
                assert(nearer(sims)(order[k], order[last]));
            }
        }
        if n <= RANKED {
            // the guess itself stands somewhere in the order
            assert(order.contains(idx));
            let k = choose|k: int| 0 <= k < order.len() && order[k] == idx;
            assert(s.below(sims[order[k] as int]));
        } else {
            lemma_many_are_set(closer, order.take(RANKED + 1), secret);
        }
    }
}

/// A list of different positions whose flags are set, one of them perhaps not, is no longer than
/// their count and one.
proof fn lemma_many_are_set(flags: Seq<bool>, list: Seq<u32>, but: u32)
    requires
        flags.len() <= u32::MAX,
        list.no_duplicates(),
        forall|k: int|
            0 <= k < list.len() ==> (#[trigger] list[k]) < flags.len() && (list[k] == but
                || flags[list[k] as int]),
    ensures
        list.len() <= set_count(flags) + 1,
{
    lemma_set_positions(flags);
    let p = set_positions(flags);
    assert(p.no_duplicates());
    p.unique_seq_to_set();
    list.unique_seq_to_set();
    assert(list.to_set().subset_of(p.to_set().insert(but))) by {
        assert forall|x: u32| list.to_set().contains(x) implies p.to_set().insert(but).contains(
            x,
        ) by {
            let k = choose|k: int| 0 <= k < list.len() && list[k] == x;
            assert(list[k] == x);
            if x != but {
                assert(flags[x as int]);
                assert(p.contains(x));
            }
        }
    }
    vstd::seq_lib::seq_to_set_is_finite(p);
    vstd::set_lib::lemma_len_subset(list.to_set(), p.to_set().insert(but));
}

/// The scores of a rank game: the secret gets the top, a word without a local rank the floor, and
/// no word less. Where the site's scale falls as ranks grow, a word nearer to the secret scores no
/// less.
pub proof fn lemma_rank_scores_follow_the_ranks<K: Fn(Double, u32, Option<u64>) -> Double>(
    o: LocalOracle,
    m: RankModel,
    site: K,
    a: u32,
    b: u32,
    x: Double,
    y: Double,
)
    requires
        !m.floor.nan(),
        m.floor.at_most(m.top),
        o.rank_scored(m, a, site, x),
        o.rank_scored(m, b, site, y),
        forall|r: u32, n: Option<u64>, v: Double| #[trigger]
            call_ensures(site, (o.alpha, r, n), v) ==> v.at_most(m.top),
        forall|r: u32, q: u32, n: Option<u64>, k: Option<u64>, v: Double, w: Double|
            r <= q && #[trigger] call_ensures(site, (o.alpha, r, n), v) && #[trigger] call_ensures(
                site,
                (o.alpha, q, k),
                w,
            ) ==> w.at_most(v),
        a != o.secret ==> a < o.rank_of@.len() && 0 < o.rank_of@[a as int],
        b != o.secret ==> b < o.rank_of@.len() && 0 < o.rank_of@[b as int],
    ensures
        a == o.secret ==> x == m.top && y.at_most(x),
        a != o.secret && o.rank_of@[a as int] == u32::MAX ==> x == m.floor,
        m.floor.at_most(x) && x.at_most(m.top),
        a != o.secret && b != o.secret && o.rank_of@[a as int] <= o.rank_of@[b as int]
            ==> y.at_most(x),
{
}

/// The same guess always gets the same noise, and different seeds, secrets or guesses start it
/// from different numbers.
pub proof fn lemma_noise_is_repeatable(o: LocalOracle, p: LocalOracle, idx: u32)
    ensures
        o.jitter == (Double { bits: 0 }) ==> o.noise_bits(idx) is None,
        o.secret == p.secret && o.seed == p.seed && o.jitter == p.jitter ==> o.noise_bits(idx)
            == p.noise_bits(idx),
        (Double { bits: 0 }).below(o.jitter) ==> o.noise_bits(idx) is Some,
{
}

/// The local ranks of a rank game: a word outside the plausible lexicon has none, the others have
/// one from 1 on, and the more similar of two has the smaller.
pub proof fn lemma_oracle_ranks_by_similarity<F: Fn(u32, u32) -> Single>(
    o: LocalOracle,
    model: Vectors,
    secret: u32,
    scoring: Scoring,
    sim: F,
    a: u32,
    b: u32,
)
    requires
        model.wf(),
        built(o, model, secret, scoring, sim),
        scoring is Rank,
        a < model.words@.len(),
        b < model.words@.len(),
        a != secret,
        b != secret,
    ensures
        scoring matches Scoring::Rank(m) ==> o.alpha == m.alpha,
        !model.plausible@[a as int] ==> o.rank_of@[a as int] == u32::MAX,
        model.plausible@[a as int] ==> o.rank_of@[a as int] >= 1,
        model.plausible@[a as int] && model.plausible@[b as int] && cosine(sim, a, secret).total()
            > cosine(sim, b, secret).total() ==> o.rank_of@[a as int] < o.rank_of@[b as int],
{
    let lexicon = set_positions(model.plausible@);
    let sims = similarities_to(sim, secret, lexicon);
    lemma_set_positions(model.plausible@);
    assert(ranks_of(model, secret, sim, a, o.rank_of@[a as int]));
    assert(ranks_of(model, secret, sim, b, o.rank_of@[b as int]));
    if model.plausible@[a as int] && model.plausible@[b as int] && cosine(sim, a, secret).total()
        > cosine(sim, b, secret).total() {
        let j = choose|k: u32|
            k < lexicon.len() && #[trigger] lexicon[k as int] == a && o.rank_of@[a as int]
                == exact_rank(secret, lexicon, sims, k);
        let k = choose|k: u32|
            k < lexicon.len() && #[trigger] lexicon[k as int] == b && o.rank_of@[b as int]
                == exact_rank(secret, lexicon, sims, k);
        lemma_nearer_ranks_first(secret, lexicon, sims, j, k);
    }
}

/// The noise of a guess comes from seed, secret and guess together: what one of them gains and
/// another loses leaves it as it was, and it always fits in 53 bits.
pub proof fn lemma_noise_mixes_seed_secret_and_guess(o: LocalOracle, p: LocalOracle, a: u32, b: u32)
    requires
        o.jitter == p.jitter,
        o.seed ^ p.seed == ((o.secret as u64) << 32) ^ ((p.secret as u64) << 32) ^ (a as u64) ^ (
        b as u64),
    ensures
        o.noise_bits(a) == p.noise_bits(b),
        o.noise_bits(a) matches Some(n) ==> n < 0x20_0000_0000_0000,
{
    let (s, t, u, v) = (o.seed, p.seed, (o.secret as u64) << 32, (p.secret as u64) << 32);
    let (x, y) = (a as u64, b as u64);
    assert(s ^ u ^ x == t ^ v ^ y) by (bit_vector)
        requires
            s ^ t == u ^ v ^ x ^ y,
    ;
    let h = mixed(s ^ u ^ x);
    assert(h >> 11 < 0x20_0000_0000_0000) by (bit_vector);
}

/// Nothing is lost in the mixing: two different inputs are mixed into different numbers. Undoing
/// the last step leaves the product.
pub proof fn lemma_mixing_is_one_to_one(g: u64, h: u64)
    ensures
        mixed(g) == mixed(h) ==> g == h,
        mixed(h) ^ (mixed(h) >> 33) == ((h ^ (h >> 33)) * 0xff51_afd7_ed55_8ccd)
            % 0x1_0000_0000_0000_0000,
{
    let (a, b) = (g ^ (g >> 33), h ^ (h >> 33));
    let m = 0x1_0000_0000_0000_0000int;
    let c = 0xff51_afd7_ed55_8ccdint;
    let (x, y) = (((a * c) % m) as u64, ((b * c) % m) as u64);
    assert((y ^ (y >> 33)) ^ ((y ^ (y >> 33)) >> 33) == y) by (bit_vector);
    if mixed(g) == mixed(h) {
        assert(x == y) by (bit_vector)
            requires
                x ^ (x >> 33) == y ^ (y >> 33),
        ;
        assert((c * 0x4f74_430c_22a5_4005) % m == 1);
        lemma_factor_undone(a as int, c, 0x4f74_430c_22a5_4005, m);
        lemma_factor_undone(b as int, c, 0x4f74_430c_22a5_4005, m);
        assert(a == b);
        assert(g == h) by (bit_vector)
            requires
                g ^ (g >> 33) == h ^ (h >> 33),
        ;
    }
}

} // verus!
