//! What a score means, and therefore what constraint it puts on the secret.
//!
//! Two games, two kinds of constraint. A cosine game returns the cosine between the guess and
//! the secret, rounded: each answer is an equation. A rank game returns the rank of the guess
//! among the secret's neighbours in disguise, floored: each answer is a band of ranks.

use vstd::prelude::*;

use crate::ieee::{lemma_double_order_is_numeric, Double};
use crate::ranks::ONE_BITS;

verus! {

/// Number of tolerance levels of either game.
pub const TOL_LEVELS: usize = 5;

/// Tolerance ladder on the gap between cosine and score, in units of the game's rounding
/// step: 1, 2, 5, 10 and 30, as bit patterns.
pub const TOL_MULT: [u64; 5] = [
    0x3ff0_0000_0000_0000,
    0x4000_0000_0000_0000,
    0x4014_0000_0000_0000,
    0x4024_0000_0000_0000,
    0x403e_0000_0000_0000,
];

/// Ten thousand, the rounding scale of Cémantix, as a bit pattern.
pub const SCALE_CEMANTIX: u64 = 0x40c3_8800_0000_0000;

/// The tolerance ladder divided by ten thousand, as bit patterns.
pub const TOLS_CEMANTIX: [u64; 5] = [
    0x3f1a_36e2_eb1c_432d,
    0x3f2a_36e2_eb1c_432d,
    0x3f40_624d_d2f1_a9fc,
    0x3f50_624d_d2f1_a9fc,
    0x3f68_9374_bc6a_7efa,
];

/// A cosine from which the guess is the secret, 0.99995, as a bit pattern.
pub const FOUND_COSINE: u64 = 0x3fef_ff97_2474_538f;

/// The ‰ rank that the server gives to the secret itself.
pub const FOUND_PERCENTILE: u32 = 1000;

/// The number one.
pub open spec fn one() -> Double {
    Double { bits: ONE_BITS }
}

/// Smallest tolerance level that covers `needed` rounding steps, the last one if none does.
/// The caller adds up what is needed: half a rounding step plus the model's own score error.
pub fn tol_level_for(needed: Double) -> (r: usize)
    ensures
        r < TOL_LEVELS,
        forall|i: int| 0 <= i < r ==> !needed.at_most(Double { bits: #[trigger] TOL_MULT[i] }),
        needed.at_most(Double { bits: TOL_MULT[r as int] }) || r == TOL_LEVELS - 1,
{
    let mut i: usize = 0;
    while i + 1 < TOL_LEVELS
        invariant
            i < TOL_LEVELS,
            forall|k: int| 0 <= k < i ==> !needed.at_most(Double { bits: #[trigger] TOL_MULT[k] }),
        decreases TOL_LEVELS - i,
    {
        if needed.le(Double { bits: TOL_MULT[i] }) {
            return i;
        }
        i = i + 1;
    }
    i
}

/// The scoring of a rank game: `score = top − rank of the guess among the secret's
/// neighbours`, floored at `floor`. The site's lexicon is larger than ours, so a site rank is
/// about `alpha` times the rank we measure locally.
#[derive(Clone, Copy, Debug)]
pub struct RankModel {
    /// Site lexicon size divided by ours: site_rank ≈ alpha × local_rank.
    pub alpha: Double,
    /// Multiplicative half-width of the accepted rank window.
    pub window: Double,
    /// Additive slack, so the window still breathes at rank 1 or 2.
    pub slack: Double,
    pub top: Double,
    pub floor: Double,
    /// Score from which the secret is found: half a point under `top`.
    pub found: Double,
}

/// What one rank score says at one tolerance level, worked out by the caller: with `t` the
/// local rank the score implies and `w` the widened window, the ends of the accepted bands.
#[derive(Clone, Copy, Debug)]
pub struct RankEdges {
    /// `t`.
    pub implied: Double,
    /// Last rank that the table resolves.
    pub reach: Double,
    /// `t / w − slack`.
    pub low: Double,
    /// `t × w + slack`.
    pub high: Double,
    /// `floor rank / w − slack`.
    pub floor_low: Double,
    /// `reach − slack`.
    pub reach_low: Double,
}

impl RankEdges {
    /// The bands of `wider` hold these bands, for the same score and table.
    pub open spec fn within(self, wider: RankEdges) -> bool {
        &&& wider.implied == self.implied
        &&& wider.reach == self.reach
        &&& wider.reach_low == self.reach_low
        &&& wider.low.at_most(self.low)
        &&& self.high.at_most(wider.high)
        &&& wider.floor_low.at_most(self.floor_low)
    }
}

impl RankModel {
    /// Measured on quelmot.fr: their lexicon is about one and a half times ours. Ranks are
    /// taken off 1000 and floored at −999, with a window of 1.3 and a slack of one half.
    pub fn quelmot() -> (m: RankModel)
        ensures
            m == quelmot_model(),
    {
        RankModel {
            alpha: Double { bits: 0x3ff8_0000_0000_0000 },
            window: Double { bits: 0x3ff4_cccc_cccc_cccd },
            slack: Double { bits: 0x3fe0_0000_0000_0000 },
            top: Double { bits: 0x408f_4000_0000_0000 },
            floor: Double { bits: 0xc08f_3800_0000_0000 },
            found: Double { bits: 0x408f_3c00_0000_0000 },
        }
    }

    /// A score that sits on the floor, and so says nothing beyond "far away".
    pub open spec fn floored(self, score: Double) -> bool {
        !self.floor.below(score)
    }

    /// Local rank implied by a score, `None` when the score sits on the floor. `quotient` is
    /// `(top − score) / alpha`.
    pub fn local_rank(&self, score: Double, quotient: Double) -> (r: Option<Double>)
        ensures
            r == if self.floored(score) {
                None
            } else {
                Some(quotient.upper(one()))
            },
    {
        if self.floor.lt(score) {
            Some(quotient.max(Double { bits: ONE_BITS }))
        } else {
            None
        }
    }

    /// Smallest local rank whose score is floored: below it, an answer says nothing beyond
    /// "far away". `quotient` is `(top − floor) / alpha`.
    pub fn floor_rank(&self, quotient: Double) -> (r: Double)
        ensures
            r == quotient.upper(one()),
    {
        quotient.max(Double { bits: ONE_BITS })
    }

    /// Score the site would return for a guess whose site rank takes `raw = top − rank`.
    pub fn score_at(&self, raw: Double) -> (r: Double)
        ensures
            r == raw.upper(self.floor),
    {
        raw.max(self.floor)
    }

    /// Local rank `r` is compatible with `score`. A floored score, or one pointing past the
    /// table, gives a lower bound only.
    pub open spec fn compatible(self, score: Double, r: Double, e: RankEdges) -> bool {
        if self.floored(score) {
            e.floor_low.lower(e.reach_low).at_most(r)
        } else if e.reach.at_most(e.implied) {
            e.low.lower(e.reach_low).at_most(r)
        } else {
            e.low.at_most(r) && r.at_most(e.high)
        }
    }

    /// Is local rank `r` compatible with `score`?
    pub fn accepts(&self, score: Double, r: Double, e: &RankEdges) -> (ok: bool)
        ensures
            ok == self.compatible(score, r, *e),
    {
        if !self.floor.lt(score) {
            e.floor_low.min(e.reach_low).le(r)
        } else if e.reach.le(e.implied) {
            e.low.min(e.reach_low).le(r)
        } else {
            e.low.le(r) && r.le(e.high)
        }
    }
}

/// The rank model of quelmot.fr.
pub open spec fn quelmot_model() -> RankModel {
    RankModel {
        alpha: Double { bits: 0x3ff8_0000_0000_0000 },
        window: Double { bits: 0x3ff4_cccc_cccc_cccd },
        slack: Double { bits: 0x3fe0_0000_0000_0000 },
        top: Double { bits: 0x408f_4000_0000_0000 },
        floor: Double { bits: 0xc08f_3800_0000_0000 },
        found: Double { bits: 0x408f_3c00_0000_0000 },
    }
}

impl Default for RankModel {
    fn default() -> (m: RankModel)
        ensures
            m == quelmot_model(),
    {
        RankModel::quelmot()
    }
}

/// How a game scores a guess.
#[derive(Clone, Copy, Debug)]
pub enum Scoring {
    /// The score is the cosine, rounded to 1/`scale`. `tols` is the tolerance ladder divided
    /// by the scale.
    Cosine { scale: Double, tols: [Double; 5] },
    /// The score is a rank in disguise.
    Rank(RankModel),
}

/// The scoring of Cémantix: four decimals.
pub open spec fn cemantix_scoring() -> Scoring {
    Scoring::Cosine {
        scale: Double { bits: SCALE_CEMANTIX },
        tols: [
            Double { bits: TOLS_CEMANTIX[0] },
            Double { bits: TOLS_CEMANTIX[1] },
            Double { bits: TOLS_CEMANTIX[2] },
            Double { bits: TOLS_CEMANTIX[3] },
            Double { bits: TOLS_CEMANTIX[4] },
        ],
    }
}

impl Scoring {
    /// The scoring of Cémantix.
    pub fn cemantix() -> (s: Scoring)
        ensures
            s == cemantix_scoring(),
    {
        Scoring::Cosine {
            scale: Double { bits: SCALE_CEMANTIX },
            tols: [
                Double { bits: TOLS_CEMANTIX[0] },
                Double { bits: TOLS_CEMANTIX[1] },
                Double { bits: TOLS_CEMANTIX[2] },
                Double { bits: TOLS_CEMANTIX[3] },
                Double { bits: TOLS_CEMANTIX[4] },
            ],
        }
    }

    /// The scoring of QuelMot.
    pub fn quelmot() -> (s: Scoring)
        ensures
            s == Scoring::Rank(quelmot_model()),
    {
        Scoring::Rank(RankModel::quelmot())
    }

    pub fn is_rank(&self) -> (r: bool)
        ensures
            r == (self is Rank),
    {
        match self {
            Scoring::Cosine { .. } => false,
            Scoring::Rank(_) => true,
        }
    }

    /// The score says that the guess is the secret.
    pub open spec fn finds(self, score: Double, percentile: Option<u32>) -> bool {
        match self {
            Scoring::Cosine { .. } => percentile == Some(FOUND_PERCENTILE) || (Double {
                bits: FOUND_COSINE,
            }).at_most(score),
            Scoring::Rank(m) => m.found.at_most(score),
        }
    }

    /// Has the secret just been found?
    pub fn solved(&self, score: Double, percentile: Option<u32>) -> (r: bool)
        ensures
            r == self.finds(score, percentile),
    {
        match self {
            Scoring::Cosine { .. } => {
                let by_rank: bool = match percentile {
                    Some(p) => p == FOUND_PERCENTILE,
                    None => false,
                };
                by_rank || (Double { bits: FOUND_COSINE }).le(score)
            },
            Scoring::Rank(m) => m.found.le(score),
        }
    }
}

impl Default for Scoring {
    fn default() -> (s: Scoring)
        ensures
            s == cemantix_scoring(),
    {
        Scoring::cemantix()
    }
}

/// How every word compares with one score, as the caller measured it.
pub enum Evidence {
    /// For each word, the distance between its cosine with the guess and the score.
    Gaps(Vec<Double>),
    /// For each word, the rank of the guess among its neighbours, if the word has a row in the
    /// table; and what the score says at each tolerance level.
    Ranks(Vec<Option<Double>>, Vec<RankEdges>),
}

impl Evidence {
    /// The evidence is of the game's kind and covers `n` words.
    pub open spec fn fits(self, scoring: Scoring, n: nat) -> bool {
        match (scoring, self) {
            (Scoring::Cosine { .. }, Evidence::Gaps(gaps)) => gaps@.len() == n,
            (Scoring::Rank(_), Evidence::Ranks(ranks, edges)) => ranks@.len() == n && edges@.len()
                == TOL_LEVELS,
            _ => false,
        }
    }

    /// Word `j` is compatible with the score at tolerance level `level`.
    pub open spec fn admits(self, scoring: Scoring, score: Double, level: int, j: int) -> bool {
        match (scoring, self) {
            (Scoring::Cosine { tols, .. }, Evidence::Gaps(gaps)) => gaps@[j].at_most(tols[level]),
            (Scoring::Rank(m), Evidence::Ranks(ranks, edges)) => ranks@[j] matches Some(r)
                && m.compatible(score, r, edges@[level]),
            _ => false,
        }
    }

    /// Is word `j` compatible with the score at this tolerance level?
    pub fn accepts(&self, scoring: &Scoring, score: Double, level: usize, j: usize, n: usize) -> (r:
        bool)
        requires
            self.fits(*scoring, n as nat),
            level < TOL_LEVELS,
            j < n,
        ensures
            r == self.admits(*scoring, score, level as int, j as int),
    {
        match (scoring, self) {
            (Scoring::Cosine { tols, .. }, Evidence::Gaps(gaps)) => gaps[j].le(tols[level]),
            (Scoring::Rank(m), Evidence::Ranks(ranks, edges)) => match ranks[j] {
                Some(r) => m.accepts(score, r, &edges[level]),
                None => false,
            },
            _ => false,
        }
    }
}

/// A higher tolerance level of a cosine game accepts every word that a lower one accepts, when
/// the tolerances grow.
pub proof fn lemma_wider_admits_more(
    e: Evidence,
    scoring: Scoring,
    score: Double,
    low: int,
    high: int,
    j: int,
)
    requires
        scoring matches Scoring::Cosine { tols, .. } && tols[low].at_most(tols[high]),
        e.admits(scoring, score, low, j),
    ensures
        e.admits(scoring, score, high, j),
{
}

/// A rank that a score accepts is accepted when the bands are widened.
pub proof fn lemma_wider_window_accepts_more(
    m: RankModel,
    score: Double,
    r: Double,
    e: RankEdges,
    wider: RankEdges,
)
    requires
        e.within(wider),
        m.compatible(score, r, e),
    ensures
        m.compatible(score, r, wider),
{
}

/// How a caller calculates: each operation rounds in its own way.
pub struct Arithmetic {
    pub quotient: spec_fn(Double, Double) -> Double,
    pub product: spec_fn(Double, Double) -> Double,
    pub difference: spec_fn(Double, Double) -> Double,
    pub sum: spec_fn(Double, Double) -> Double,
}

impl Arithmetic {
    /// Rounding keeps the order, as it does in IEEE 754: a larger divisor gives no larger
    /// quotient of a number from one on, a larger factor no smaller product, and so on; and a
    /// divisor or a factor from one on makes such a number no larger, or no smaller.
    pub open spec fn orderly(self) -> bool {
        &&& forall|t: Double, v: Double, w: Double|
            from_one(t) && from_one(v) && from_one(w) && v.at_most(w) ==> (#[trigger] (self.quotient)(
                t,
                w,
            )).at_most(#[trigger] (self.quotient)(t, v))
        &&& forall|t: Double, v: Double, w: Double|
            from_one(t) && from_one(v) && from_one(w) && v.at_most(w) ==> (#[trigger] (self.product)(
                t,
                v,
            )).at_most(#[trigger] (self.product)(t, w))
        &&& forall|t: Double, w: Double|
            from_one(t) && from_one(w) ==> (#[trigger] (self.quotient)(t, w)).at_most(t)
        &&& forall|t: Double, w: Double|
            from_one(t) && from_one(w) ==> t.at_most(#[trigger] (self.product)(t, w))
        &&& forall|a: Double, b: Double, c: Double|
            a.at_most(b) && c.below(infinity()) && !c.negative() ==> (#[trigger] (self.difference)(
                a,
                c,
            )).at_most(#[trigger] (self.difference)(b, c))
        &&& forall|a: Double, b: Double, c: Double|
            a.at_most(b) && c.below(infinity()) && !c.negative() ==> (#[trigger] (self.sum)(
                a,
                c,
            )).at_most(#[trigger] (self.sum)(b, c))
    }

    /// What a score says, its implied rank being `t`, the floor rank `far` and the widened window
    /// `w`.
    pub open spec fn edges(
        self,
        m: RankModel,
        t: Double,
        far: Double,
        w: Double,
        reach: Double,
    ) -> RankEdges {
        RankEdges {
            implied: t,
            reach,
            low: (self.difference)((self.quotient)(t, w), m.slack),
            high: (self.sum)((self.product)(t, w), m.slack),
            floor_low: (self.difference)((self.quotient)(far, w), m.slack),
            reach_low: (self.difference)(reach, m.slack),
        }
    }
}

/// Infinity.
pub open spec fn infinity() -> Double {
    Double { bits: 0x7ff0_0000_0000_0000 }
}

/// A finite number from one on.
pub open spec fn from_one(x: Double) -> bool {
    one().at_most(x) && x.below(infinity())
}

/// A larger multiplier only widens the window: the bands of a larger window hold those of a
/// smaller one, whatever the score, as long as rounding keeps the order.
pub proof fn lemma_larger_window_is_wider(
    a: Arithmetic,
    m: RankModel,
    t: Double,
    far: Double,
    v: Double,
    w: Double,
    reach: Double,
)
    requires
        a.orderly(),
        from_one(t),
        from_one(far),
        from_one(v),
        from_one(w),
        v.at_most(w),
        m.slack.below(infinity()),
        !m.slack.negative(),
    ensures
        a.edges(m, t, far, v, reach).within(a.edges(m, t, far, w, reach)),
{
}

/// The true rank is always compatible with the score it produces, whatever the window: where the
/// score is above the floor and implies a rank no further from the true one than the slack, and
/// where it is floored and the true rank is no further below the floor rank than the slack.
/// `raw` is `top − rank on the site`.
pub proof fn lemma_true_rank_is_accepted(
    a: Arithmetic,
    m: RankModel,
    raw: Double,
    r: Double,
    t: Double,
    far: Double,
    w: Double,
    reach: Double,
)
    requires
        a.orderly(),
        from_one(t),
        from_one(far),
        from_one(w),
        m.slack.below(infinity()),
        !m.slack.negative(),
        m.floor.below(raw) ==> (a.difference)(t, m.slack).at_most(r) && r.at_most(
            (a.sum)(t, m.slack),
        ),
        !m.floor.below(raw) ==> (a.difference)(far, m.slack).at_most(r),
    ensures
        m.compatible(raw.upper(m.floor), r, a.edges(m, t, far, w, reach)),
{
    let e = a.edges(m, t, far, w, reach);
    assert((a.quotient)(t, w).at_most(t));
    assert((a.quotient)(far, w).at_most(far));
    assert(t.at_most((a.product)(t, w)));
    assert(e.low.at_most((a.difference)(t, m.slack)));
    assert((a.sum)(t, m.slack).at_most(e.high));
    assert(e.floor_low.at_most((a.difference)(far, m.slack)));
}

/// The tolerances of Cémantix grow from one level to the next.
pub proof fn lemma_cemantix_tolerances_grow(low: int, high: int)
    requires
        0 <= low <= high < TOL_LEVELS,
    ensures
        cemantix_scoring() matches Scoring::Cosine { tols, .. } && tols[low].at_most(tols[high]),
{
}

/// The band of a score: one above the floor, that implies a rank the table resolves, accepts the
/// ranks from the lower edge of its window to the upper one and no other. A rank beyond either
/// edge is ruled out.
pub proof fn lemma_band_has_two_ends(m: RankModel, score: Double, r: Double, e: RankEdges)
    requires
        !m.floor.nan() && !score.nan() && !r.nan(),
        !e.low.nan() && !e.high.nan() && !e.implied.nan() && !e.reach.nan(),
        score.value() > m.floor.value(),
        e.implied.value() < e.reach.value(),
    ensures
        r.value() > e.high.value() ==> !m.compatible(score, r, e),
        r.value() < e.low.value() ==> !m.compatible(score, r, e),
        e.low.value() <= r.value() <= e.high.value() ==> m.compatible(score, r, e),
{
    lemma_double_order_is_numeric(m.floor, score);
    lemma_double_order_is_numeric(e.reach, e.implied);
    lemma_double_order_is_numeric(e.low, r);
    lemma_double_order_is_numeric(r, e.high);
}

/// A score on the floor, or one that points past the table, only says that the guess is far: it
/// accepts every rank from the nearer of its edge and the edge of the table on, and rules out
/// every rank before both.
pub proof fn lemma_far_score_has_one_end(m: RankModel, score: Double, r: Double, e: RankEdges)
    requires
        !m.floor.nan() && !score.nan() && !r.nan(),
        !e.low.nan() && !e.floor_low.nan() && !e.reach_low.nan(),
        !e.implied.nan() && !e.reach.nan(),
    ensures
        score.value() <= m.floor.value() ==> (m.compatible(score, r, e) <==> r.value()
            >= e.floor_low.value() || r.value() >= e.reach_low.value()),
        score.value() > m.floor.value() && e.implied.value() >= e.reach.value() ==> (m.compatible(
            score,
            r,
            e,
        ) <==> r.value() >= e.low.value() || r.value() >= e.reach_low.value()),
{
    lemma_double_order_is_numeric(m.floor, score);
    lemma_double_order_is_numeric(e.reach, e.implied);
    lemma_double_order_is_numeric(e.floor_low, r);
    lemma_double_order_is_numeric(e.low, r);
    lemma_double_order_is_numeric(e.reach_low, r);
    lemma_double_order_is_numeric(e.reach_low, e.floor_low);
    lemma_double_order_is_numeric(e.reach_low, e.low);
}

/// No score accepts a rank that is no number.
pub proof fn lemma_no_rank_is_not_accepted(m: RankModel, score: Double, r: Double, e: RankEdges)
    requires
        r.nan(),
    ensures
        !m.compatible(score, r, e),
{
}

/// However the caller calculates, a rank past `t × w + slack` or before `t / w − slack` is ruled
/// out by a score above the floor that implies a rank `t` within the table.
pub proof fn lemma_rank_outside_the_window_is_ruled_out(
    a: Arithmetic,
    m: RankModel,
    score: Double,
    r: Double,
    t: Double,
    far: Double,
    w: Double,
    reach: Double,
)
    requires
        m.floor.below(score),
        t.below(reach),
        (a.sum)((a.product)(t, w), m.slack).below(r) || r.below(
            (a.difference)((a.quotient)(t, w), m.slack),
        ),
    ensures
        !m.compatible(score, r, a.edges(m, t, far, w, reach)),
{
}

/// A score on the floor is one at or under it.
pub proof fn lemma_floored_scores(m: RankModel, score: Double)
    requires
        !m.floor.nan(),
    ensures
        !score.nan() ==> (m.floored(score) <==> score.value() <= m.floor.value()),
        score.nan() ==> m.floored(score),
{
    if !score.nan() {
        lemma_double_order_is_numeric(m.floor, score);
    }
}

/// A score that is no number does not find the secret.
pub proof fn lemma_no_number_finds_nothing(s: Scoring, score: Double, p: Option<u32>)
    requires
        score.nan(),
    ensures
        s is Rank ==> !s.finds(score, p),
        s is Cosine ==> (s.finds(score, p) <==> p == Some(1000u32)),
{
}

/// When the secret is found: in a cosine game with the highest ‰ rank, whatever the score, or
/// from a score of 0.99995 on, whatever the other ‰ ranks; in a rank game from half a point under
/// the top on, whatever the ‰ rank.
pub proof fn lemma_found_from_a_score_on(
    s: Scoring,
    score: Double,
    better: Double,
    p: Option<u32>,
    q: Option<u32>,
)
    requires
        !score.nan(),
        !better.nan(),
        score.value() <= better.value(),
        s matches Scoring::Rank(m) ==> !m.found.nan(),
    ensures
        s is Cosine ==> s.finds(score, Some(1000)),
        s.finds(score, None) ==> s.finds(better, q),
        p != Some(1000u32) ==> s.finds(score, p) == s.finds(score, None),
        s is Rank ==> s.finds(score, p) == s.finds(score, q),
        s is Cosine ==> (s.finds(score, None) <==> score.value() >= (Double {
            bits: 0x3fef_ff97_2474_538f,
        }).value()),
        s matches Scoring::Rank(m) ==> (s.finds(score, p) <==> score.value() >= m.found.value()),
{
    let bar = match s {
        Scoring::Cosine { .. } => Double { bits: FOUND_COSINE },
        Scoring::Rank(m) => m.found,
    };
    lemma_double_order_is_numeric(bar, score);
    lemma_double_order_is_numeric(bar, better);
}

/// A cosine score admits the words whose cosine lies within the tolerance of it, and no other; a
/// word whose gap is no number is not admitted.
pub proof fn lemma_gap_decides(
    gaps: Vec<Double>,
    scale: Double,
    tols: [Double; 5],
    score: Double,
    level: int,
    j: int,
)
    requires
        0 <= level < 5,
        0 <= j < gaps@.len(),
        !tols[level].nan(),
    ensures
        ({
            let admitted = Evidence::Gaps(gaps).admits(
                Scoring::Cosine { scale, tols },
                score,
                level,
                j,
            );
            &&& gaps@[j].nan() ==> !admitted
            &&& !gaps@[j].nan() ==> (admitted <==> gaps@[j].value() <= tols[level].value())
        }),
{
    if !gaps@[j].nan() {
        lemma_double_order_is_numeric(gaps@[j], tols[level]);
    }
}

/// A rank score admits no word without a row in the table, and of the others those whose rank it
/// accepts at that level.
pub proof fn lemma_row_decides(
    m: RankModel,
    ranks: Vec<Option<Double>>,
    edges: Vec<RankEdges>,
    score: Double,
    level: int,
    j: int,
)
    requires
        0 <= j < ranks@.len(),
    ensures
        ({
            let admitted = Evidence::Ranks(ranks, edges).admits(Scoring::Rank(m), score, level, j);
            &&& ranks@[j] is None ==> !admitted
            &&& ranks@[j] matches Some(r) ==> admitted == m.compatible(score, r, edges@[level])
        }),
{
}

/// The scoring of the two games in numbers. Cémantix tolerates 1, 2, 5, 10 and 30 of its rounding
/// steps; a QuelMot score is found above 999 and floored at −999.
pub proof fn lemma_games_in_numbers()
    ensures
        cemantix_scoring() matches Scoring::Cosine { scale, tols } && scale.bits
            == 0x40c3_8800_0000_0000 && tols[0].bits == 0x3f1a_36e2_eb1c_432d && tols[1].bits
            == 0x3f2a_36e2_eb1c_432d && tols[2].bits == 0x3f40_624d_d2f1_a9fc && tols[3].bits
            == 0x3f50_624d_d2f1_a9fc && tols[4].bits == 0x3f68_9374_bc6a_7efa,
        quelmot_model().floor.below(quelmot_model().found),
        quelmot_model().found.below(quelmot_model().top),
{
}

/// The numbers of the rank game: lexicons in the ratio of one and a half, a window of 1.3 and a
/// slack of one half, scores from −999 up to a thousand, and 999.5 for the secret.
pub proof fn lemma_rank_game_in_numbers()
    ensures
        quelmot_model().alpha.bits == 0x3ff8_0000_0000_0000,
        quelmot_model().window.bits == 0x3ff4_cccc_cccc_cccd,
        quelmot_model().slack.bits == 0x3fe0_0000_0000_0000,
        quelmot_model().top.bits == 0x408f_4000_0000_0000,
        quelmot_model().floor.bits == 0xc08f_3800_0000_0000,
        quelmot_model().found.bits == 0x408f_3c00_0000_0000,
{
}

} // verus!
