//! Checks of the model against the sites: do their scores and ranks come out of it?

use vstd::prelude::*;

use crate::ieee::Double;
use crate::order::{smallest_first, sort_doubles};
use crate::site::Neighbour;
use crate::text::{append_text, decimal, pad_left, pad_right, padded_left, padded_right, write_decimal};
use crate::vectors::{first_at, Vectors};

verus! {

/// A deviation above this many degrees is one: 0.011, as a bit pattern.
pub const DEVIATION: u64 = 0x3f86_872b_020c_49ba;

/// How many deviations are shown.
pub const DEVIATIONS_SHOWN: usize = 10;

/// The words of a list of neighbours in the model, `None` where one is missing.
pub fn lookup_neighbours(model: &Vectors, near: &Vec<Neighbour>) -> (r: Vec<Option<u32>>)
    requires
        model.wf(),
    ensures
        r@.len() == near@.len(),
        forall|k: int|
            0 <= k < r@.len() ==> match #[trigger] r@[k] {
                Some(i) => first_at(model.texts(), near@[k].word@, i as int),
                None => !model.texts().contains(near@[k].word@),
            },
{
    let mut r: Vec<Option<u32>> = Vec::new();
    for k in 0..near.len()
        invariant
            model.wf(),
            r@.len() == k,
            forall|j: int|
                0 <= j < k ==> match #[trigger] r@[j] {
                    Some(i) => first_at(model.texts(), near@[j].word@, i as int),
                    None => !model.texts().contains(near@[j].word@),
                },
    {
        r.push(model.lookup(near[k].word.as_str()));
    }
    r
}

/// A deviation that counts.
pub open spec fn deviates(d: Option<Double>) -> bool {
    d is Some && (Double { bits: DEVIATION }).below(d->0)
}

/// How many of the first `m` words are missing.
pub open spec fn missing_in(devs: Seq<Option<Double>>, m: int) -> nat
    decreases m,
{
    if m <= 0 {
        0
    } else {
        missing_in(devs, m - 1) + if devs[m - 1] is None {
            1nat
        } else {
            0
        }
    }
}

/// The positions of the deviations that count among the first `m`.
pub open spec fn deviations_in(devs: Seq<Option<Double>>, m: int) -> Seq<usize>
    decreases m,
{
    if m <= 0 {
        Seq::empty()
    } else if deviates(devs[m - 1]) {
        deviations_in(devs, m - 1).push((m - 1) as usize)
    } else {
        deviations_in(devs, m - 1)
    }
}

/// The largest of the first `m` deviations, zero if there is none.
pub open spec fn largest_in(devs: Seq<Option<Double>>, m: int) -> Double
    decreases m,
{
    if m <= 0 {
        Double { bits: 0 }
    } else {
        match devs[m - 1] {
            Some(d) => largest_in(devs, m - 1).upper(d),
            None => largest_in(devs, m - 1),
        }
    }
}

/// How well the model reproduces the scores of the server.
pub struct ScoreCheck {
    pub missing: usize,
    pub bad: usize,
    pub largest: Double,
    /// The first deviations, by position.
    pub shown: Vec<usize>,
}

impl ScoreCheck {
    /// The model reproduces the scores exactly.
    pub fn exact(&self) -> (r: bool)
        ensures
            r == (self.bad == 0 && self.missing == 0),
    {
        self.bad == 0 && self.missing == 0
    }
}

/// Sums up the deviations of a list of neighbours; `None` stands for a word that is missing from
/// the model.
pub fn check_scores(devs: &Vec<Option<Double>>) -> (r: ScoreCheck)
    ensures
        ({
            let n = devs@.len() as int;
            let bad = deviations_in(devs@, n);
            &&& r.missing == missing_in(devs@, n)
            &&& r.bad == bad.len()
            &&& r.largest == largest_in(devs@, n)
            &&& r.shown@ == bad.take(
                if bad.len() <= DEVIATIONS_SHOWN {
                    bad.len() as int
                } else {
                    DEVIATIONS_SHOWN as int
                },
            )
        }),
{
    let mut missing: usize = 0;
    let mut bad: usize = 0;
    let mut largest = Double { bits: 0 };
    let mut shown: Vec<usize> = Vec::new();
    let n: usize = devs.len();
    for k in 0..n
        invariant
            n == devs@.len(),
            missing <= k,
            bad <= k,
            missing == missing_in(devs@, k as int),
            bad == deviations_in(devs@, k as int).len(),
            largest == largest_in(devs@, k as int),
            shown@ == deviations_in(devs@, k as int).take(
                if bad <= DEVIATIONS_SHOWN {
                    bad as int
                } else {
                    DEVIATIONS_SHOWN as int
                },
            ),
    {
        let ghost was = deviations_in(devs@, k as int);
        match devs[k] {
            None => {
                missing = missing + 1;
            },
            Some(d) => {
                largest = largest.max(d);
                if (Double { bits: DEVIATION }).lt(d) {
                    if bad < DEVIATIONS_SHOWN {
                        shown.push(k);
                    }
                    bad = bad + 1;
                    assert(shown@ =~= was.push(k).take(
                        if bad <= DEVIATIONS_SHOWN {
                            bad as int
                        } else {
                            DEVIATIONS_SHOWN as int
                        },
                    ));
                }
            },
        }
    }
    ScoreCheck { missing, bad, largest, shown }
}

/// The rank of a word among the ranks of a lexicon.
pub open spec fn rank_within(lexicon: Seq<u32>, ranks: Seq<u32>, w: u32, r: Option<u32>) -> bool {
    match r {
        Some(x) => exists|k: int|
            0 <= k < lexicon.len() && #[trigger] lexicon[k] == w && ranks[k] == x,
        None => !lexicon.contains(w),
    }
}

/// Finds the rank of a word in a lexicon, by bisection.
pub fn find_rank(lexicon: &Vec<u32>, ranks: &Vec<u32>, w: u32) -> (r: Option<u32>)
    requires
        lexicon@.len() == ranks@.len(),
        forall|i: int, j: int|
            0 <= i < j < lexicon@.len() ==> #[trigger] lexicon@[i] < #[trigger] lexicon@[j],
    ensures
        rank_within(lexicon@, ranks@, w, r),
{
    let mut lo: usize = 0;
    let mut hi: usize = lexicon.len();
    while lo < hi
        invariant
            lexicon@.len() == ranks@.len(),
            lo <= hi <= lexicon@.len(),
            forall|i: int, j: int|
                0 <= i < j < lexicon@.len() ==> #[trigger] lexicon@[i] < #[trigger] lexicon@[j],
            forall|i: int| 0 <= i < lo ==> #[trigger] lexicon@[i] < w,
            forall|i: int| hi <= i < lexicon@.len() ==> #[trigger] lexicon@[i] > w,
        decreases hi - lo,
    {
        let mid: usize = lo + (hi - lo) / 2;
        let x: u32 = lexicon[mid];
        if x == w {
            assert(lexicon@[mid as int] == w);
            return Some(ranks[mid]);
        } else if x < w {
            lo = mid + 1;
        } else {
            hi = mid;
        }
    }
    None
}

/// What a reported score says about the rank model.
#[derive(Clone, Copy, Debug, PartialEq, Eq, Structural)]
pub enum RankCheck {
    /// The word is missing from the model.
    Missing,
    /// The rank on the site can be compared with the local one.
    Fitted,
    /// There is no local rank to compare with.
    Unfitted,
    /// The score is floored and says nothing.
    Floored,
}

/// Tells what a reported score says: `known` if the model has the word, `floored` if the score
/// sits on the floor, `local` its local rank. The secret itself has rank zero, which cannot be
/// compared.
pub fn judge_report(known: bool, floored: bool, local: Option<u32>) -> (r: RankCheck)
    ensures
        r == if !known {
            RankCheck::Missing
        } else if floored {
            RankCheck::Floored
        } else if local is Some && local->0 > 0 {
            RankCheck::Fitted
        } else {
            RankCheck::Unfitted
        },
{
    if !known {
        return RankCheck::Missing;
    }
    if floored {
        return RankCheck::Floored;
    }
    match local {
        Some(r) => {
            if r > 0 {
                RankCheck::Fitted
            } else {
                RankCheck::Unfitted
            }
        },
        None => RankCheck::Unfitted,
    }
}

/// The numbers of one report, in decimal as the caller shows them.
pub struct ReportNumbers {
    pub score: String,
    /// The rank on the site, rounded.
    pub site_rank: String,
    /// The tabulated estimate of the local rank, rounded.
    pub estimate: Option<String>,
    /// The ratio of the two ranks.
    pub alpha: String,
}

/// The local rank, or that there is none.
pub open spec fn local_text(local: Option<u32>) -> Seq<char> {
    match local {
        Some(r) => decimal(r as nat),
        None => "hors lexique"@,
    }
}

/// The estimate, or a dash.
pub open spec fn estimate_text(e: Option<String>) -> Seq<char> {
    match e {
        Some(e) => e@,
        None => "—"@,
    }
}

/// The line of one report, in columns.
pub open spec fn report_text(
    check: RankCheck,
    word: Seq<char>,
    local: Option<u32>,
    shown: ReportNumbers,
) -> Seq<char> {
    let head = padded_right(word, 18) + " "@ + padded_left(shown.score@, 7);
    if check is Missing {
        head + "   absent du modèle"@
    } else {
        let site = if check is Floored {
            "plafonné"@
        } else {
            shown.site_rank@
        };
        let alpha = match check {
            RankCheck::Fitted => shown.alpha@,
            RankCheck::Unfitted => "?"@,
            _ => "—"@,
        };
        head + " "@ + padded_left(site, 10) + " "@ + padded_left(local_text(local), 11) + " "@
            + padded_left(estimate_text(shown.estimate), 10) + " "@ + padded_left(alpha, 7)
    }
}

/// Writes the line of one report.
pub fn report_line(check: RankCheck, word: &str, local: Option<u32>, shown: &ReportNumbers) -> (r:
    String)
    ensures
        r@ == report_text(check, word@, local, *shown),
{
    let mut r = pad_right(word, 18);
    append_text(&mut r, " ");
    append_text(&mut r, pad_left(shown.score.as_str(), 7).as_str());
    if let RankCheck::Missing = check {
        append_text(&mut r, "   absent du modèle");
        assert(r@ =~= report_text(check, word@, local, *shown));
        return r;
    }
    let site: &str = match check {
        RankCheck::Floored => "plafonné",
        _ => shown.site_rank.as_str(),
    };
    let alpha: &str = match check {
        RankCheck::Fitted => shown.alpha.as_str(),
        RankCheck::Unfitted => "?",
        _ => "—",
    };
    append_text(&mut r, " ");
    append_text(&mut r, pad_left(site, 10).as_str());
    append_text(&mut r, " ");
    let mut rank = String::new();
    match local {
        Some(x) => append_text(&mut rank, write_decimal(x as u64).as_str()),
        None => append_text(&mut rank, "hors lexique"),
    }
    assert(rank@ =~= local_text(local));
    append_text(&mut r, pad_left(rank.as_str(), 11).as_str());
    append_text(&mut r, " ");
    let est: &str = match &shown.estimate {
        Some(e) => e.as_str(),
        None => "—",
    };
    append_text(&mut r, pad_left(est, 10).as_str());
    append_text(&mut r, " ");
    append_text(&mut r, pad_left(alpha, 7).as_str());
    assert(r@ =~= report_text(check, word@, local, *shown));
    r
}

/// The ratios of the ranks of some reports.
pub struct AlphaSummary {
    pub median: Double,
    pub lowest: Double,
    pub highest: Double,
    /// How many lie outside the window.
    pub off: usize,
}

/// How many of the first `m` ratios lie above `high` or below `low`.
pub open spec fn outside(alphas: Seq<Double>, high: Double, low: Double, m: int) -> nat
    decreases m,
{
    if m <= 0 {
        0
    } else {
        outside(alphas, high, low, m - 1) + if high.below(alphas[m - 1]) || alphas[m - 1].below(low) {
            1nat
        } else {
            0
        }
    }
}

/// Sums up the ratios; nothing if there is none. `high` and `low` are the ends of the accepted
/// window.
pub fn summarise_alphas(alphas: &Vec<Double>, high: Double, low: Double) -> (r: Option<AlphaSummary>)
    ensures
        match r {
            None => alphas@.len() == 0,
            Some(s) => {
                let sorted = alphas@.sort_by(smallest_first());
                &&& alphas@.len() > 0
                &&& sorted.len() == alphas@.len()
                &&& s.median == sorted[sorted.len() as int / 2]
                &&& s.lowest == sorted[0]
                &&& s.highest == sorted.last()
                &&& s.off == outside(alphas@, high, low, alphas@.len() as int)
            },
        },
{
    let n: usize = alphas.len();
    if n == 0 {
        return None;
    }
    let sorted = sort_doubles(alphas);
    let mut off: usize = 0;
    for k in 0..n
        invariant
            n == alphas@.len(),
            off <= k,
            off == outside(alphas@, high, low, k as int),
    {
        if high.lt(alphas[k]) || alphas[k].lt(low) {
            off = off + 1;
        }
    }
    proof {
        broadcast use vstd::seq_lib::group_to_multiset_ensures;

        crate::order::lemma_smallest_first();
        alphas@.lemma_sort_by_ensures(smallest_first());
        assert(sorted@.len() == sorted@.to_multiset().len());
        assert(alphas@.len() == alphas@.to_multiset().len());
    }
    Some(
        AlphaSummary {
            median: sorted[sorted.len() / 2],
            lowest: sorted[0],
            highest: sorted[sorted.len() - 1],
            off,
        },
    )
}

/// The missing words are counted one by one: none exactly when every word was found, all of them
/// exactly when none was.
pub proof fn lemma_missing_words_are_counted(devs: Seq<Option<Double>>, m: int)
    requires
        0 <= m <= devs.len(),
    ensures
        missing_in(devs, m) <= m,
        missing_in(devs, m) == 0 <==> forall|k: int| 0 <= k < m ==> #[trigger] devs[k] is Some,
        missing_in(devs, m) == m <==> forall|k: int| 0 <= k < m ==> #[trigger] devs[k] is None,
    decreases m,
{
    if m > 0 {
        lemma_missing_words_are_counted(devs, m - 1);
        assert(devs[m - 1] is Some || devs[m - 1] is None);
    }
}

/// The deviations are those above 0.011, each by its position, in order.
pub proof fn lemma_deviations_are_those_above(devs: Seq<Option<Double>>, m: int)
    requires
        0 <= m <= devs.len(),
        m <= usize::MAX,
    ensures
        deviations_in(devs, m).len() <= m,
        forall|k: int|
            0 <= k < m ==> (deviations_in(devs, m).contains(k as usize) <==> (#[trigger] devs[k]) is Some
                && (Double { bits: 0x3f86_872b_020c_49ba }).below(devs[k]->0)),
        forall|i: int|
            0 <= i < deviations_in(devs, m).len() ==> #[trigger] deviations_in(devs, m)[i] < m,
        forall|i: int, j: int|
            0 <= i < j < deviations_in(devs, m).len() ==> #[trigger] deviations_in(devs, m)[i]
                < #[trigger] deviations_in(devs, m)[j],
    decreases m,
{
    if m > 0 {
        lemma_deviations_are_those_above(devs, m - 1);
        let old = deviations_in(devs, m - 1);
        let new = deviations_in(devs, m);
        assert forall|k: int| 0 <= k < m implies (new.contains(k as usize) <==> (
        #[trigger] devs[k]) is Some && (Double { bits: 0x3f86_872b_020c_49ba }).below(devs[k]->0)) by {
            if old.contains(k as usize) {
                let i = choose|i: int| 0 <= i < old.len() && old[i] == k as usize;
                assert(new[i] == k as usize);
            }
            if new.contains(k as usize) {
                let i = choose|i: int| 0 <= i < new.len() && new[i] == k as usize;
                if i < old.len() {
                    assert(old[i] == k as usize);
                }
            }
            if k == m - 1 && deviates(devs[k]) {
                assert(new[old.len() as int] == k as usize);
            }
        }
    }
}

/// The largest deviation is at least every one of them, and is one of them or zero.
pub proof fn lemma_largest_deviation(devs: Seq<Option<Double>>, m: int, k: int)
    requires
        0 <= k < m <= devs.len(),
        forall|i: int| 0 <= i < devs.len() ==> ((#[trigger] devs[i]) matches Some(d) ==> !d.nan()),
    ensures
        devs[k] matches Some(d) ==> d.at_most(largest_in(devs, m)),
        (Double { bits: 0 }).at_most(largest_in(devs, m)),
        largest_in(devs, m) == (Double { bits: 0 }) || exists|i: int|
            0 <= i < m && #[trigger] devs[i] == Some(largest_in(devs, m)),
    decreases m,
{
    if m > 1 {
        let j = if k < m - 1 {
            k
        } else {
            0
        };
        lemma_largest_deviation(devs, m - 1, j);
    } else {
        assert(largest_in(devs, 0) == (Double { bits: 0 }));
    }
    assert(devs[m - 1] is Some || devs[m - 1] is None);
}

/// The ratios outside the window are counted: none exactly when all lie within.
pub proof fn lemma_outside_is_counted(alphas: Seq<Double>, high: Double, low: Double, m: int)
    requires
        0 <= m <= alphas.len(),
    ensures
        outside(alphas, high, low, m) <= m,
        outside(alphas, high, low, m) == 0 <==> forall|k: int|
            0 <= k < m ==> !high.below(#[trigger] alphas[k]) && !alphas[k].below(low),
        outside(alphas, high, low, m) == m <==> forall|k: int|
            0 <= k < m ==> high.below(#[trigger] alphas[k]) || alphas[k].below(low),
    decreases m,
{
    if m > 0 {
        lemma_outside_is_counted(alphas, high, low, m - 1);
        assert(alphas[m - 1] == alphas[m - 1]);
    }
}

/// A word has a rank exactly when it is in the lexicon, and it is the one beside it.
pub proof fn lemma_lexicon_words_have_ranks(lexicon: Seq<u32>, ranks: Seq<u32>, w: u32, r: Option<u32>, k: int)
    requires
        rank_within(lexicon, ranks, w, r),
        0 <= k < lexicon.len(),
        lexicon.no_duplicates(),
    ensures
        r is Some <==> lexicon.contains(w),
        lexicon[k] == w ==> r == Some(ranks[k]),
{
    if lexicon[k] == w {
        assert(lexicon.contains(w));
    }
}

} // verus!
