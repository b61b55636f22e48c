//! The whole hint ladder of a known secret, and an audit of its bands over many secrets.

use vstd::prelude::*;

use crate::cosine::{cosine, measure, measures};
use crate::flags::{lemma_clear_one, lemma_none_set, set_positions};
use crate::hints::{
    band_of, cohesion, lemma_hint_words_are_safe, rung, Hint, HintLevel, HINT_FAMILIAR_RANK,
    HINT_MAX_SET, HINT_MIN_COHESION,
};
use crate::ieee::Single;
use crate::order::{largest, lemma_largest, select_largest};
use crate::scoring::cemantix_scoring;
use crate::solver::Solver;
use crate::text::{
    append_text, decimal, join, joined, pad_left, pad_right, padded_left, padded_right, texts,
    write_decimal,
};
use crate::vectors::Vectors;
use crate::words::{same_family, shares_stem};

verus! {

/// Only the secret is left.
pub open spec fn only(n: nat, secret: u32) -> Seq<bool> {
    Seq::new(n, |j: int| j == secret)
}

/// A solver pinned to one known secret. That is the regime the hint ladder was calibrated on:
/// most Cémantix games leave exactly one candidate on the second answer.
pub fn pin(model: &Vectors, secret: u32) -> (r: Solver<'_>)
    requires
        model.wf(),
        secret < model.words@.len(),
    ensures
        r.wf(),
        *r.vectors == *model,
        r.scoring == cemantix_scoring(),
        r.alive@ == only(model.words@.len(), secret),
        r.alive_count == 1,
        r.banned@ == Seq::new(model.words@.len(), |j: int| false),
        r.obs@.len() == 0,
{
    let mut s = Solver::new(model);
    let n: usize = model.n();
    s.alive = vec![false; n];
    let ghost none = s.alive@;
    s.alive.set(secret as usize, true);
    s.alive_count = 1;
    proof {
        assert(s.alive@ =~= only(n as nat, secret));
        assert(s.alive@.update(secret as int, false) =~= none);
        lemma_clear_one(s.alive@, secret as int);
        lemma_none_set(none);
    }
    s
}

/// The words granted on rung number `level`, if any.
pub open spec fn granted<F: Fn(u32, u32) -> Single>(
    s: Solver,
    sim: F,
    level: nat,
    revealed: Seq<u32>,
) -> Option<Seq<u32>> {
    let targets = set_positions(s.alive@);
    if rung(level) is None || s.alive_count == 0 || s.alive_count > HINT_MAX_SET || cohesion(
        sim,
        targets,
    ).below(Single { bits: HINT_MIN_COHESION }) {
        None
    } else {
        let (lo, hi, take) = band_of(rung(level)->0);
        let found = s.band_words(sim, targets, lo as int, hi as int, take as int, revealed);
        if found.len() == 0 {
            None
        } else {
            Some(found)
        }
    }
}

/// The rungs granted from number `level` on, each with its words, and none repeating what an
/// earlier one revealed.
pub open spec fn ladder_from<F: Fn(u32, u32) -> Single>(
    s: Solver,
    sim: F,
    level: nat,
    revealed: Seq<u32>,
) -> Seq<(HintLevel, Seq<u32>)>
    decreases 3 - level,
{
    if level >= 3 {
        Seq::empty()
    } else {
        match granted(s, sim, level, revealed) {
            Some(words) => seq![(rung(level)->0, words)] + ladder_from(
                s,
                sim,
                level + 1,
                revealed + words,
            ),
            None => ladder_from(s, sim, level + 1, revealed),
        }
    }
}

/// The rungs of a list, with their words as sequences.
pub open spec fn rungs_of(r: Seq<(HintLevel, Vec<u32>)>) -> Seq<(HintLevel, Seq<u32>)> {
    Seq::new(r.len(), |i: int| (r[i].0, r[i].1@))
}

/// The rungs that a solver grants, from vaguest to most precise.
pub fn climb<F: Fn(u32, u32) -> Single>(s: &Solver, sim: &F) -> (r: Vec<(HintLevel, Vec<u32>)>)
    requires
        s.wf(),
        measures(*sim, s.vectors.words@.len()),
    ensures
        rungs_of(r@) == ladder_from(*s, *sim, 0, Seq::empty()),
{
    let mut revealed: Vec<u32> = Vec::new();
    let mut out: Vec<(HintLevel, Vec<u32>)> = Vec::new();
    let ghost all = ladder_from(*s, *sim, 0, Seq::empty());
    assert(rungs_of(out@) + all =~= all);
    for level in 0..3usize
        invariant
            s.wf(),
            measures(*sim, s.vectors.words@.len()),
            s.known(revealed@),
            all == ladder_from(*s, *sim, 0, Seq::empty()),
            all == rungs_of(out@) + ladder_from(*s, *sim, level as nat, revealed@),
    {
        let h = s.hint(level, &revealed, sim);
        let ghost was = rungs_of(out@);
        let ghost seen = revealed@;
        match h {
            Hint::Words { level: at, words } => {
                proof {
                    lemma_hint_words_are_safe(*s, *sim, level as nat, revealed@, h);
                    assert(granted(*s, *sim, level as nat, revealed@) == Some(words@));
                }
                for k in 0..words.len()
                    invariant
                        s.known(seen),
                        forall|m: int|
                            0 <= m < words@.len() ==> (#[trigger] words@[m])
                                < s.vectors.words@.len(),
                        revealed@ == seen + words@.take(k as int),
                        s.known(revealed@),
                {
                    assert(words@[k as int] < s.vectors.words@.len());
                    revealed.push(words[k]);
                    assert(revealed@ =~= seen + words@.take(k + 1));
                }
                assert(words@.take(words@.len() as int) =~= words@);
                out.push((at, words));
                proof {
                    assert(rungs_of(out@) =~= was.push((at, words@)));
                    let rest = ladder_from(*s, *sim, (level + 1) as nat, revealed@);
                    assert(was + (seq![(at, words@)] + rest) =~= was.push((at, words@)) + rest);
                }
            },
            Hint::Locked(_) => {
                assert(granted(*s, *sim, level as nat, revealed@) is None);
            },
        }
    }
    assert(all =~= rungs_of(out@));
    out
}

/// The rungs for one secret.
pub fn ladder<F: Fn(u32, u32) -> Single>(model: &Vectors, secret: u32, sim: &F) -> (r: Vec<
    (HintLevel, Vec<u32>),
>)
    requires
        model.wf(),
        measures(*sim, model.words@.len()),
        secret < model.words@.len(),
    ensures
        exists|s: Solver|
            s.wf() && *s.vectors == *model && s.alive@ == only(model.words@.len(), secret)
                && s.obs@.len() == 0 && s.banned@ == Seq::new(model.words@.len(), |j: int| false)
                && rungs_of(r@) == #[trigger] ladder_from(s, *sim, 0, Seq::empty()),
{
    let s = pin(model, secret);
    climb(&s, sim)
}

/// What an audit counts on one rung.
pub struct RungAudit {
    /// Rungs with fewer words than they should have.
    pub short: u64,
    /// Words of the secret's own family.
    pub leaks: u64,
    /// Words past the familiarity cap.
    pub rare: u64,
    /// How similar each word is to its secret.
    pub sims: Vec<Single>,
}

/// How many of the first `m` words are of the secret's own family.
pub open spec fn leaks_in(texts: Seq<Seq<char>>, words: Seq<u32>, secret: u32, m: int) -> nat
    decreases m,
{
    if m <= 0 {
        0
    } else {
        leaks_in(texts, words, secret, m - 1) + if same_family(
            texts[words[m - 1] as int],
            texts[secret as int],
        ) {
            1nat
        } else {
            0
        }
    }
}

/// How many of the first `m` words are past the familiarity cap.
pub open spec fn rare_in(words: Seq<u32>, m: int) -> nat
    decreases m,
{
    if m <= 0 {
        0
    } else {
        rare_in(words, m - 1) + if words[m - 1] >= HINT_FAMILIAR_RANK {
            1nat
        } else {
            0
        }
    }
}

impl RungAudit {
    pub fn new() -> (r: Self)
        ensures
            r.short == 0,
            r.leaks == 0,
            r.rare == 0,
            r.sims@.len() == 0,
    {
        RungAudit { short: 0, leaks: 0, rare: 0, sims: Vec::new() }
    }

    /// Counts the words of one rung for one secret.
    pub fn add_rung<F: Fn(u32, u32) -> Single>(
        &mut self,
        model: &Vectors,
        secret: u32,
        level: HintLevel,
        words: &Vec<u32>,
        sim: &F,
    )
        requires
            model.wf(),
            measures(*sim, model.words@.len()),
            secret < model.words@.len(),
            forall|k: int| 0 <= k < words@.len() ==> (#[trigger] words@[k]) < model.words@.len(),
            old(self).short < u64::MAX,
            old(self).leaks + words@.len() <= u64::MAX,
            old(self).rare + words@.len() <= u64::MAX,
        ensures
            final(self).short == old(self).short + if words@.len() < band_of(level).2 {
                1int
            } else {
                0
            },
            final(self).leaks == old(self).leaks + leaks_in(
                model.texts(),
                words@,
                secret,
                words@.len() as int,
            ),
            final(self).rare == old(self).rare + rare_in(words@, words@.len() as int),
            final(self).sims@ == old(self).sims@ + Seq::new(
                words@.len(),
                |k: int| cosine(*sim, words@[k], secret),
            ),
    {
        if words.len() < level.band().2 {
            self.short = self.short + 1;
        }
        let ghost first = *self;
        let ghost all = Seq::new(words@.len(), |k: int| cosine(*sim, words@[k], secret));
        for k in 0..words.len()
            invariant
                model.wf(),
                measures(*sim, model.words@.len()),
                secret < model.words@.len(),
                forall|k: int| 0 <= k < words@.len() ==> (#[trigger] words@[k]) < model.words@.len(),
                first.leaks + words@.len() <= u64::MAX,
                first.rare + words@.len() <= u64::MAX,
                all == Seq::new(words@.len(), |k: int| cosine(*sim, words@[k], secret)),
                self.short == first.short,
                self.leaks == first.leaks + leaks_in(model.texts(), words@, secret, k as int),
                self.leaks <= first.leaks + k,
                self.rare == first.rare + rare_in(words@, k as int),
                self.rare <= first.rare + k,
                self.sims@ == first.sims@ + all.take(k as int),
        {
            let i: u32 = words[k];
            assert(words@[k as int] < model.words@.len());
            if shares_stem(
                model.words[i as usize].as_str(),
                model.words[secret as usize].as_str(),
            ) {
                self.leaks = self.leaks + 1;
            }
            if i as usize >= HINT_FAMILIAR_RANK {
                self.rare = self.rare + 1;
            }
            self.sims.push(measure(sim, i, secret));
            assert(self.sims@ =~= first.sims@ + all.take(k + 1));
        }
        assert(all.take(words@.len() as int) =~= all);
    }

    /// The median similarity, `None` if there is none: the larger one of the middle two.
    pub fn median(&self) -> (r: Option<Single>)
        ensures
            r == median_of(self.sims@),
    {
        let n: usize = self.sims.len();
        if n == 0 {
            return None;
        }
        let sorted = select_largest(&self.sims, n);
        proof {
            lemma_largest(self.sims@, n as int);
        }
        Some(sorted[n - 1 - n / 2])
    }
}

/// The name of a rung.
pub open spec fn rung_name(level: HintLevel) -> Seq<char> {
    match level {
        HintLevel::Field => "field"@,
        HintLevel::Tight => "tight"@,
        HintLevel::Near => "near"@,
    }
}

/// The line of one rung: its name, and its words as the caller shows them.
pub fn rung_line(level: HintLevel, shown: &Vec<String>) -> (r: String)
    ensures
        r@ == "  "@ + padded_right(rung_name(level), 6) + " "@ + joined(texts(shown@), ", "@),
{
    let mut r = String::new();
    append_text(&mut r, "  ");
    append_text(&mut r, pad_right(level.name(), 6).as_str());
    append_text(&mut r, " ");
    append_text(&mut r, join(shown, ", ").as_str());
    assert(r@ =~= "  "@ + padded_right(rung_name(level), 6) + " "@ + joined(
        texts(shown@),
        ", "@,
    ));
    r
}

/// The line of one rung in the report of an audit: its band, what was counted, and the median
/// similarity as the caller shows it.
pub open spec fn audit_text(level: HintLevel, a: RungAudit, median: Seq<char>) -> Seq<char> {
    let (lo, hi, take) = band_of(level);
    padded_right(rung_name(level), 7) + " "@ + padded_left(decimal(lo as nat), 4) + "–"@
        + padded_right(decimal(hi as nat), 6) + " "@ + padded_left(decimal(take as nat), 4) + "  "@
        + padded_left(decimal(a.short as nat), 6) + "  "@ + padded_left(decimal(a.leaks as nat), 6)
        + "  "@ + padded_left(decimal(a.rare as nat), 5) + "  "@ + median
}

/// The line of one rung in the report of an audit.
pub fn audit_line(level: HintLevel, a: &RungAudit, median: &str) -> (r: String)
    ensures
        r@ == audit_text(level, *a, median@),
{
    let (lo, hi, take) = level.band();
    let mut r = pad_right(level.name(), 7);
    append_text(&mut r, " ");
    append_text(&mut r, pad_left(write_decimal(lo as u64).as_str(), 4).as_str());
    append_text(&mut r, "–");
    append_text(&mut r, pad_right(write_decimal(hi as u64).as_str(), 6).as_str());
    append_text(&mut r, " ");
    append_text(&mut r, pad_left(write_decimal(take as u64).as_str(), 4).as_str());
    append_text(&mut r, "  ");
    append_text(&mut r, pad_left(write_decimal(a.short).as_str(), 6).as_str());
    append_text(&mut r, "  ");
    append_text(&mut r, pad_left(write_decimal(a.leaks).as_str(), 6).as_str());
    append_text(&mut r, "  ");
    append_text(&mut r, pad_left(write_decimal(a.rare).as_str(), 5).as_str());
    append_text(&mut r, "  ");
    append_text(&mut r, median);
    assert(r@ =~= audit_text(level, *a, median@));
    r
}

/// The similarity in the middle of a list, counted from the lowest.
pub open spec fn median_of(sims: Seq<Single>) -> Option<Single> {
    let n = sims.len() as int;
    if n == 0 {
        None
    } else {
        Some(largest(sims, n)[n - 1 - n / 2])
    }
}

/// An audit never finds a leak or a rare word: the hints of a pinned solver hold neither.
pub proof fn lemma_audit_is_clean<F: Fn(u32, u32) -> Single>(
    s: Solver,
    sim: F,
    level: nat,
    revealed: Seq<u32>,
    h: Hint,
    secret: u32,
)
    requires
        s.wf(),
        s.hinted(sim, level, revealed, h),
        h is Words,
        secret < s.alive@.len(),
        s.alive@[secret as int],
    ensures
        leaks_in(s.vectors.texts(), h->words@, secret, h->words@.len() as int) == 0,
        rare_in(h->words@, h->words@.len() as int) == 0,
{
    lemma_hint_words_are_safe(s, sim, level, revealed, h);
    crate::flags::lemma_set_positions(s.alive@);
    let targets = set_positions(s.alive@);
    let words = h->words@;
    assert(targets.contains(secret));
    let k = choose|k: int| 0 <= k < targets.len() && targets[k] == secret;
    lemma_no_leaks(s.vectors.texts(), words, secret, targets, k, words.len() as int);
}

proof fn lemma_no_leaks(
    texts: Seq<Seq<char>>,
    words: Seq<u32>,
    secret: u32,
    targets: Seq<u32>,
    k: int,
    m: int,
)
    requires
        0 <= m <= words.len(),
        0 <= k < targets.len(),
        targets[k] == secret,
        forall|i: int| 0 <= i < words.len() ==> (#[trigger] words[i]) < HINT_FAMILIAR_RANK,
        forall|i: int, k: int|
            0 <= i < words.len() && 0 <= k < targets.len() ==> !same_family(
                texts[#[trigger] words[i] as int],
                texts[#[trigger] targets[k] as int],
            ),
    ensures
        leaks_in(texts, words, secret, m) == 0,
        rare_in(words, m) == 0,
    decreases m,
{
    if m > 0 {
        lemma_no_leaks(texts, words, secret, targets, k, m - 1);
        assert(words[m - 1] < HINT_FAMILIAR_RANK);
        assert(!same_family(texts[words[m - 1] as int], texts[targets[k] as int]));
    }
}

/// The ladder is what a player gets who asks for one rung after the other and tells each time
/// which words came before: a refused rung adds nothing, and the next is asked all the same.
pub proof fn lemma_ladder_is_asked_rung_by_rung<F: Fn(u32, u32) -> Single>(
    s: Solver,
    sim: F,
    level: nat,
    seen: Seq<u32>,
    h: Hint,
)
    requires
        s.hinted(sim, level, seen, h),
    ensures
        level >= 3 ==> ladder_from(s, sim, level, seen).len() == 0,
        h matches Hint::Words { level: l, words } ==> ladder_from(s, sim, level, seen) == seq![
            (l, words@),
        ] + ladder_from(s, sim, level + 1, seen + words@),
        level < 3 && h is Locked ==> ladder_from(s, sim, level, seen) == ladder_from(
            s,
            sim,
            level + 1,
            seen,
        ),
{
}

/// The words of the secret's family are counted one by one: none exactly when no word is a
/// relative, all of them exactly when every word is.
pub proof fn lemma_leaks_are_counted(texts: Seq<Seq<char>>, words: Seq<u32>, secret: u32, m: int)
    requires
        0 <= m <= words.len(),
    ensures
        leaks_in(texts, words, secret, m) <= m,
        leaks_in(texts, words, secret, m) == 0 <==> forall|k: int|
            0 <= k < m ==> !same_family(texts[#[trigger] words[k] as int], texts[secret as int]),
        leaks_in(texts, words, secret, m) == m <==> forall|k: int|
            0 <= k < m ==> same_family(texts[#[trigger] words[k] as int], texts[secret as int]),
    decreases m,
{
    if m > 0 {
        lemma_leaks_are_counted(texts, words, secret, m - 1);
        assert(words[m - 1] == words[m - 1]);
    }
}

/// The words past the twenty thousand most frequent are counted one by one.
pub proof fn lemma_rare_words_are_counted(words: Seq<u32>, m: int)
    requires
        0 <= m <= words.len(),
    ensures
        rare_in(words, m) <= m,
        rare_in(words, m) == 0 <==> forall|k: int| 0 <= k < m ==> #[trigger] words[k] < 20_000,
        rare_in(words, m) == m <==> forall|k: int| 0 <= k < m ==> #[trigger] words[k] >= 20_000,
    decreases m,
{
    if m > 0 {
        lemma_rare_words_are_counted(words, m - 1);
        assert(words[m - 1] == words[m - 1]);
    }
}

/// The median stands in the middle of the similarities once they are in order, at the upper of
/// the two middles where there are two.
pub proof fn lemma_median_is_in_the_middle(sims: Seq<Single>) -> (t: Seq<Single>)
    ensures
        t.to_multiset() == sims.to_multiset(),
        t.len() == sims.len(),
        forall|i: int, j: int|
            0 <= i <= j < t.len() ==> (#[trigger] t[i]).total() <= (#[trigger] t[j]).total(),
        sims.len() == 0 ==> median_of(sims) is None,
        sims.len() > 0 ==> median_of(sims) == Some(t[sims.len() as int / 2]),
{
    let n = sims.len() as int;
    lemma_largest(sims, n);
    let down = largest(sims, n);
    let t = down.reverse();
    lemma_reversal_holds_all(down);
    assert forall|i: int, j: int| 0 <= i <= j < t.len() implies (#[trigger] t[i]).total() <= (
    #[trigger] t[j]).total() by {
        assert(t[i] == down[n - 1 - i] && t[j] == down[n - 1 - j]);
    }
    t
}

proof fn lemma_reversal_holds_all(s: Seq<Single>)
    ensures
        s.reverse().to_multiset() == s.to_multiset(),
    decreases s.len(),
{
    broadcast use vstd::seq_lib::group_to_multiset_ensures;

    if s.len() == 0 {
        assert(s.reverse() =~= s);
    } else {
        let rest = s.drop_first();
        lemma_reversal_holds_all(rest);
        assert(s.reverse() =~= rest.reverse().push(s[0]));
        assert(s =~= seq![s[0]] + rest);
        assert(rest.push(s[0]).to_multiset() =~= s.to_multiset()) by {
            vstd::seq_lib::lemma_multiset_commutative(seq![s[0]], rest);
            vstd::seq_lib::lemma_multiset_commutative(rest, seq![s[0]]);
            assert(rest.push(s[0]) =~= rest + seq![s[0]]);
        }
        assert(rest.reverse().push(s[0]).to_multiset() =~= rest.push(s[0]).to_multiset());
    }
}

} // verus!
