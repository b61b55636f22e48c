//! The solver on a small deterministic model: pseudo-random unit vectors, every word plausible.

use std::cell::RefCell;

use cemantix_core::audit::{audit_line, climb, ladder, pin, rung_line, RungAudit};
use cemantix_core::classic;
use cemantix_core::game::{Game, Outcome, Stop};
use cemantix_core::guess::{Gauge, Plan};
use cemantix_core::hints::{Hint, HintLevel, HintLocked, HINT_DIVERSITY, HINT_MIN_COHESION};
use cemantix_core::ieee::{Double, Single};
use cemantix_core::oracle::LocalOracle;
use cemantix_core::partition::{partition_entropy, rank_partition_entropy, Entropy, RankSlot, Weight};
use cemantix_core::ranks::{RankScale, RankTable, Segment, RANK_TOL_MULT};
use cemantix_core::scoring::{
    tol_level_for, Evidence, RankEdges, RankModel, Scoring, TOL_LEVELS,
};
use cemantix_core::site::ScoreResp;
use cemantix_core::solver::{Observation, Solver, Tolerance};
use cemantix_core::vectors::{Vectors, PRIOR_RANK};
use cemantix_core::words::{fold_accents, shares_stem};

const SCALE_CEMANTIX: f64 = 10_000.0;

fn dot(a: &[f32], b: &[f32]) -> f32 {
    let mut acc = [0f32; 8];
    let ca = a.chunks_exact(8);
    let cb = b.chunks_exact(8);
    let (ra, rb) = (ca.remainder(), cb.remainder());
    for (x, y) in ca.zip(cb) {
        for k in 0..8 {
            acc[k] += x[k] * y[k];
        }
    }
    let mut tail = 0f32;
    for (x, y) in ra.iter().zip(rb) {
        tail += x * y;
    }
    ((acc[0] + acc[1]) + (acc[2] + acc[3])) + ((acc[4] + acc[5]) + (acc[6] + acc[7])) + tail
}

fn round_scale(x: f64, scale: f64) -> f64 {
    (x * scale).round() / scale
}

fn single(x: f32) -> Single {
    Single { bits: x.to_bits() }
}

fn double(x: f64) -> Double {
    Double { bits: x.to_bits() }
}

fn f32_of(x: Single) -> f32 {
    f32::from_bits(x.bits)
}

fn f64_of(x: Double) -> f64 {
    f64::from_bits(x.bits)
}

struct Toy {
    v: Vectors,
    raw: Vec<f32>,
    dim: usize,
}

impl Toy {
    fn row(&self, i: u32) -> &[f32] {
        let i = i as usize;
        &self.raw[i * self.dim..(i + 1) * self.dim]
    }

    fn sim(&self, i: u32, j: u32) -> Single {
        single(dot(self.row(i), self.row(j)))
    }
}

fn toy(n: usize, dim: usize) -> Toy {
    let mut state = 0x2545_F491_4F6C_DD1Du64;
    let mut next = || {
        state ^= state << 13;
        state ^= state >> 7;
        state ^= state << 17;
        (state >> 40) as f32 / 8_388_608.0 - 1.0
    };
    let mut raw = vec![0f32; n * dim];
    for row in raw.chunks_mut(dim) {
        for x in row.iter_mut() {
            *x = next();
        }
        let norm = dot(row, row).sqrt();
        for x in row.iter_mut() {
            *x /= norm;
        }
    }
    // plausible words are lowercase letters only, so name them aaa, aab, ...
    let words: Vec<String> = (0..n)
        .map(|i| {
            let b = |k: u32| char::from(b'a' + (i as u32 / k % 26) as u8);
            format!("{}{}{}", b(676), b(26), b(1))
        })
        .collect();
    let vecs: Vec<Single> = raw.iter().map(|&x| single(x)).collect();
    let v = Vectors::new("toy".to_string(), dim, words, vecs, PRIOR_RANK);
    Toy { v, raw, dim }
}

/// Dense levels, so interpolation error stays small on a structureless model.
const TOY_LEVELS: [u32; 12] = [1, 2, 3, 4, 5, 6, 8, 10, 15, 20, 40, 80];

fn toy_with_ranks(n: usize, dim: usize) -> Toy {
    let mut t = toy(n, dim);
    let lex = t.v.plausible_indices();
    let table = {
        let t = &t;
        let lex = &lex;
        let neighbours = move |r: usize| -> Vec<Single> {
            lex.iter().map(|&j| t.sim(j, lex[r])).collect()
        };
        RankTable::build(n, lex, &TOY_LEVELS.to_vec(), &neighbours)
    };
    t.v.ranks = Some(table);
    t
}

/// The rank at a place of the table: log-rank goes linearly between two levels.
fn rank(table: &RankTable, word: usize, sim: f32) -> Option<f64> {
    let ends = |s: &Segment| {
        (
            f32_of(s.near) as f64,
            f32_of(s.far) as f64,
            (s.near_level as f64).ln(),
            (s.far_level as f64).ln(),
            f32_of(s.sim) as f64,
        )
    };
    let scale = RankScale {
        whole: |level: u32| double(level as f64),
        inside: |s: Segment| {
            let (a, b, near, far, sim) = ends(&s);
            let t = if a > b { (a - sim) / (a - b) } else { 1.0 };
            double((near + t * (far - near)).exp())
        },
        beyond: |s: Segment| {
            let (a, b, near, far, sim) = ends(&s);
            let slope = if a > b { (far - near) / (a - b) } else { 0.0 };
            double((far + (b - sim) * slope).exp())
        },
    };
    table.rank(word, single(sim), &scale).map(f64_of)
}

fn model(alpha: f64, floor: f64) -> RankModel {
    RankModel {
        alpha: double(alpha),
        floor: double(floor),
        ..RankModel::quelmot()
    }
}

fn edges(m: &RankModel, score: f64, mult: i32, reach: f64) -> RankEdges {
    let (alpha, window, slack) = (f64_of(m.alpha), f64_of(m.window), f64_of(m.slack));
    let (top, floor) = (f64_of(m.top), f64_of(m.floor));
    let w = window.powi(mult);
    let t = ((top - score) / alpha).max(1.0);
    let f = ((top - floor) / alpha).max(1.0);
    RankEdges {
        implied: double(t),
        reach: double(reach),
        low: double(t / w - slack),
        high: double(t * w + slack),
        floor_low: double(f / w - slack),
        reach_low: double(reach - slack),
    }
}

fn accepts(m: &RankModel, score: f64, r: f64, mult: i32, reach: f64) -> bool {
    m.accepts(double(score), double(r), &edges(m, score, mult, reach))
}

fn local_rank(m: &RankModel, score: f64) -> Option<f64> {
    let q = (f64_of(m.top) - score) / f64_of(m.alpha);
    m.local_rank(double(score), double(q)).map(f64_of)
}

fn floor_rank(m: &RankModel) -> f64 {
    f64_of(m.floor_rank(double((f64_of(m.top) - f64_of(m.floor)) / f64_of(m.alpha))))
}

fn score_at(m: &RankModel, r: f64) -> f64 {
    f64_of(m.score_at(double(f64_of(m.top) - (f64_of(m.alpha) * r).round())))
}

fn evidence(t: &Toy, scoring: &Scoring, o: &Observation) -> Evidence {
    let n = t.v.n();
    let score = f64_of(o.score);
    match scoring {
        Scoring::Cosine { .. } => Evidence::Gaps(
            (0..n as u32)
                .map(|j| double((f32_of(t.sim(j, o.idx)) as f64 - score).abs()))
                .collect(),
        ),
        Scoring::Rank(m) => {
            let table = t.v.ranks.as_ref();
            let reach = table.map(|t| t.reach() as f64).unwrap_or(1.0);
            Evidence::Ranks(
                (0..n as u32)
                    .map(|j| {
                        table
                            .and_then(|tb| rank(tb, j as usize, f32_of(t.sim(j, o.idx))))
                            .map(double)
                    })
                    .collect(),
                RANK_TOL_MULT
                    .iter()
                    .map(|&mult| edges(m, score, mult, reach))
                    .collect(),
            )
        }
    }
}

fn observe(t: &Toy, s: &mut Solver<'_>, idx: u32, score: f64) -> cemantix_core::solver::ObserveInfo {
    let o = Observation {
        idx,
        score: double(score),
    };
    let e = evidence(t, &s.scoring, &o);
    s.observe(o, e)
}

fn entropy_bits(sizes: &Vec<usize>) -> Entropy {
    let total: f64 = sizes.iter().sum::<usize>() as f64;
    let mut h = 0f64;
    for &c in sizes {
        let pr = c as f64 / total;
        h -= pr * pr.log2();
    }
    Entropy {
        bits: double(h),
        bar: double(h + 1e-9),
    }
}

fn slot(t: &Toy, p: u32, q: u32) -> i32 {
    (f32_of(t.sim(q, p)) as f64 * SCALE_CEMANTIX).round() as i32
}

fn place(t: &Toy, m: &RankModel, p: u32, q: u32) -> Option<RankSlot> {
    let step = f64_of(m.window).ln().max(1e-6);
    let r = rank(t.v.ranks.as_ref()?, q as usize, f32_of(t.sim(q, p)))?;
    Some(RankSlot {
        rank: double(r),
        slot: (r.ln() / step).floor() as i32,
    })
}

fn next_guess(t: &Toy, s: &Solver<'_>) -> cemantix_core::guess::Choice {
    let m = match s.scoring {
        Scoring::Rank(m) => m,
        Scoring::Cosine { .. } => RankModel::quelmot(),
    };
    let g = Gauge {
        slot: |p: u32, q: u32| slot(t, p, q),
        place: |p: u32, q: u32| place(t, &m, p, q),
        bits: entropy_bits,
        floor_quotient: double((f64_of(m.top) - f64_of(m.floor)) / f64_of(m.alpha)),
        reach: double(t.v.ranks.as_ref().map(|x| x.reach() as f64).unwrap_or(1.0)),
    };
    s.next_guess(&g)
}

fn evaluate(t: &Toy, s: &Solver<'_>, idx: u32) -> Weight {
    let m = match s.scoring {
        Scoring::Rank(m) => m,
        Scoring::Cosine { .. } => RankModel::quelmot(),
    };
    let g = Gauge {
        slot: |p: u32, q: u32| slot(t, p, q),
        place: |p: u32, q: u32| place(t, &m, p, q),
        bits: entropy_bits,
        floor_quotient: double((f64_of(m.top) - f64_of(m.floor)) / f64_of(m.alpha)),
        reach: double(t.v.ranks.as_ref().map(|x| x.reach() as f64).unwrap_or(1.0)),
    };
    s.evaluate(idx, &g)
}

#[test]
fn table_is_exact_at_the_tabulated_levels() {
    let t = toy_with_ranks(200, 16);
    let lex = t.v.plausible_indices();
    let table = t.v.ranks.as_ref().unwrap();
    let sim = |i: u32, j: u32| t.sim(i, j);
    for w in [0usize, 7, 91, 199] {
        let ranks = t.v.exact_ranks(w as u32, &lex, &sim);
        for &lv in &TOY_LEVELS {
            let k = ranks.iter().position(|&r| r == lv).unwrap();
            let s = dot(t.row(w as u32), t.row(lex[k]));
            let est = rank(table, w, s).unwrap();
            assert!(
                (est - lv as f64).abs() < 1e-6 * lv as f64 + 1e-6,
                "word {w}, rank {lv}: estimated {est}"
            );
        }
    }
}

#[test]
fn table_interpolates_between_levels_and_stays_monotone() {
    let t = toy_with_ranks(200, 16);
    let lex = t.v.plausible_indices();
    let table = t.v.ranks.as_ref().unwrap();
    let sim = |i: u32, j: u32| t.sim(i, j);
    for w in [3usize, 42, 150] {
        let ranks = t.v.exact_ranks(w as u32, &lex, &sim);
        let mut last = 0f64;
        for k in 0..lex.len() {
            let r = ranks[k];
            if r == 0 || r > 80 {
                continue;
            }
            let s = dot(t.row(w as u32), t.row(lex[k]));
            let est = rank(table, w, s).unwrap();
            assert!(
                est >= r as f64 / 1.35 && est <= r as f64 * 1.35,
                "word {w}, true rank {r}, estimated {est}"
            );
        }
        // rank must decrease as similarity grows
        for s in 0..40 {
            let sim = -0.4 + s as f32 * 0.02;
            let est = rank(table, w, sim).unwrap();
            assert!(est <= last || last == 0.0, "not monotone at {sim}");
            last = est;
        }
    }
}

#[test]
fn table_survives_the_f16_roundtrip() {
    let t = toy_with_ranks(120, 16);
    let lex = t.v.plausible_indices();
    let table = t.v.ranks.as_ref().unwrap();
    let levels = TOY_LEVELS.to_vec();
    let back =
        RankTable::from_f16(t.v.n(), &lex, &levels, &table.to_f16()).expect("size mismatch");
    for (a, b) in table.sims.iter().zip(back.sims.iter()) {
        let (a, b) = (f32_of(*a), f32_of(*b));
        assert!((a - b).abs() <= a.abs() * 1e-3 + 1e-6);
    }
    assert!(RankTable::from_f16(t.v.n(), &lex, &levels, &[0u8; 3]).is_none());
}

/// Play a rank game against exact local ranks and check the secret is never dropped.
fn rank_game(model: RankModel, guesses: &[usize]) -> (usize, bool) {
    let t = toy_with_ranks(300, 16);
    let lex = t.v.plausible_indices();
    let sim = |i: u32, j: u32| t.sim(i, j);
    let secret = 123usize;
    let ranks = t.v.exact_ranks(secret as u32, &lex, &sim);
    let mut solver = Solver::with_scoring(&t.v, Scoring::Rank(model));
    for &g in guesses {
        let score = score_at(&model, ranks[g] as f64);
        observe(&t, &mut solver, lex[g], score);
        assert!(
            solver.alive[secret],
            "secret dropped after guessing {g} (rank {}, score {score})",
            ranks[g]
        );
    }
    (solver.alive_count, solver.alive[secret])
}

#[test]
fn rank_constraints_keep_the_secret_and_cut_the_field() {
    let model = model(1.0, -999.0);
    // guesses at assorted distances from the secret
    let (left, kept) = rank_game(model, &[5, 60, 200, 288]);
    assert!(kept);
    assert!(left < 300, "no candidate was ruled out ({left} left)");
}

#[test]
fn floored_scores_are_handled() {
    // floor at 950 => everything past local rank 50 is floored
    let model = model(1.0, 950.0);
    assert_eq!(floor_rank(&model), 50.0);
    assert_eq!(local_rank(&model, 950.0), None);
    assert_eq!(local_rank(&model, 990.0), Some(10.0));
    assert!(accepts(&model, 950.0, 200.0, 1, 80.0));
    assert!(!accepts(&model, 950.0, 3.0, 1, 80.0));
    let (_, kept) = rank_game(model, &[5, 60, 200]);
    assert!(kept);
}

#[test]
fn rank_solver_proposes_a_guess_and_scores_it() {
    let t = toy_with_ranks(300, 16);
    let solver = Solver::with_scoring(&t.v, Scoring::quelmot());
    let ch = next_guess(&t, &solver);
    assert!(ch.candidates == 300 && ch.probes > 0);
    assert!(f64_of(ch.entropy) > 0.0, "a probe should split something");
    let w = evaluate(&t, &solver, ch.idx);
    assert!(f64_of(w.entropy.bits) >= 0.0 && w.buckets >= 1);
}

#[test]
fn cosine_solver_still_trilaterates() {
    let t = toy(400, 16);
    let secret = 77usize;
    let sims = t.v.dots(secret as u32, &|i: u32, j: u32| t.sim(i, j));
    let mut solver = Solver::new(&t.v);
    for g in [3usize, 44, 300] {
        let score = round_scale(f32_of(sims[g]) as f64, SCALE_CEMANTIX);
        observe(&t, &mut solver, g as u32, score);
    }
    assert!(solver.alive[secret]);
    assert_eq!(solver.alive_count, 1);
}

#[test]
fn stem_filter_catches_morphological_relatives() {
    // Pure strings, no model: these are the pairs that would hand the answer over.
    assert!(shares_stem("blog", "blogueur"));
    assert!(shares_stem("blog", "blogosphère"));
    assert!(shares_stem("démonstration", "démontrer"));
    assert!(shares_stem("oeuvre", "oeuvrer"));
    assert!(shares_stem("Fantôme", "fantome"));
    assert!(!shares_stem("fantôme", "zombie"));
    assert!(!shares_stem("pilier", "poutre"));
    assert!(!shares_stem("cactus", "bambou"));
    // A short word inside a long one is not a family: « art » is not « partage ».
    assert!(!shares_stem("art", "partage"));
    assert_eq!(fold_accents("Démonstration"), "demonstration");
    assert_eq!(fold_accents("cœur"), "coeur");
}

/// Drive the toy solver down to the single candidate `secret`.
fn pinned(t: &Toy, secret: usize) -> Solver<'_> {
    let sims = t.v.dots(secret as u32, &|i: u32, j: u32| t.sim(i, j));
    let mut solver = Solver::new(&t.v);
    for g in [3usize, 44, 300] {
        let score = round_scale(f32_of(sims[g]) as f64, SCALE_CEMANTIX);
        observe(t, &mut solver, g as u32, score);
    }
    assert_eq!(solver.alive_count, 1, "the fixture should pin one candidate");
    solver
}

#[test]
fn hints_are_locked_while_the_field_is_wide_open() {
    let t = toy(400, 16);
    let sim = |i: u32, j: u32| t.sim(i, j);
    let s = Solver::new(&t.v);
    assert!(matches!(
        s.hint(0, &vec![], &sim),
        Hint::Locked(HintLocked::TooMany { .. })
    ));
    assert!(s.warmth(7, &sim).is_none());
}

#[test]
fn scattered_candidates_are_refused() {
    let t = toy(400, 16);
    let sim = |i: u32, j: u32| t.sim(i, j);
    let mut s = Solver::new(&t.v);
    // Two nearly orthogonal words: no field is common to both.
    let sims: Vec<f32> = t.v.dots(0, &sim).into_iter().map(f32_of).collect();
    let far = (1..400)
        .min_by(|&a: &usize, &b: &usize| sims[a].abs().total_cmp(&sims[b].abs()))
        .unwrap();
    s.alive.iter_mut().for_each(|a| *a = false);
    s.alive[0] = true;
    s.alive[far] = true;
    s.alive_count = 2;
    assert!(
        f32_of(s.hint_cohesion(&vec![0, far as u32], &sim)) < f32::from_bits(HINT_MIN_COHESION)
    );
    assert!(matches!(
        s.hint(0, &vec![], &sim),
        Hint::Locked(HintLocked::Scattered { alive: 2 })
    ));
    assert!(s.warmth(5, &sim).is_none());
}

#[test]
fn the_ladder_ends() {
    let t = toy(400, 16);
    let sim = |i: u32, j: u32| t.sim(i, j);
    let s = pinned(&t, 77);
    assert_eq!(HintLevel::LADDER.len(), 3);
    assert_eq!(
        s.hint(HintLevel::LADDER.len(), &vec![], &sim),
        Hint::Locked(HintLocked::Ended)
    );
}

#[test]
fn hints_never_name_a_candidate_a_banned_or_a_played_word() {
    let t = toy(400, 16);
    let sim = |i: u32, j: u32| t.sim(i, j);
    let secret = 77usize;
    let mut s = pinned(&t, secret);
    s.ban(120);
    let mut revealed: Vec<u32> = Vec::new();
    for level in 0..HintLevel::LADDER.len() {
        let Hint::Words { words, .. } = s.hint(level, &revealed, &sim) else {
            panic!("rung {level} should be available on a pinned candidate");
        };
        for &w in &words {
            let i = w as usize;
            assert!(!s.alive[i], "a candidate was revealed");
            assert_ne!(i, secret, "the secret was revealed");
            assert!(!s.banned[i], "a banned word was revealed");
            assert!(
                !s.obs.iter().any(|o| o.idx == w),
                "an already played word was revealed"
            );
            assert!(!revealed.contains(&w), "a word was handed out on two rungs");
        }
        revealed.extend(words);
    }
}

#[test]
fn the_ladder_gets_closer_rung_by_rung() {
    let t = toy(400, 16);
    let sim = |i: u32, j: u32| t.sim(i, j);
    let secret = 77usize;
    let s = pinned(&t, secret);
    let mut revealed: Vec<u32> = Vec::new();
    let mut fits = Vec::new();
    for level in 0..HintLevel::LADDER.len() {
        let Hint::Words { words, .. } = s.hint(level, &revealed, &sim) else {
            panic!("rung {level} should be available");
        };
        let mean: f32 = words
            .iter()
            .map(|&w| dot(t.row(w), t.row(secret as u32)))
            .sum::<f32>()
            / words.len() as f32;
        fits.push(mean);
        revealed.extend(words);
    }
    assert!(
        fits.windows(2).all(|p| p[1] > p[0]),
        "each rung must sit closer to the secret than the last: {fits:?}"
    );
}

#[test]
fn a_rung_does_not_repeat_itself() {
    let t = toy(400, 16);
    let sim = |i: u32, j: u32| t.sim(i, j);
    let s = pinned(&t, 77);
    let Hint::Words { words, .. } = s.hint(0, &vec![], &sim) else {
        panic!("the wide rung should be available");
    };
    assert!(words.len() > 1);
    for (k, &a) in words.iter().enumerate() {
        for &b in &words[k + 1..] {
            assert!(
                dot(t.row(a), t.row(b)) <= f32::from_bits(HINT_DIVERSITY),
                "two words of one rung say the same thing"
            );
            assert!(!shares_stem(
                &t.v.words[a as usize],
                &t.v.words[b as usize]
            ));
        }
    }
}

#[test]
fn hints_are_deterministic() {
    // A revealed rung is shown for ever, so a selector that reordered ties would change it.
    let t = toy(400, 16);
    let sim = |i: u32, j: u32| t.sim(i, j);
    let s = pinned(&t, 77);
    assert_eq!(s.hint(1, &vec![], &sim), s.hint(1, &vec![], &sim));
}

#[test]
fn a_short_band_is_widened_before_it_is_declared_exhausted() {
    let t = toy(400, 16);
    let sim = |i: u32, j: u32| t.sim(i, j);
    let s = pinned(&t, 77);
    // A band with room for two words asked for six: widening must find them.
    let words = s.hint_words(&vec![77], 2, 4, 6, &vec![], &sim);
    assert!(words.len() > 3, "the band was not widened ({words:?})");
}

#[test]
fn warmth_compares_against_the_players_own_best_guess() {
    let t = toy(400, 16);
    let sim = |i: u32, j: u32| t.sim(i, j);
    let secret = 77usize;
    let s = pinned(&t, secret);
    let w = s
        .warmth(secret as u32, &sim)
        .expect("one candidate unlocks warmth");
    assert!((f32_of(w.fit) - 1.0).abs() < 1e-5, "the secret fits itself");
    let (best, best_fit) = w.best.expect("three words were played");
    assert!(s.obs.iter().any(|o| o.idx == best));
    assert!(f32_of(best_fit) < f32_of(w.fit));
}

// ── the solver ──

#[test]
fn a_new_solver_starts_from_the_plausible_words() {
    let t = toy(60, 8);
    let s = Solver::new(&t.v);
    assert_eq!(s.alive, t.v.plausible);
    assert_eq!(s.alive_count, 60);
    assert_eq!((s.max_probes, s.max_targets), (2000, 4000));
    assert!(s.restricted && s.tol_level == 0 && s.obs.is_empty());
    let r = Solver::with_scoring(&t.v, Scoring::quelmot());
    assert_eq!((r.max_probes, r.max_targets), (300, 1200));
}

#[test]
fn tolerances_follow_the_ladder() {
    let t = toy(30, 8);
    let mut s = Solver::new(&t.v);
    let shown: Vec<f64> = (0..5)
        .map(|l| {
            s.tol_level = l;
            match s.tol() {
                Tolerance::HalfWidth(x) => f64_of(x),
                Tolerance::WindowPower(_) => panic!("a cosine game has a half-width"),
            }
        })
        .collect();
    assert_eq!(shown, vec![1e-4, 2e-4, 5e-4, 1e-3, 3e-3]);
    for l in 0..5 {
        assert_eq!(shown[l], [1.0, 2.0, 5.0, 10.0, 30.0][l] / 10_000.0);
    }
    let mut r = Solver::with_scoring(&t.v, Scoring::quelmot());
    r.tol_level = 3;
    assert!(matches!(r.tol(), Tolerance::WindowPower(5)));
    assert_eq!(s.tol_label("0.003"), "±0.003");
    assert_eq!(r.tol_label("3.71"), "×÷3.71");
}

#[test]
fn the_tolerance_level_covers_the_model_error() {
    let level = |err: f64| tol_level_for(double(0.5 + err * SCALE_CEMANTIX));
    assert_eq!(level(0.0), 0);
    assert_eq!(level(4e-5), 0);
    assert_eq!(level(6e-5), 1);
    assert_eq!(level(1e-3), 4);
    assert_eq!(level(1.0), TOL_LEVELS - 1);
    assert_eq!(tol_level_for(double(f64::NAN)), TOL_LEVELS - 1);
}

#[test]
fn an_impossible_score_relaxes_the_solver_to_the_end() {
    let t = toy(100, 16);
    let mut s = Solver::new(&t.v);
    let info = observe(&t, &mut s, 5, 7.5);
    assert!(info.relaxed);
    assert_eq!((info.before, info.after), (100, 0));
    assert!(!s.restricted);
    assert_eq!(s.tol_level, 4);
    // a rank game keeps its prior
    let t = toy_with_ranks(100, 16);
    let mut r = Solver::with_scoring(&t.v, Scoring::Rank(model(1.0, -999.0)));
    observe(&t, &mut r, 5, 1000.0);
    observe(&t, &mut r, 6, 1000.0);
    assert!(r.restricted);
}

#[test]
fn a_small_error_widens_the_tolerance_just_enough() {
    let t = toy(300, 16);
    let mut s = Solver::new(&t.v);
    let secret = 42u32;
    for g in [7u32, 90, 200] {
        // every score is off by seven rounding steps
        let score = f32_of(t.sim(secret, g)) as f64 + 7e-4;
        observe(&t, &mut s, g, score);
    }
    assert!(s.alive[secret as usize]);
    assert_eq!(s.tol_level, 3);
    assert!(!s.restricted);
}

#[test]
fn the_order_of_the_scores_does_not_matter() {
    let t = toy(200, 4);
    let secret = 11u32;
    let play = |order: &[u32]| {
        let mut s = Solver::new(&t.v);
        for &g in order {
            observe(&t, &mut s, g, round_scale(f32_of(t.sim(secret, g)) as f64, 20.0));
        }
        (s.alive.clone(), s.tol_level)
    };
    assert_eq!(play(&[3, 50, 120]), play(&[120, 3, 50]));
}

#[test]
fn banned_words_are_no_candidates() {
    let t = toy(50, 8);
    let mut s = Solver::new(&t.v);
    s.ban(7);
    s.ban(7);
    s.ban(9);
    assert_eq!(s.alive_count, 48);
    assert_eq!(s.candidates().len(), 48);
    assert!(!s.candidates().contains(&7));
    assert_eq!(s.top(3), vec![0, 1, 2]);
    assert_eq!(s.top(1000), s.candidates());
    observe(&t, &mut s, 3, 9.0);
    assert!(!s.alive[7] && !s.alive[9] && !s.alive[3]);
}

#[test]
fn the_opener_is_played_first_unless_it_is_banned() {
    let mut t = toy(40, 8);
    t.v.opener = Some(17);
    let mut s = Solver::new(&t.v);
    assert_eq!(s.opener(), Some(17));
    let c = next_guess(&t, &s);
    assert_eq!((c.idx, c.buckets, c.probes, c.candidates), (17, 0, 0, 40));
    assert!(f64_of(c.entropy).is_nan());
    s.ban(17);
    let c = next_guess(&t, &s);
    assert_ne!(c.idx, 17);
    assert_eq!(c.probes, 39);
    let r = Solver::with_scoring(&t.v, Scoring::quelmot());
    assert_eq!(r.opener(), None);
}

#[test]
fn guesses_without_weighing() {
    let t = toy(30, 8);
    let mut s = Solver::new(&t.v);
    for i in 0..30 {
        if i != 12 {
            s.ban(i);
        }
    }
    let c = next_guess(&t, &s);
    assert_eq!((c.idx, c.buckets, c.probes, c.candidates), (12, 1, 1, 1));
    s.alive[12] = false;
    s.alive_count = 0;
    let c = next_guess(&t, &s);
    assert_eq!((c.idx, c.buckets, c.probes, c.candidates), (12, 0, 0, 0));
    s.ban(12);
    assert_eq!(next_guess(&t, &s).idx, 0);
}

#[test]
fn the_best_probe_is_chosen() {
    let t = toy(50, 8);
    let s = Solver::new(&t.v);
    let c = next_guess(&t, &s);
    let best = (0..50u32)
        .map(|p| f64_of(evaluate(&t, &s, p).entropy.bits))
        .fold(f64::NEG_INFINITY, f64::max);
    assert!((f64_of(c.entropy) - best).abs() <= 1e-9);
    assert_eq!((c.probes, c.candidates), (50, 50));
}

#[test]
fn ties_go_to_a_candidate_and_to_the_more_frequent_word() {
    let t = toy(20, 4);
    let mut s = Solver::new(&t.v);
    let w = |h: f64| Weight {
        entropy: Entropy {
            bits: double(h),
            bar: double(h + 1e-9),
        },
        buckets: 3,
    };
    let probes = vec![2, 5, 9];
    assert_eq!(s.pick(&probes, &vec![w(1.0), w(1.0), w(1.0)]).idx, 2);
    assert_eq!(s.pick(&probes, &vec![w(1.0), w(2.0), w(1.5)]).idx, 5);
    assert_eq!(s.pick(&probes, &vec![w(1.0), w(1.0 + 5e-10), w(0.5)]).idx, 2);
    s.ban(2);
    assert_eq!(s.pick(&probes, &vec![w(1.0), w(1.0), w(1.0)]).idx, 5);
    let c = s.pick(&probes, &vec![w(f64::NAN), w(1.0), w(1.0)]);
    assert_eq!((c.idx, c.buckets, c.probes, c.candidates), (5, 3, 3, 19));
}

#[test]
fn a_rank_game_also_weighs_the_hubs() {
    let t = toy_with_ranks(400, 8);
    let mut s = Solver::with_scoring(&t.v, Scoring::quelmot());
    s.alive.iter_mut().enumerate().for_each(|(i, a)| *a = i >= 390);
    s.alive_count = 10;
    s.banned[4] = true;
    let Plan::Weigh { probes, targets } = s.plan_guess() else {
        panic!("ten candidates have to be weighed");
    };
    assert_eq!(targets, (390..400).collect::<Vec<u32>>());
    // 300 hubs without the banned word, and the candidates behind them
    assert_eq!(probes.len(), 310);
    assert!(!probes.contains(&4));
    assert!(probes.contains(&300) && !probes.contains(&301) && probes.contains(&395));
    assert!(probes.windows(2).all(|p| p[0] < p[1]));
}

#[test]
fn long_lists_are_sampled_as_a_double_stride_does() {
    let v: Vec<u32> = (0..48_965).collect();
    for max in [1usize, 2, 7, 300, 1200, 2000, 4000, 48_964, 48_965, 60_000] {
        let expected: Vec<u32> = if v.len() <= max {
            v.clone()
        } else {
            let step = v.len() as f64 / max as f64;
            (0..max).map(|k| v[(k as f64 * step) as usize]).collect()
        };
        assert_eq!(cemantix_core::stride::stride_sample(&v, max), expected);
    }
    for len in [3usize, 10, 49, 997, 12_345] {
        let v: Vec<u32> = (0..len as u32).collect();
        for max in 1..len.min(60) {
            let step = len as f64 / max as f64;
            let expected: Vec<u32> =
                (0..max).map(|k| v[(k as f64 * step) as usize]).collect();
            assert_eq!(cemantix_core::stride::stride_sample(&v, max), expected);
        }
    }
    assert!(cemantix_core::stride::stride_sample(&vec![1, 2], 0).is_empty());
}

#[test]
fn partitions_count_their_buckets() {
    let seen: RefCell<Vec<usize>> = RefCell::new(Vec::new());
    let bits = |sizes: &Vec<usize>| {
        *seen.borrow_mut() = sizes.clone();
        entropy_bits(sizes)
    };
    let keys = [5, -2, 5, 9, -2, 5];
    let slot = |_: u32, t: u32| keys[t as usize];
    let w = partition_entropy(3, &vec![0, 1, 2, 3, 4, 5], &slot, &bits);
    assert_eq!(*seen.borrow(), vec![2, 3, 1]);
    assert_eq!(w.buckets, 3);
    assert!((f64_of(w.entropy.bits) - 1.459_147_917_027_245).abs() < 1e-12);
    // the probe itself, what is past the floor and what has no row
    let place = |_: u32, t: u32| match t {
        0 => None,
        1 => Some(RankSlot { rank: double(100.0), slot: 7 }),
        2 => Some(RankSlot { rank: double(3.0), slot: 4 }),
        _ => Some(RankSlot { rank: double(50.0), slot: 9 }),
    };
    let w = rank_partition_entropy(3, &vec![0, 1, 2, 3, 4], double(50.0), &place, &bits);
    assert_eq!(*seen.borrow(), vec![1, 1, 3]);
    assert_eq!(w.buckets, 3);
}

#[test]
fn a_rank_window_has_two_ends() {
    let m = model(1.0, -999.0);
    // score 900 implies rank 100: accepted from 100 / 1.3 - 0.5 to 130.5
    assert!(!accepts(&m, 900.0, 76.0, 1, 2000.0));
    assert!(accepts(&m, 900.0, 77.0, 1, 2000.0));
    assert!(accepts(&m, 900.0, 130.5, 1, 2000.0));
    assert!(!accepts(&m, 900.0, 131.0, 1, 2000.0));
    assert!(accepts(&m, 900.0, 131.0, 2, 2000.0));
    // past the table only the lower end holds
    assert!(accepts(&m, 900.0, 1e6, 1, 80.0));
    assert!(accepts(&m, 900.0, 79.5, 1, 80.0));
    assert!(!accepts(&m, 900.0, 60.0, 1, 80.0));
    assert_eq!(score_at(&m, 12.0), 988.0);
    assert_eq!(score_at(&m, 1e5), -999.0);
    assert_eq!(local_rank(&m, 1000.0), Some(1.0));
}

#[test]
fn solved_by_score_or_by_rank() {
    let c = Scoring::cemantix();
    assert!(!c.is_rank());
    assert!(c.solved(double(0.1), Some(1000)));
    assert!(!c.solved(double(0.1), Some(999)));
    assert!(c.solved(double(0.99995), None));
    assert!(!c.solved(double(0.9999), None));
    let q = Scoring::quelmot();
    assert!(q.is_rank());
    assert!(q.solved(double(999.5), None));
    assert!(!q.solved(double(999.0), Some(1000)));
    assert!(matches!(Scoring::default(), Scoring::Cosine { .. }));
    assert_eq!(f64_of(RankModel::default().window), 1.3);
    assert_eq!(f64_of(RankModel::default().alpha), 1.5);
}

#[test]
fn relaxing_only_adds_words() {
    let t = toy(300, 6);
    let o = Observation {
        idx: 8,
        score: double(0.25),
    };
    let scoring = Scoring::cemantix();
    let e = evidence(&t, &scoring, &o);
    for j in 0..300 {
        for level in 1..TOL_LEVELS {
            if e.accepts(&scoring, o.score, level - 1, j, 300) {
                assert!(e.accepts(&scoring, o.score, level, j, 300));
            }
        }
    }
}

// ── hints ──

#[test]
fn a_closed_band_gives_no_words() {
    let t = toy(50, 8);
    let sim = |i: u32, j: u32| t.sim(i, j);
    let s = pin(&t.v, 10);
    assert!(s.hint_words(&vec![], 2, 4, 6, &vec![], &sim).is_empty());
    assert!(s.hint_words(&vec![10], 2, 4, 0, &vec![], &sim).is_empty());
    // the wide rung lies past a lexicon of fifty words
    assert_eq!(s.hint(0, &vec![], &sim), Hint::Locked(HintLocked::Exhausted));
    let mut none = pin(&t.v, 10);
    none.ban(10);
    assert_eq!(
        none.hint(0, &vec![], &sim),
        Hint::Locked(HintLocked::NoCandidate)
    );
    assert!(none.warmth(3, &sim).is_none());
}

#[test]
fn a_band_holds_its_first_position_and_not_its_end() {
    let t = toy(60, 8);
    let sim = |i: u32, j: u32| t.sim(i, j);
    let s = pin(&t.v, 10);
    let mut order: Vec<u32> = (0..60).collect();
    order.sort_by(|&a, &b| {
        f32_of(t.sim(b, 10))
            .total_cmp(&f32_of(t.sim(a, 10)))
            .then(a.cmp(&b))
    });
    // forty positions wide, so that nothing has to be widened
    let words = s.hint_words(&vec![10], 3, 43, 2, &vec![], &sim);
    assert_eq!(words[0], order[3]);
    // a band that ends with the lexicon is walked to its end, and no further
    let all = s.hint_words(&vec![10], 58, 60, 5, &vec![], &sim);
    assert!(all.iter().all(|w| *w == order[58] || *w == order[59]));
}

#[test]
fn hint_names() {
    assert_eq!(HintLevel::at(0), Some(HintLevel::Field));
    assert_eq!(HintLevel::at(2), Some(HintLevel::Near));
    assert_eq!(HintLevel::at(3), None);
    assert_eq!(HintLevel::Field.band(), (200, 900, 4));
    assert_eq!(HintLevel::Tight.band(), (25, 120, 3));
    assert_eq!(HintLevel::Near.band(), (2, 12, 1));
    let names: Vec<&str> = HintLevel::LADDER.iter().map(|l| l.name()).collect();
    assert_eq!(names, vec!["field", "tight", "near"]);
    let locked = [
        HintLocked::NoCandidate,
        HintLocked::TooMany { alive: 9 },
        HintLocked::Scattered { alive: 2 },
        HintLocked::Exhausted,
        HintLocked::Ended,
    ];
    let names: Vec<&str> = locked.iter().map(|l| l.name()).collect();
    assert_eq!(
        names,
        vec!["no_candidate", "too_many", "scattered", "exhausted", "ended"]
    );
}

#[test]
fn scores_of_hints_are_the_smallest_cosines() {
    let t = toy(80, 8);
    let sim = |i: u32, j: u32| t.sim(i, j);
    let s = Solver::new(&t.v);
    let targets = vec![4, 30, 61];
    let mut out = Vec::new();
    s.hint_scores(&targets, &sim, &mut out);
    assert_eq!(out.len(), 80);
    for j in 0..80u32 {
        let low = targets
            .iter()
            .map(|&k| f32_of(t.sim(j, k)))
            .fold(f32::INFINITY, f32::min);
        assert_eq!(f32_of(out[j as usize]), low);
    }
    let low = f32_of(t.sim(4, 30))
        .min(f32_of(t.sim(4, 61)))
        .min(f32_of(t.sim(30, 61)));
    assert_eq!(f32_of(s.hint_cohesion(&targets, &sim)), low);
    assert_eq!(f32_of(s.hint_cohesion(&vec![9], &sim)), 1.0);
}

#[test]
fn a_ladder_is_climbed_once() {
    let t = toy(400, 16);
    let sim = |i: u32, j: u32| t.sim(i, j);
    let rungs = ladder(&t.v, 77, &sim);
    assert_eq!(rungs.len(), 3);
    assert_eq!(rungs[0].1.len(), 4);
    assert_eq!(rungs[1].1.len(), 3);
    assert_eq!(rungs[2].1.len(), 1);
    let again = climb(&pin(&t.v, 77), &sim);
    assert_eq!(rungs.len(), again.len());
    for (a, b) in rungs.iter().zip(again.iter()) {
        assert!(a.0 == b.0 && a.1 == b.1);
    }
    let mut audit = RungAudit::new();
    for (level, words) in &rungs {
        audit.add_rung(&t.v, 77, *level, words, &sim);
    }
    assert_eq!((audit.short, audit.leaks, audit.rare), (0, 0, 0));
    assert_eq!(audit.sims.len(), 8);
    let mut sorted: Vec<f32> = audit.sims.iter().map(|&s| f32_of(s)).collect();
    sorted.sort_by(f32::total_cmp);
    assert_eq!(audit.median().map(f32_of), Some(sorted[4]));
    assert!(RungAudit::new().median().is_none());
    audit.add_rung(&t.v, 77, HintLevel::Tight, &vec![77], &sim);
    assert_eq!((audit.short, audit.leaks), (1, 0));
}

#[test]
fn an_audit_counts_leaks_and_rare_words() {
    let words = ["blog", "blogueur", "zombie"]
        .iter()
        .map(|w| w.to_string())
        .chain((3..20_002).map(|i| format!("w{i}")))
        .collect::<Vec<String>>();
    let n = words.len();
    let v = Vectors::new(
        "names".to_string(),
        1,
        words,
        vec![single(1.0); n],
        PRIOR_RANK,
    );
    let sim = |_: u32, _: u32| single(0.5);
    let mut audit = RungAudit::new();
    audit.add_rung(&v, 0, HintLevel::Near, &vec![1], &sim);
    assert_eq!((audit.short, audit.leaks, audit.rare), (0, 1, 0));
    audit.add_rung(&v, 0, HintLevel::Field, &vec![2, 20_000], &sim);
    assert_eq!((audit.short, audit.leaks, audit.rare), (1, 1, 1));
}

#[test]
fn the_lines_of_an_audit() {
    let shown = vec!["bateau (0.412)".to_string(), "voile (0.398)".to_string()];
    assert_eq!(
        rung_line(HintLevel::Near, &shown),
        format!("  {:<6} {}", "near", "bateau (0.412), voile (0.398)")
    );
    let counts = RungAudit {
        short: 2,
        leaks: 0,
        rare: 13,
        sims: vec![],
    };
    assert_eq!(
        audit_line(HintLevel::Tight, &counts, "0.254"),
        format!("{:<7} {:>4}–{:<6} {:>4}  {:>6}  {:>6}  {:>5}  0.254", "tight", 25, 120, 3, 2, 0, 13)
    );
}

#[test]
fn rows_of_a_built_table_decrease() {
    let t = toy_with_ranks(300, 16);
    let table = t.v.ranks.as_ref().unwrap();
    assert_eq!(table.rows(), 300);
    for row in table.sims.chunks(table.levels.len()) {
        assert!(row.windows(2).all(|w| f32_of(w[0]) >= f32_of(w[1])));
    }
    // the first level is the nearest neighbour
    let nearest = (1..300u32).map(|j| f32_of(t.sim(j, 0))).fold(-1.0, f32::max);
    assert_eq!(f32_of(table.sims[0]), nearest);
}

#[test]
fn a_wider_window_accepts_more() {
    let m = RankModel::quelmot();
    for score in [-999.0, -400.0, 0.0, 700.0, 940.0, 999.0] {
        for k in 1..RANK_TOL_MULT.len() {
            for r in 1..2500 {
                let narrow = accepts(&m, score, r as f64, RANK_TOL_MULT[k - 1], 2000.0);
                let wide = accepts(&m, score, r as f64, RANK_TOL_MULT[k], 2000.0);
                assert!(wide || !narrow, "{score} {k} {r}");
            }
        }
    }
    // 940 points stand for rank 40: the window reaches from 30.27 to 52.5
    assert!(!accepts(&m, 940.0, 53.0, 1, 2000.0));
    assert!(accepts(&m, 940.0, 53.0, 2, 2000.0));
}

// ── games against the local oracle ──

fn answer(o: &LocalOracle, idx: u32) -> ScoreResp {
    let m = match o.scoring {
        Scoring::Rank(m) => m,
        Scoring::Cosine { .. } => RankModel::quelmot(),
    };
    let jitter = f64_of(o.jitter);
    let round = |s: Single| double(round_scale(f32_of(s) as f64, SCALE_CEMANTIX));
    let site = move |alpha: Double, r: u32, noise: Option<u64>| {
        let factor = match noise {
            None => 1.0,
            Some(u) => 1.0 + jitter * (2.0 * (u as f64 / (1u64 << 53) as f64) - 1.0),
        };
        double(f64_of(m.top) - (f64_of(alpha) * r as f64 * factor).round())
    };
    o.score(idx, &round, &site)
}

fn play(t: &Toy, scoring: Scoring, secret: u32, forced: Vec<u32>) -> Result<(u32, String), Stop> {
    let sim = |i: u32, j: u32| t.sim(i, j);
    let oracle = LocalOracle::new(&t.v, secret, scoring, &sim);
    let mut game = Game::start(&t.v, scoring, forced)?;
    let m = match scoring {
        Scoring::Rank(m) => m,
        Scoring::Cosine { .. } => RankModel::quelmot(),
    };
    let g = Gauge {
        slot: |p: u32, q: u32| slot(t, p, q),
        place: |p: u32, q: u32| place(t, &m, p, q),
        bits: entropy_bits,
        floor_quotient: double((f64_of(m.top) - f64_of(m.floor)) / f64_of(m.alpha)),
        reach: double(t.v.ranks.as_ref().map(|x| x.reach() as f64).unwrap_or(1.0)),
    };
    loop {
        let turn = game.next_turn(&g)?;
        let resp = answer(&oracle, turn.choice.idx);
        let ev = |o: Observation| evidence(t, &scoring, &o);
        if let Outcome::Solved(r) = game.answer(turn.choice.idx, resp, 12, &ev)? {
            assert_eq!(r.total_ms, 12);
            return Ok((r.guesses, r.word));
        }
    }
}

#[test]
fn a_cosine_game_is_won() {
    let t = toy(300, 16);
    let (guesses, word) = play(&t, Scoring::cemantix(), 123, vec![]).unwrap();
    assert_eq!(word, t.v.words[123]);
    assert!(guesses <= 4);
    let (guesses, _) = play(&t, Scoring::cemantix(), 123, vec![123]).unwrap();
    assert_eq!(guesses, 1);
    let (guesses, _) = play(&t, Scoring::cemantix(), 123, vec![5, 6, 7, 123]).unwrap();
    assert_eq!(guesses, 4);
}

#[test]
fn a_rank_game_is_won() {
    let t = toy_with_ranks(300, 16);
    let scoring = Scoring::Rank(model(1.0, -999.0));
    let (_, word) = play(&t, scoring, 50, vec![]).unwrap();
    assert_eq!(word, t.v.words[50]);
    let bare = toy(30, 8);
    assert!(matches!(
        Game::start(&bare.v, scoring, vec![]),
        Err(Stop::NoRanks)
    ));
}

/// The guesses and scores of a game whose oracle gives the ‰ ranks that `p` makes of the
/// guesses.
fn transcript(t: &Toy, secret: u32, p: fn(u32) -> Option<u32>) -> Vec<(u32, u64)> {
    let scoring = Scoring::cemantix();
    let sim = |i: u32, j: u32| t.sim(i, j);
    let oracle = LocalOracle::new(&t.v, secret, scoring, &sim);
    let mut game = Game::start(&t.v, scoring, vec![8]).ok().unwrap();
    let m = RankModel::quelmot();
    let g = Gauge {
        slot: |p: u32, q: u32| slot(t, p, q),
        place: |p: u32, q: u32| place(t, &m, p, q),
        bits: entropy_bits,
        floor_quotient: double(1.0),
        reach: double(1.0),
    };
    let ev = |o: Observation| evidence(t, &scoring, &o);
    let mut told = Vec::new();
    loop {
        let idx = game.next_turn(&g).ok().unwrap().choice.idx;
        let ScoreResp::Score { s, .. } = answer(&oracle, idx) else {
            panic!("the oracle knows every word");
        };
        told.push((idx, s.bits));
        let resp = ScoreResp::Score {
            s,
            p: p(idx),
            solvers: p(idx).map(|x| x as u64),
        };
        if let Ok(Outcome::Solved(_)) = game.answer(idx, resp, 0, &ev) {
            return told;
        }
    }
}

#[test]
fn percentiles_change_no_game() {
    let t = toy(300, 16);
    for secret in [5, 123, 299] {
        let bare = transcript(&t, secret, |_| None);
        assert!(bare.len() > 1);
        assert_eq!(transcript(&t, secret, |i| Some(i % 999)), bare);
        assert_eq!(transcript(&t, secret, |_| Some(999)), bare);
    }
}

#[test]
fn the_pick_is_within_the_margin() {
    let t = toy(40, 8);
    let weigh = |h: f64| Weight {
        entropy: Entropy {
            bits: double(h),
            bar: double(h + 1e-9),
        },
        buckets: 3,
    };
    // in a cosine game every probe is a candidate: the first of those within the margin wins
    let s = Solver::new(&t.v);
    let w: Vec<Weight> = [1.0, 1.0 + 0.9e-9, 1.0 + 2.5e-9, 1.0 + 3e-9].map(weigh).to_vec();
    let c = s.pick(&vec![3, 5, 7, 9], &w);
    assert_eq!((c.idx, c.entropy), (7, w[2].entropy.bits));
    // a candidate is preferred within the margin, here at the cost of two of them
    let mut s = Solver::with_scoring(&t.v, Scoring::quelmot());
    s.ban(3);
    s.ban(5);
    let w: Vec<Weight> = [1.0, 1.0 + 0.9e-9, 1.0 - 0.9e-9].map(weigh).to_vec();
    let c = s.pick(&vec![3, 5, 7], &w);
    assert_eq!(c.idx, 7);
    assert!(w[2].entropy.bar.lt(w[1].entropy.bits));
    assert!(!w[2].entropy.bar.lt(w[0].entropy.bits));
    assert!(!w[0].entropy.bar.lt(w[1].entropy.bits));
}

#[test]
fn the_true_rank_is_always_accepted() {
    let m = RankModel::quelmot();
    for r in 1..4000 {
        let score = score_at(&m, r as f64);
        for k in RANK_TOL_MULT {
            assert!(accepts(&m, score, r as f64, k, 2000.0), "{r} {k}");
        }
    }
}

#[test]
fn unknown_words_are_struck_out_until_there_are_too_many() {
    let t = toy(120, 8);
    let ev = |o: Observation| evidence(&t, &Scoring::cemantix(), &o);
    let mut game = Game::start(&t.v, Scoring::cemantix(), vec![]).unwrap();
    for i in 0..50 {
        let Ok(Outcome::Struck { word, message }) =
            game.answer(i, ScoreResp::Unknown("inconnu".to_string()), 0, &ev)
        else {
            panic!("an unknown word is struck out");
        };
        assert_eq!(word, t.v.words[i as usize]);
        assert_eq!(message, "inconnu");
        assert!(game.solver.banned[i as usize]);
    }
    assert_eq!(game.guesses, 0);
    let Err(stop) = game.answer(50, ScoreResp::Unknown("x".to_string()), 0, &ev) else {
        panic!("fifty-one unknown words in a row are too many");
    };
    assert_eq!(stop, Stop::TooManyUnknown);
    assert!(!game.solver.banned[50]);
    assert_eq!(stop.message(), "trop de mots inconnus d'affilée");
}

#[test]
fn a_known_word_ends_the_streak() {
    let t = toy(120, 8);
    let ev = |o: Observation| evidence(&t, &Scoring::cemantix(), &o);
    let mut game = Game::start(&t.v, Scoring::cemantix(), vec![]).unwrap();
    for i in 0..50 {
        assert!(game
            .answer(i, ScoreResp::Unknown(String::new()), 0, &ev)
            .is_ok());
    }
    let score = ScoreResp::Score {
        s: double(0.1),
        p: Some(4),
        solvers: Some(77),
    };
    let Ok(Outcome::Narrowed {
        percentile,
        solvers,
        info,
        ..
    }) = game.answer(60, score, 0, &ev)
    else {
        panic!("a score narrows the candidates");
    };
    assert_eq!((percentile, solvers), (Some(4), Some(77)));
    assert_eq!(info.before, 70);
    assert_eq!((game.unknown_streak, game.guesses), (0, 1));
}

#[test]
fn a_game_is_given_up_after_sixty_guesses() {
    let t = toy(200, 8);
    let ev = |o: Observation| evidence(&t, &Scoring::cemantix(), &o);
    let mut game = Game::start(&t.v, Scoring::cemantix(), vec![]).unwrap();
    for i in 0..60 {
        assert!(game.begin_turn().is_ok());
        let score = ScoreResp::Score {
            s: double(0.0),
            p: None,
            solvers: None,
        };
        assert!(game.answer(i, score, 0, &ev).is_ok());
    }
    let Err(stop) = game.begin_turn() else {
        panic!("sixty guesses are enough");
    };
    assert_eq!(stop, Stop::TooLong(60));
    assert_eq!(stop.message(), "abandon après 60 coups");
    let mut closed = Game::start(&t.v, Scoring::cemantix(), vec![]).unwrap();
    let Err(stop) = closed.answer(0, ScoreResp::Closed, 0, &ev) else {
        panic!("a closed puzzle ends the game");
    };
    assert_eq!(
        stop.message(),
        "ce puzzle n'est plus ouvert (réponse {\"r\": true})"
    );
    assert_eq!(
        Stop::NoRanks.message(),
        "ce jeu se joue aux rangs : lancez d'abord « build-ranks »"
    );
}

#[test]
fn the_oracle_ranks_the_nearest_words() {
    let t = toy(1500, 8);
    let sim = |i: u32, j: u32| t.sim(i, j);
    let o = LocalOracle::new(&t.v, 9, Scoring::cemantix(), &sim);
    let mut order: Vec<u32> = (0..1500).collect();
    order.sort_by(|&a, &b| f32_of(t.sim(b, 9)).total_cmp(&f32_of(t.sim(a, 9))));
    assert_eq!(order[0], 9);
    assert_eq!(o.percentile(9), Some(1000));
    assert_eq!(o.percentile(order[1]), Some(999));
    assert_eq!(o.percentile(order[2]), Some(998));
    assert_eq!(o.percentile(order[999]), Some(1));
    assert_eq!(o.percentile(order[1000]), None);
    assert_eq!(o.percentile(order[1400]), None);
    assert_eq!(f32_of(o.thresh), f32_of(t.sim(order[1000], 9)));
    let ScoreResp::Score { s, p, solvers } = answer(&o, order[2]) else {
        panic!("the oracle knows every word");
    };
    assert_eq!(p, Some(998));
    assert_eq!(solvers, None);
    assert_eq!(
        f64_of(s),
        round_scale(f32_of(t.sim(order[2], 9)) as f64, SCALE_CEMANTIX)
    );
}

#[test]
fn the_oracle_scores_ranks() {
    let t = toy_with_ranks(100, 8);
    let sim = |i: u32, j: u32| t.sim(i, j);
    let lex = t.v.plausible_indices();
    let ranks = t.v.exact_ranks(30, &lex, &sim);
    let m = model(2.0, 900.0);
    let mut o = LocalOracle::new(&t.v, 30, Scoring::Rank(m), &sim);
    let score = |o: &LocalOracle, i: u32| match answer(o, i) {
        ScoreResp::Score { s, p: None, .. } => f64_of(s),
        _ => panic!("a rank game gives a score alone"),
    };
    assert_eq!(score(&o, 30), 1000.0);
    for i in 0..100u32 {
        if i != 30 {
            let expected = (1000.0 - 2.0 * ranks[i as usize] as f64).max(900.0);
            assert_eq!(score(&o, i), expected);
        }
    }
    o.set_alpha(double(3.0));
    let near = ranks.iter().position(|&r| r == 1).unwrap() as u32;
    assert_eq!(score(&o, near), 997.0);
    assert!(o.noise(3).is_none());
    let noisy = LocalOracle::with_lexicon(&t.v, 30, Scoring::Rank(m), double(0.15), 1, &sim);
    assert_eq!(noisy.noise(3), noisy.noise(3));
    let mut h: u64 = 1 ^ (30u64 << 32) ^ 3;
    h ^= h >> 33;
    h = h.wrapping_mul(0xff51_afd7_ed55_8ccd);
    h ^= h >> 33;
    assert_eq!(noisy.noise(3), Some(h >> 11));
}

// ── the solver that knows ‰ ranks ──

fn classic_observe(t: &Toy, s: &mut classic::Solver<'_>, idx: u32, score: f64, p: Option<u32>) {
    let gaps: Vec<Double> = (0..t.v.n() as u32)
        .map(|j| double((f32_of(t.sim(j, idx)) as f64 - score).abs()))
        .collect();
    let o = classic::Observation {
        idx,
        score: double(score),
        percentile: p,
    };
    let sim = |i: u32, j: u32| t.sim(i, j);
    let margin = |s: Single| single(f32_of(s) + 1e-6);
    s.observe(o, gaps, &sim, &margin);
}

#[test]
fn the_solver_with_percentiles_trilaterates_too() {
    let t = toy(400, 16);
    let mut s = classic::Solver::new(&t.v);
    for g in [3u32, 44, 300] {
        let score = round_scale(f32_of(t.sim(77, g)) as f64, SCALE_CEMANTIX);
        classic_observe(&t, &mut s, g, score, None);
    }
    assert_eq!(s.candidates(), vec![77]);
    assert_eq!(s.top(5), vec![77]);
    assert_eq!(f64_of(s.tol()), 1e-4);
}

#[test]
fn rank_constraints_cut_a_small_set_and_never_wipe_it() {
    let t = toy(1200, 8);
    let secret = 10u32;
    let sim = |i: u32, j: u32| t.sim(i, j);
    let guess = {
        let mut order: Vec<u32> = (0..1200).collect();
        order.sort_by(|&a, &b| f32_of(sim(b, secret)).total_cmp(&f32_of(sim(a, secret))));
        order[40]
    };
    let score = f32_of(t.sim(secret, guess)) as f64;
    let mut plain = classic::Solver::new(&t.v);
    plain.tol_level = 4;
    classic_observe(&t, &mut plain, guess, score, Some(960));
    let mut ranked = classic::Solver::new(&t.v);
    ranked.use_rank = true;
    ranked.tol_level = 4;
    classic_observe(&t, &mut ranked, guess, score, Some(960));
    assert!(plain.alive_count > 1 && plain.alive_count <= 120);
    assert!(ranked.alive[secret as usize]);
    assert!(ranked.alive_count < plain.alive_count);
    // a rank that fits no candidate leaves them all
    let mut wrong = classic::Solver::new(&t.v);
    wrong.use_rank = true;
    wrong.tol_level = 4;
    classic_observe(&t, &mut wrong, guess, score, Some(5_000));
    assert_eq!(wrong.alive, plain.alive);
}

#[test]
fn the_first_solver_picks_the_most_frequent_of_the_best() {
    let mut t = toy(60, 8);
    let slot_of = |t: &Toy, p: u32, q: u32| slot(t, p, q);
    let near = |a: Double, b: Double| (f64_of(a) - f64_of(b)).abs() <= 1e-9;
    {
        let s = classic::Solver::new(&t.v);
        let c = s.next_guess(&|p: u32, q: u32| slot_of(&t, p, q), &entropy_bits, &near);
        let w: Vec<f64> = (0..60u32)
            .map(|p| {
                let all: Vec<u32> = (0..60).collect();
                let w = partition_entropy(p, &all, &|p: u32, q: u32| slot(&t, p, q), &entropy_bits);
                f64_of(w.entropy.bits)
            })
            .collect();
        let best = w.iter().copied().fold(f64::NEG_INFINITY, f64::max);
        let first = w.iter().position(|h| (best - h).abs() <= 1e-9).unwrap();
        assert_eq!(c.idx as usize, first);
        assert_eq!((c.probes, c.candidates), (60, 60));
    }
    t.v.opener = Some(33);
    let mut s = classic::Solver::new(&t.v);
    let c = s.next_guess(&|p: u32, q: u32| slot_of(&t, p, q), &entropy_bits, &near);
    assert_eq!(c.idx, 33);
    assert!(f64_of(c.entropy).is_nan());
    for i in 0..59 {
        s.ban(i);
    }
    let c = s.next_guess(&|p: u32, q: u32| slot_of(&t, p, q), &entropy_bits, &near);
    assert_eq!((c.idx, c.buckets), (59, 1));
    s.ban(59);
    let c = s.next_guess(&|p: u32, q: u32| slot_of(&t, p, q), &entropy_bits, &near);
    assert_eq!((c.idx, c.candidates), (0, 0));
}
