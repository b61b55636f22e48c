//! The offline benchmark: which secrets are drawn, and how the games are counted.

use vstd::prelude::*;

use crate::flags::{lemma_set_positions, set_positions};
use crate::game::GameResult;
use crate::order::{by_key, lemma_ranked, rank_by, ranked};
use crate::text::{append_text, decimal, join, joined, pad_left, padded_left, texts, write_decimal};
use crate::vectors::Vectors;

verus! {

/// Games are counted by their number of guesses, those of 63 and more together.
pub const BINS: usize = 64;

/// A game of this many guesses is worth naming.
pub const LONG_GAME: u32 = 6;

/// How many long games are named.
pub const LONG_GAMES_SHOWN: usize = 10;

/// Width of the longest possible bar.
pub const BAR_WIDTH: u64 = 60;

/// The state of the generator that a seed starts.
pub open spec fn rng_start(seed: u64) -> u64 {
    (((seed * 0x9E37_79B9_7F4A_7C15) % 0x1_0000_0000_0000_0000 + 1) % 0x1_0000_0000_0000_0000)
        as u64
}

/// The state after the next step.
pub open spec fn rng_step(state: u64) -> u64 {
    (((state * 6364136223846793005) % 0x1_0000_0000_0000_0000 + 1442695040888963407)
        % 0x1_0000_0000_0000_0000) as u64
}

/// A generator of pseudo-random numbers: the same seed draws the same secrets.
pub struct Rng {
    pub state: u64,
}

impl Rng {
    pub fn new(seed: u64) -> (r: Self)
        ensures
            r.state == rng_start(seed),
    {
        Rng { state: seed.wrapping_mul(0x9E37_79B9_7F4A_7C15).wrapping_add(1) }
    }

    /// Draws one word of a pool.
    pub fn draw(&mut self, pool: &Vec<u32>) -> (r: u32)
        requires
            pool@.len() > 0,
        ensures
            final(self).state == rng_step(old(self).state),
            r == pool@[((final(self).state >> 33) as usize % pool@.len() as usize) as int],
    {
        self.state = self.state.wrapping_mul(6364136223846793005).wrapping_add(1442695040888963407);
        let at: usize = (self.state >> 33) as usize;
        pool[at % pool.len()]
    }
}

/// The plausible words among the first `prior`.
pub open spec fn pool_of(v: Vectors, prior: int) -> Seq<u32> {
    set_positions(v.plausible@).filter(|i: u32| i < prior)
}

/// The words that secrets are drawn from.
pub fn secret_pool(v: &Vectors, prior: usize) -> (r: Vec<u32>)
    requires
        v.wf(),
    ensures
        r@ == pool_of(*v, prior as int),
        forall|k: int| 0 <= k < r@.len() ==> (#[trigger] r@[k]) < v.words@.len(),
{
    let all = v.plausible_indices();
    proof {
        lemma_set_positions(v.plausible@);
    }
    let mut r: Vec<u32> = Vec::new();
    let ghost keep = |i: u32| i < prior as int;
    assert(all@.take(0).filter(keep) =~= Seq::empty()) by {
        reveal(Seq::filter);
    }
    for k in 0..all.len()
        invariant
            keep == (|i: u32| i < prior as int),
            forall|i: int| 0 <= i < all@.len() ==> (#[trigger] all@[i]) < v.words@.len(),
            r@ == all@.take(k as int).filter(keep),
            forall|k: int| 0 <= k < r@.len() ==> (#[trigger] r@[k]) < v.words@.len(),
    {
        let i: u32 = all[k];
        assert(all@[k as int] < v.words@.len());
        proof {
            assert(all@.take(k + 1).drop_last() =~= all@.take(k as int));
            reveal(Seq::filter);
        }
        if (i as usize) < prior {
            r.push(i);
        }
    }
    assert(all@.take(all@.len() as int) =~= all@);
    r
}

/// The sum of the first `m` bins.
pub open spec fn games_in(hist: Seq<usize>, m: int) -> nat
    decreases m,
{
    if m <= 0 {
        0
    } else {
        games_in(hist, m - 1) + hist[m - 1] as nat
    }
}

/// The number of guesses in the games of the first `m` bins.
pub open spec fn guesses_in(hist: Seq<usize>, m: int) -> nat
    decreases m,
{
    if m <= 0 {
        0
    } else {
        guesses_in(hist, m - 1) + ((m - 1) * hist[m - 1]) as nat
    }
}

/// The bin of a game.
pub open spec fn bin_of(guesses: u32) -> int {
    if guesses < BINS {
        guesses as int
    } else {
        BINS - 1
    }
}

/// The games played so far.
pub struct Tally {
    pub hist: Vec<usize>,
    pub total_ms: u64,
    /// The long games: their number of guesses and their secret.
    pub worst: Vec<(u32, String)>,
}

impl Tally {
    pub open spec fn wf(self) -> bool {
        self.hist@.len() == BINS
    }

    pub fn new() -> (r: Self)
        ensures
            r.wf(),
            r.hist@ == Seq::new(BINS as nat, |k: int| 0usize),
            r.total_ms == 0,
            r.worst@.len() == 0,
    {
        let hist: Vec<usize> = vec![0usize; BINS];
        assert(hist@ =~= Seq::new(BINS as nat, |k: int| 0usize));
        Tally { hist, total_ms: 0, worst: Vec::new() }
    }

    /// Counts a game.
    pub fn add_game(&mut self, game: GameResult)
        requires
            old(self).wf(),
            old(self).hist@[bin_of(game.guesses)] < usize::MAX,
            old(self).total_ms + game.total_ms <= u64::MAX,
        ensures
            final(self).wf(),
            final(self).hist@ == old(self).hist@.update(
                bin_of(game.guesses),
                (old(self).hist@[bin_of(game.guesses)] + 1) as usize,
            ),
            final(self).total_ms == old(self).total_ms + game.total_ms,
            final(self).worst@ == if game.guesses >= LONG_GAME {
                old(self).worst@.push((game.guesses, game.word))
            } else {
                old(self).worst@
            },
    {
        let at: usize = if (game.guesses as usize) < BINS {
            game.guesses as usize
        } else {
            BINS - 1
        };
        let c: usize = self.hist[at];
        self.hist.set(at, c + 1);
        self.total_ms = self.total_ms + game.total_ms;
        if game.guesses >= LONG_GAME {
            self.worst.push((game.guesses, game.word));
        }
    }

    /// How many games were played.
    pub fn games(&self) -> (r: u128)
        requires
            self.wf(),
        ensures
            r == games_in(self.hist@, BINS as int),
    {
        let mut sum: u128 = 0;
        for k in 0..BINS
            invariant
                self.wf(),
                sum == games_in(self.hist@, k as int),
                sum <= k * 0xffff_ffff_ffff_ffff,
        {
            sum = sum + self.hist[k] as u128;
        }
        sum
    }

    /// How many guesses they took.
    pub fn guesses(&self) -> (r: u128)
        requires
            self.wf(),
        ensures
            r == guesses_in(self.hist@, BINS as int),
    {
        let mut sum: u128 = 0;
        for k in 0..BINS
            invariant
                self.wf(),
                sum == guesses_in(self.hist@, k as int),
                sum <= k * 0x3f_ffff_ffff_ffff_ffc0,
        {
            let c: u128 = self.hist[k] as u128;
            assert(0 <= k * c <= 0x3f_ffff_ffff_ffff_ffc0) by (nonlinear_arith)
                requires
                    0 <= k <= 64,
                    0 <= c <= 0xffff_ffff_ffff_ffff,
            ;
            sum = sum + k as u128 * c;
        }
        sum
    }

    /// The median number of guesses: the least that at least half of the games stayed within.
    pub fn median(&self) -> (r: usize)
        requires
            self.wf(),
        ensures
            r < BINS,
            2 * games_in(self.hist@, r + 1) >= games_in(self.hist@, BINS as int),
            forall|k: int|
                0 <= k < r ==> 2 * #[trigger] games_in(self.hist@, k + 1) < games_in(
                    self.hist@,
                    BINS as int,
                ),
    {
        let total: u128 = self.games();
        let mut cum: u128 = 0;
        for k in 0..BINS
            invariant
                self.wf(),
                total == games_in(self.hist@, BINS as int),
                cum == games_in(self.hist@, k as int),
                cum <= k * 0xffff_ffff_ffff_ffff,
                forall|i: int|
                    0 <= i < k ==> 2 * #[trigger] games_in(self.hist@, i + 1) < total,
        {
            cum = cum + self.hist[k] as u128;
            if cum * 2 >= total {
                assert(games_in(self.hist@, k + 1) == cum);
                return k;
            }
            assert(games_in(self.hist@, k + 1) == cum);
        }
        assert(games_in(self.hist@, (BINS - 1) + 1) == total);
        0
    }

    /// The largest number of guesses.
    pub fn longest(&self) -> (r: usize)
        requires
            self.wf(),
        ensures
            r < BINS,
            forall|k: int| r < k < BINS ==> #[trigger] self.hist@[k] == 0,
            r > 0 ==> self.hist@[r as int] > 0,
    {
        let mut k: usize = BINS;
        while k > 0
            invariant
                self.wf(),
                k <= BINS,
                forall|i: int| k <= i < BINS ==> #[trigger] self.hist@[i] == 0,
            decreases k,
        {
            k = k - 1;
            if self.hist[k] > 0 {
                return k;
            }
        }
        0
    }

    /// One line of the histogram.
    pub open spec fn bar_line(self, k: int) -> Seq<char> {
        let total = games_in(self.hist@, BINS as int);
        let scaled = (self.hist@[k] * BAR_WIDTH) / total as int;
        padded_left(decimal(k as nat), 5) + "  "@ + padded_left(decimal(self.hist@[k] as nat), 6)
            + "  "@ + Seq::new(
            (if scaled < 1 {
                1
            } else {
                scaled
            }) as nat,
            |i: int| '█',
        )
    }

    /// The lines of the histogram up to bin `m`: one for each bin that holds a game.
    pub open spec fn bar_lines(self, m: int) -> Seq<Seq<char>>
        decreases m,
    {
        if m <= 0 {
            Seq::empty()
        } else if self.hist@[m - 1] > 0 {
            self.bar_lines(m - 1).push(self.bar_line(m - 1))
        } else {
            self.bar_lines(m - 1)
        }
    }

    /// The histogram, a line for each number of guesses that occurred.
    pub fn histogram(&self) -> (r: Vec<String>)
        requires
            self.wf(),
        ensures
            texts(r@) == self.bar_lines(BINS as int),
    {
        let total: u128 = self.games();
        let mut r: Vec<String> = Vec::new();
        assert(texts(r@) =~= Seq::empty());
        for k in 0..BINS
            invariant
                self.wf(),
                total == games_in(self.hist@, BINS as int),
                texts(r@) == self.bar_lines(k as int),
        {
            let c: usize = self.hist[k];
            if c > 0 {
                proof {
                    lemma_bin_within_total(self.hist@, k as int, BINS as int);
                }
                let scaled: u128 = c as u128 * BAR_WIDTH as u128 / total;
                proof {
                    let (cc, t) = (c as int, total as int);
                    assert((cc * 60) / t <= 60) by (nonlinear_arith)
                        requires
                            0 < cc <= t,
                    ;
                }
                let width: u64 = if scaled < 1 {
                    1
                } else {
                    scaled as u64
                };
                let mut line = pad_left(write_decimal(k as u64).as_str(), 5);
                append_text(&mut line, "  ");
                append_text(&mut line, pad_left(write_decimal(c as u64).as_str(), 6).as_str());
                append_text(&mut line, "  ");
                let ghost head = line@;
                for i in 0..width
                    invariant
                        line@ == head + Seq::new(i as nat, |i: int| '█'),
                {
                    line.push('█');
                    assert(line@ =~= head + Seq::new(i as nat + 1, |i: int| '█'));
                }
                let ghost before = texts(r@);
                assert(line@ =~= self.bar_line(k as int));
                r.push(line);
                assert(texts(r@) =~= before.push(line@));
            }
        }
        r
    }

    /// The order of the long games: the longest first, and as they came among equals.
    pub open spec fn worst_order(self) -> Seq<u32> {
        ranked(Seq::new(self.worst@.len(), |i: int| (u32::MAX - self.worst@[i].0) as u64))
    }

    /// The long games to be named, each with its number of guesses.
    pub open spec fn worst_texts(self) -> Seq<Seq<char>> {
        let n = self.worst@.len();
        Seq::new(
            if n <= LONG_GAMES_SHOWN {
                n
            } else {
                LONG_GAMES_SHOWN as nat
            },
            |i: int|
                {
                    let g = self.worst@[self.worst_order()[i] as int];
                    g.1@ + " ("@ + decimal(g.0 as nat) + ")"@
                },
        )
    }

    /// Names the longest games; nothing if there was none.
    pub fn worst_games(&self) -> (r: String)
        requires
            self.worst@.len() <= u32::MAX,
        ensures
            r@ == joined(self.worst_texts(), ", "@),
    {
        let n: usize = self.worst.len();
        let mut keys: Vec<u64> = Vec::new();
        let ghost all = Seq::new(n as nat, |i: int| (u32::MAX - self.worst@[i].0) as u64);
        for i in 0..n
            invariant
                n == self.worst@.len(),
                all == Seq::new(n as nat, |i: int| (u32::MAX - self.worst@[i].0) as u64),
                keys@ == all.take(i as int),
        {
            keys.push((u32::MAX - self.worst[i].0) as u64);
            assert(keys@ =~= all.take(i + 1));
        }
        assert(keys@ =~= all);
        let order = rank_by(&keys);
        proof {
            lemma_ranked(keys@);
        }
        let m: usize = if n <= LONG_GAMES_SHOWN {
            n
        } else {
            LONG_GAMES_SHOWN
        };
        let mut names: Vec<String> = Vec::new();
        for i in 0..m
            invariant
                n == self.worst@.len(),
                m == if n <= LONG_GAMES_SHOWN {
                    n
                } else {
                    LONG_GAMES_SHOWN
                },
                order@ == self.worst_order(),
                order@.len() == n,
                forall|k: int| 0 <= k < n ==> (#[trigger] order@[k]) < n,
                texts(names@) == self.worst_texts().take(i as int),
        {
            assert(order@[i as int] < n);
            let (g, w): &(u32, String) = &self.worst[order[i] as usize];
            let mut t = String::new();
            append_text(&mut t, w.as_str());
            append_text(&mut t, " (");
            append_text(&mut t, write_decimal(*g as u64).as_str());
            append_text(&mut t, ")");
            let ghost was = texts(names@);
            assert(t@ =~= self.worst_texts()[i as int]);
            names.push(t);
            assert(texts(names@) =~= was.push(t@));
            assert(texts(names@) =~= self.worst_texts().take(i + 1));
        }
        assert(texts(names@) =~= self.worst_texts());
        join(&names, ", ")
    }
}

/// A counted game adds one to the number of games, and its guesses to the number of guesses.
pub proof fn lemma_each_game_counts_once(hist: Seq<usize>, k: int, m: int)
    requires
        0 <= k < hist.len(),
        m <= hist.len(),
        hist[k] < usize::MAX,
    ensures
        ({
            let after = hist.update(k, (hist[k] + 1) as usize);
            &&& games_in(after, m) == games_in(hist, m) + if k < m {
                1int
            } else {
                0
            }
            &&& guesses_in(after, m) == guesses_in(hist, m) + if k < m {
                k
            } else {
                0
            }
        }),
    decreases m,
{
    if m > 0 {
        lemma_each_game_counts_once(hist, k, m - 1);
        if m - 1 == k {
            assert(k * (hist[k] + 1) == k * hist[k] + k) by (nonlinear_arith);
            assert(0 <= k * hist[k]) by (nonlinear_arith)
                requires
                    0 <= k,
            ;
        }
    }
}

/// One bin holds no more games than all of them.
proof fn lemma_bin_within_total(hist: Seq<usize>, k: int, m: int)
    requires
        0 <= k < m,
    ensures
        hist[k] <= games_in(hist, m),
    decreases m,
{
    if k < m - 1 {
        lemma_bin_within_total(hist, k, m - 1);
    }
}

/// Secrets are drawn from the plausible words among the first `prior`, all of them and no other.
pub proof fn lemma_pool_holds_the_frequent(v: Vectors, prior: int, w: u32)
    requires
        v.wf(),
        w < v.words@.len(),
    ensures
        pool_of(v, prior).contains(w) <==> v.plausible@[w as int] && w < prior,
{
    broadcast use vstd::seq_lib::group_filter_ensures;

    lemma_set_positions(v.plausible@);
    let all = set_positions(v.plausible@);
    let keep = |i: u32| i < prior;
    if v.plausible@[w as int] && w < prior {
        assert(all.contains(w));
        assert(keep(w));
    }
    if pool_of(v, prior).contains(w) {
        all.lemma_filter_contains_rev(keep, w);
        let m = choose|m: int| 0 <= m < pool_of(v, prior).len() && pool_of(v, prior)[m] == w;
        assert(keep(pool_of(v, prior)[m]));
        let k = choose|k: int| 0 <= k < all.len() && all[k] == w;
        assert(v.plausible@[all[k] as int]);
    }
}

/// The long games are named the longest first, and as they came among equals.
pub proof fn lemma_worst_games_first(t: Tally, i: int, j: int)
    requires
        t.worst@.len() <= u32::MAX,
        0 <= i < j < t.worst@.len(),
    ensures
        ({
            let (a, b) = (t.worst_order()[i], t.worst_order()[j]);
            &&& a < t.worst@.len() && b < t.worst@.len() && a != b
            &&& t.worst@[a as int].0 > t.worst@[b as int].0 || (t.worst@[a as int].0
                == t.worst@[b as int].0 && a < b)
        }),
{
    let keys = Seq::new(t.worst@.len(), |i: int| (u32::MAX - t.worst@[i].0) as u64);
    lemma_ranked(keys);
    let (a, b) = (t.worst_order()[i], t.worst_order()[j]);
    assert(by_key(keys)(a, b));
}

/// Two seeds never start the generator alike, and two states never lead to the same one.
pub proof fn lemma_generator_tells_seeds_apart(a: u64, b: u64)
    ensures
        rng_start(0) == 1,
        rng_step(0) == 1442695040888963407,
        rng_start(a) == rng_start(b) ==> a == b,
        rng_step(a) == rng_step(b) ==> a == b,
        // one more than a seed, or a state, moves the outcome by the multiplier
        a < u64::MAX ==> (rng_start((a + 1) as u64) - rng_start(a) - 0x9E37_79B9_7F4A_7C15)
            % 0x1_0000_0000_0000_0000 == 0,
        a < u64::MAX ==> (rng_step((a + 1) as u64) - rng_step(a) - 6364136223846793005)
            % 0x1_0000_0000_0000_0000 == 0,
{
    let (c, d) = (0x9E37_79B9_7F4A_7C15int, 6364136223846793005int);
    assert(c * 0xf1de_83e1_9937_733d == 1 + 10771413168148108919 * 0x1_0000_0000_0000_0000);
    assert(d * 0xc097_ef87_329e_28a5 == 1 + 4787856489426250814 * 0x1_0000_0000_0000_0000);
    if rng_start(a) == rng_start(b) {
        lemma_line_is_one_to_one(a, b, c, 0xf1de_83e1_9937_733d, 1);
    }
    if rng_step(a) == rng_step(b) {
        lemma_line_is_one_to_one(a, b, d, 0xc097_ef87_329e_28a5, 1442695040888963407);
    }
    if a < u64::MAX {
        lemma_line_step(a as int, c, 1);
        lemma_line_step(a as int, d, 1442695040888963407);
    }
}

proof fn lemma_line_step(a: int, c: int, add: int)
    ensures
        ({
            let m = 0x1_0000_0000_0000_0000int;
            ((((a + 1) * c) % m + add) % m - ((a * c) % m + add) % m - c) % m == 0
        }),
{
    let m = 0x1_0000_0000_0000_0000int;
    assert((a + 1) * c == a * c + c) by (nonlinear_arith);
    let x = a * c;
    vstd::arithmetic::div_mod::lemma_add_mod_noop(x + c, add, m);
    vstd::arithmetic::div_mod::lemma_add_mod_noop(x, add, m);
    vstd::arithmetic::div_mod::lemma_mod_twice(add, m);
    lemma_absorbed(x + c, add, m);
    lemma_absorbed(x, add, m);
    vstd::arithmetic::div_mod::lemma_sub_mod_noop(x + c + add, x + add, m);
    let (p, q) = ((x + c + add) % m, (x + add) % m);
    vstd::arithmetic::div_mod::lemma_sub_mod_noop(p - q, c, m);
    assert((x + c + add) - (x + add) == c);
    assert((p - q) % m == c % m);
}

proof fn lemma_absorbed(x: int, add: int, m: int)
    requires
        m > 0,
    ensures
        (x % m + add) % m == (x + add) % m,
{
    vstd::arithmetic::div_mod::lemma_add_mod_noop_right(add, x, m);
    assert(x % m + add == add + x % m);
    assert(x + add == add + x);
}

proof fn lemma_line_is_one_to_one(a: u64, b: u64, c: int, inverse: int, add: int)
    requires
        (c * inverse) % 0x1_0000_0000_0000_0000 == 1,
        ((a * c) % 0x1_0000_0000_0000_0000 + add) % 0x1_0000_0000_0000_0000 == ((b * c)
            % 0x1_0000_0000_0000_0000 + add) % 0x1_0000_0000_0000_0000,
    ensures
        a == b,
{
    let m = 0x1_0000_0000_0000_0000int;
    lemma_absorbed(a * c, add, m);
    lemma_absorbed(b * c, add, m);
    lemma_absorbed(a * c + add, -add, m);
    lemma_absorbed(b * c + add, -add, m);
    assert((a * c) % m == (b * c) % m);
    lemma_factor_undone(a as int, c, inverse, m);
    lemma_factor_undone(b as int, c, inverse, m);
}

/// A factor with an inverse is undone by it, even where products wrap around.
pub proof fn lemma_factor_undone(a: int, c: int, inverse: int, m: int)
    requires
        m > 1,
        0 <= a < m,
        (c * inverse) % m == 1,
    ensures
        (((a * c) % m) * inverse) % m == a,
{
    vstd::arithmetic::div_mod::lemma_mul_mod_noop_left(a * c, inverse, m);
    assert((a * c) * inverse == a * (c * inverse)) by (nonlinear_arith);
    vstd::arithmetic::div_mod::lemma_mul_mod_noop_right(a, c * inverse, m);
    vstd::arithmetic::div_mod::lemma_small_mod(a as nat, m as nat);
}

/// Each number of guesses below 63 has a bin of its own, and all the longer games share the last
/// of the 64.
pub proof fn lemma_bins_tell_lengths_apart(a: u32, b: u32)
    ensures
        bin_of(a) == bin_of(b) <==> a == b || (a >= 63 && b >= 63),
        0 <= bin_of(a) < 64,
        a < 64 ==> bin_of(a) == a,
{
}

/// Every length that occurred has its bar, and the bars come by increasing length.
pub proof fn lemma_each_length_has_a_bar(t: Tally, k: int, m: int)
    requires
        0 <= k < m <= t.hist@.len(),
    ensures
        t.bar_lines(m).len() <= m,
        t.hist@[k] > 0 ==> t.bar_lines(m).contains(t.bar_line(k)),
        (forall|i: int| 0 <= i < m ==> #[trigger] t.hist@[i] == 0) <==> t.bar_lines(m).len() == 0,
        (forall|i: int| 0 <= i < m ==> #[trigger] t.hist@[i] > 0) <==> t.bar_lines(m).len() == m,
    decreases m,
{
    let before = t.bar_lines(m - 1);
    assert(t.bar_lines(0).len() == 0);
    if m > 1 {
        lemma_each_length_has_a_bar(
            t,
            if k < m - 1 {
                k
            } else {
                0
            },
            m - 1,
        );
    }
    assert(t.hist@[m - 1] == t.hist@[m - 1]);
    if t.hist@[k] > 0 {
        if k == m - 1 {
            assert(t.bar_lines(m)[before.len() as int] == t.bar_line(k));
        } else {
            let i = choose|i: int| 0 <= i < before.len() && before[i] == t.bar_line(k);
            assert(t.bar_lines(m)[i] == t.bar_line(k));
        }
    }
}

/// At most ten long games are named, the longest of them, each with its length.
pub proof fn lemma_few_long_games_are_named(t: Tally, i: int)
    requires
        t.worst@.len() <= u32::MAX,
        0 <= i < t.worst_texts().len(),
    ensures
        t.worst_texts().len() <= 10,
        t.worst@.len() <= 10 ==> t.worst_texts().len() == t.worst@.len(),
        t.worst@.len() > 10 ==> t.worst_texts().len() == 10,
        exists|g: int|
            #![trigger t.worst@[g]]
            0 <= g < t.worst@.len() && t.worst_texts()[i] == t.worst@[g].1@ + " ("@ + decimal(
                t.worst@[g].0 as nat,
            ) + ")"@ && (i == 0 ==> forall|h: int|
                0 <= h < t.worst@.len() ==> (#[trigger] t.worst@[h]).0 <= t.worst@[g].0),
{
    let keys = Seq::new(t.worst@.len(), |i: int| (u32::MAX - t.worst@[i].0) as u64);
    lemma_ranked(keys);
    let order = t.worst_order();
    let g = order[i] as int;
    assert(order[i] < t.worst@.len());
    assert(t.worst_texts()[i] == t.worst@[g].1@ + " ("@ + decimal(t.worst@[g].0 as nat) + ")"@);
    if i == 0 {
        assert forall|h: int| 0 <= h < t.worst@.len() implies (#[trigger] t.worst@[h]).0
            <= t.worst@[g].0 by {
            assert(order.contains(h as u32));
            let k = choose|k: int| 0 <= k < order.len() && order[k] == h as u32;
            if k > 0 {
                lemma_worst_games_first(t, 0, k);
            }
        }
    }
}

} // verus!
