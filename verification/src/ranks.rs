//! Rank games: the neighbour table, and what a rank score says.
//!
//! A rank game answers `top − rank of the guess among the secret's neighbours`, floored. The
//! similarities of each word to its neighbours are tabulated once, at a few ranks, and a rank
//! is then located between two of them.

use vstd::prelude::*;

use crate::f16::{from_f32, half_infinity, lemma_rounded_widened, rounded, widened};
use crate::ieee::{
    lemma_single_order_is_numeric, lemma_single_total_order, Double, Single,
};
use crate::order::{
    largest, lemma_largest, lemma_nearest_first, lemma_sorted_by_position, nearer, nearest_first,
    select_largest,
};
use crate::vectors::{exact_rank, half_at, halves_of, nearer_others, read_halves};

verus! {

/// Ranks at which the neighbour similarities of each word are tabulated. A rank score only
/// needs to be localised in log-rank, so geometric levels are enough, but the gaps have to
/// stay well under the accepted window.
pub const RANK_LEVELS: [u32; 18] = [
    1, 2, 3, 4, 6, 8, 12, 18, 26, 40, 60, 90, 140, 250, 450, 800, 1400, 2000,
];

/// The rank window is widened by raising it to these powers when no candidate survives.
pub const RANK_TOL_MULT: [i32; 5] = [1, 2, 3, 5, 8];

/// Rank estimates are clamped at a million: past the last level the exact value stops mattering,
/// every score down there is floored anyway. As a bit pattern.
pub const RANK_CAP: u64 = 0x412e_8480_0000_0000;

/// Bit pattern of the number one.
pub const ONE_BITS: u64 = 0x3ff0_0000_0000_0000;

/// Bit pattern of the negative infinity.
pub const LOWEST_BITS: u32 = 0xff80_0000;

/// Per-word similarity quantiles: row `row_of[w]` holds the cosine between `w` and its
/// `levels[k]`-th nearest neighbour for each `k`, ranks being counted inside the ranking
/// lexicon.
pub struct RankTable {
    /// Tabulated ranks, ascending.
    pub levels: Vec<u32>,
    /// Row of each word, `u32::MAX` for words outside the ranking lexicon.
    pub row_of: Vec<u32>,
    /// One row of `levels.len()` cosines per word of the lexicon.
    pub sims: Vec<Single>,
}

/// Two neighbouring levels of a row with their similarities, and a similarity to be placed by
/// them.
#[derive(Clone, Copy, Debug)]
pub struct Segment {
    pub near_level: u32,
    pub far_level: u32,
    pub near: Single,
    pub far: Single,
    pub sim: Single,
}

/// How the caller turns places into ranks: a level as it is, log-rank linearly inside a segment,
/// and log-rank along the last segment below the table.
pub struct RankScale<W, I, X> {
    pub whole: W,
    pub inside: I,
    pub beyond: X,
}

/// Where a similarity falls among the tabulated ones of a row.
#[derive(Clone, Copy, Debug, PartialEq, Eq, Structural)]
pub enum RankPlace {
    /// At or above the first tabulated similarity: the first tabulated rank.
    First,
    /// Between levels `i` and `i + 1`.
    Between(usize),
    /// Below the last tabulated similarity.
    Beyond,
}

/// Row of a word, the last one where the lexicon names it twice.
pub open spec fn row_index(rows: Seq<u32>, w: u32) -> u32
    decreases rows.len(),
{
    if rows.len() == 0 {
        u32::MAX
    } else if rows.last() == w {
        (rows.len() - 1) as u32
    } else {
        row_index(rows.drop_last(), w)
    }
}

/// The first level from `i + 1` on whose similarity `sim` reaches.
pub open spec fn place_from(row: Seq<Single>, sim: Single, i: int) -> RankPlace
    decreases row.len() - i,
{
    if i < 0 || i + 1 >= row.len() {
        RankPlace::Beyond
    } else if row[i + 1].at_most(sim) {
        RankPlace::Between(i as usize)
    } else {
        place_from(row, sim, i + 1)
    }
}

/// Where `sim` falls among the similarities of a row, which decrease.
pub open spec fn place_in(row: Seq<Single>, sim: Single) -> RankPlace {
    if row[0].at_most(sim) {
        RankPlace::First
    } else {
        place_from(row, sim, 0)
    }
}

/// How far down its row a place lies.
pub open spec fn depth(p: RankPlace, levels: nat) -> int {
    match p {
        RankPlace::First => 0,
        RankPlace::Between(i) => i + 1,
        RankPlace::Beyond => levels as int,
    }
}

/// The similarities of a lexicon to its word number `r`, that word itself set to the lowest.
pub open spec fn without_self(sims: Seq<Single>, r: int) -> Seq<Single> {
    sims.update(r, Single { bits: LOWEST_BITS })
}

/// Position, among the similarities sorted largest first, that stands for a level. The last
/// one kept stands for every level beyond it.
pub open spec fn level_position(level: u32, kept: int) -> int {
    if level - 1 < kept {
        level - 1
    } else {
        kept - 1
    }
}

/// How many of the largest similarities a table with these levels needs, out of `m` words.
pub open spec fn kept_count(levels: Seq<u32>, m: int) -> int {
    if levels.last() < m - 1 {
        levels.last() + 1
    } else {
        m
    }
}

/// The tabulated row of lexicon word `r`: its similarity to its `level`-th nearest neighbour,
/// for each level.
pub open spec fn level_sims(sims: Seq<Single>, r: int, levels: Seq<u32>) -> Seq<Single> {
    let kept = kept_count(levels, sims.len() as int);
    Seq::new(
        levels.len(),
        |i: int| largest(without_self(sims, r), kept)[level_position(levels[i], kept)],
    )
}

/// Tabulates the row of lexicon word `r`.
pub fn tabulate_row(sims: Vec<Single>, r: usize, levels: &Vec<u32>) -> (row: Vec<Single>)
    requires
        r < sims@.len(),
        sims@.len() >= 2,
        levels@.len() > 0,
        forall|i: int| 0 <= i < levels@.len() ==> (#[trigger] levels@[i]) >= 1,
    ensures
        row@ == level_sims(sims@, r as int, levels@),
{
    let mut buf = sims;
    let ghost all = buf@;
    buf.set(r, Single { bits: LOWEST_BITS });
    let m: usize = buf.len();
    let last: u32 = levels[levels.len() - 1];
    let kept: usize = if (last as usize) < m - 1 {
        last as usize + 1
    } else {
        m
    };
    let head = select_largest(&buf, kept);
    proof {
        broadcast use vstd::seq_lib::group_to_multiset_ensures;

        assert(vstd::relations::total_ordering(crate::order::largest_first())) by {
            assert forall|a: Single, b: Single| a.total() == b.total() implies a == b by {
                crate::ieee::lemma_single_total_order(a, b);
            }
        }
        buf@.lemma_sort_by_ensures(crate::order::largest_first());
        assert(buf@.to_multiset().len() == buf@.len());
    }
    let mut row: Vec<Single> = Vec::new();
    for i in 0..levels.len()
        invariant
            head@.len() == kept,
            kept > 0,
            head@ == largest(without_self(all, r as int), kept as int),
            kept == kept_count(levels@, all.len() as int),
            forall|i: int| 0 <= i < levels@.len() ==> (#[trigger] levels@[i]) >= 1,
            row@ == level_sims(all, r as int, levels@).take(i as int),
    {
        let wanted: usize = levels[i] as usize - 1;
        let at: usize = if wanted < kept {
            wanted
        } else {
            kept - 1
        };
        row.push(head[at]);
        assert(row@ =~= level_sims(all, r as int, levels@).take(i + 1));
    }
    assert(level_sims(all, r as int, levels@).take(levels@.len() as int) =~= level_sims(
        all,
        r as int,
        levels@,
    ));
    row
}

impl RankTable {
    /// At least one level, whole rows, and every word either has one of them or none.
    pub open spec fn wf(self) -> bool {
        &&& self.levels@.len() > 0
        &&& self.sims@.len() % self.levels@.len() == 0
        &&& forall|w: int|
            0 <= w < self.row_of@.len() ==> (#[trigger] self.row_of@[w]) == u32::MAX
                || self.row_of@[w] < self.sims@.len() / self.levels@.len()
    }

    /// Row number `r`.
    pub open spec fn row(self, r: int) -> Seq<Single> {
        self.sims@.subrange(r * self.levels@.len(), (r + 1) * self.levels@.len())
    }

    /// Number of rows.
    pub fn rows(&self) -> (r: usize)
        requires
            self.levels@.len() > 0,
        ensures
            r == self.sims@.len() / self.levels@.len(),
    {
        self.sims.len() / self.levels.len()
    }

    /// Last tabulated rank: beyond it a place is good enough to order words but not to
    /// compare against a target rank.
    pub fn reach(&self) -> (r: u32)
        ensures
            r == if self.levels@.len() > 0 {
                self.levels@.last()
            } else {
                1
            },
    {
        if self.levels.len() > 0 {
            self.levels[self.levels.len() - 1]
        } else {
            1
        }
    }

    /// A table of zeros, with a row for each word of `rows`.
    fn blank(n: usize, rows: &Vec<u32>, levels: &Vec<u32>) -> (t: RankTable)
        requires
            rows@.len() <= u32::MAX,
            rows@.len() * levels@.len() <= usize::MAX,
            n <= u32::MAX,
            forall|r: int| 0 <= r < rows@.len() ==> (#[trigger] rows@[r]) < n,
        ensures
            t.levels@ == levels@,
            t.row_of@ == rows_of(n as nat, rows@),
            t.sims@.len() == rows@.len() * levels@.len(),
    {
        let mut row_of: Vec<u32> = vec![u32::MAX; n];
        assert(row_of@ =~= rows_of(n as nat, rows@.take(0)));
        for r in 0..rows.len()
            invariant
                rows@.len() <= u32::MAX,
                n <= u32::MAX,
            forall|r: int| 0 <= r < rows@.len() ==> (#[trigger] rows@[r]) < n,
                row_of@ == rows_of(n as nat, rows@.take(r as int)),
        {
            row_of.set(rows[r] as usize, r as u32);
            assert(rows@.take(r + 1).drop_last() =~= rows@.take(r as int));
            assert(row_of@ =~= rows_of(n as nat, rows@.take(r + 1)));
        }
        assert(rows@.take(rows@.len() as int) =~= rows@);
        let kept = copy_list(levels);
        assert(rows.len() * levels.len() == rows@.len() * levels@.len());
        RankTable {
            levels: kept,
            row_of,
            sims: vec![Single { bits: 0 }; rows.len() * levels.len()],
        }
    }

    /// Tabulate the neighbour similarities of every word of `rows`, ranks counted inside
    /// `rows` itself. `neighbours` measures how similar each word of the lexicon is to its
    /// word number `r`. `n` is the number of words of the whole vocabulary.
    pub fn build<F: Fn(usize) -> Vec<Single>>(
        n: usize,
        rows: &Vec<u32>,
        levels: &Vec<u32>,
        neighbours: &F,
    ) -> (t: RankTable)
        requires
            2 <= rows@.len() <= u32::MAX,
            levels@.len() > 0,
            forall|i: int| 0 <= i < levels@.len() ==> (#[trigger] levels@[i]) >= 1,
            rows@.len() * levels@.len() <= usize::MAX,
            n <= u32::MAX,
            forall|r: int| 0 <= r < rows@.len() ==> (#[trigger] rows@[r]) < n,
            forall|r: usize| r < rows@.len() ==> #[trigger] call_requires(*neighbours, (r,)),
            forall|r: usize, v: Vec<Single>| #[trigger]
                call_ensures(*neighbours, (r,), v) ==> v@.len() == rows@.len(),
        ensures
            t.wf(),
            t.levels@ == levels@,
            t.row_of@ == rows_of(n as nat, rows@),
            t.sims@.len() == rows@.len() * levels@.len(),
            forall|r: int|
                0 <= r < rows@.len() ==> tabulates(
                    *neighbours,
                    levels@,
                    r,
                    #[trigger] t.row(r),
                ),
    {
        let mut t = RankTable::blank(n, rows, levels);
        let mut sims: Vec<Single> = Vec::new();
        let l: usize = levels.len();
        let m: usize = rows.len();
        proof {
            assert(0 * l == 0) by (nonlinear_arith);
        }
        for r in 0..m
            invariant
                m == rows@.len(),
                2 <= rows@.len() <= u32::MAX,
                l == levels@.len(),
                l > 0,
                forall|i: int| 0 <= i < levels@.len() ==> (#[trigger] levels@[i]) >= 1,
                forall|r: usize| r < rows@.len() ==> #[trigger] call_requires(*neighbours, (r,)),
                forall|r: usize, v: Vec<Single>| #[trigger]
                    call_ensures(*neighbours, (r,), v) ==> v@.len() == rows@.len(),
                sims@.len() == r * l,
                forall|k: int|
                    0 <= k < r ==> tabulates(
                        *neighbours,
                        levels@,
                        k,
                        #[trigger] row_in(sims@, l as int, k),
                    ),
        {
            let found = neighbours(r);
            let ghost measured = found;
            let mut row = tabulate_row(found, r, levels);
            let ghost done = sims@;
            let ghost new_row = row@;
            sims.append(&mut row);
            proof {
                assert((r + 1) * l == r * l + l) by (nonlinear_arith);
                assert(sims@ =~= done + new_row);
                assert forall|k: int| 0 <= k < r + 1 implies tabulates(
                    *neighbours,
                    levels@,
                    k,
                    #[trigger] row_in(sims@, l as int, k),
                ) by {
                    lemma_row_bounds(k, r as int, l as int);
                    if k < r {
                        assert(row_in(sims@, l as int, k) =~= row_in(done, l as int, k));
                    } else {
                        assert(row_in(sims@, l as int, k) =~= new_row);
                        assert(call_ensures(*neighbours, (r,), measured));
                    }
                }
            }
        }
        t.sims = sims;
        proof {
            assert forall|r: int| 0 <= r < rows@.len() implies tabulates(
                *neighbours,
                levels@,
                r,
                #[trigger] t.row(r),
            ) by {
                assert(t.row(r) == row_in(t.sims@, l as int, r));
            }
            lemma_rows_fit(n as nat, rows@);
            lemma_whole_rows(rows@.len() as int, l as int);
        }
        t
    }

    /// The table as little-endian half-precision numbers.
    pub fn to_f16(&self) -> (r: Vec<u8>)
        ensures
            r@ == half_bytes(self.sims@),
    {
        let mut out: Vec<u8> = Vec::new();
        for i in 0..self.sims.len()
            invariant
                out@.len() == 2 * i,
                out@ == half_bytes(self.sims@.take(i as int)),
        {
            let h: u16 = from_f32(self.sims[i]);
            out.push((h % 256) as u8);
            out.push((h / 256) as u8);
            assert(out@ =~= half_bytes(self.sims@.take(i + 1)));
        }
        assert(self.sims@.take(self.sims@.len() as int) =~= self.sims@);
        out
    }

    /// Rebuild from the little-endian half-precision dump, `rows` being the same lexicon, in
    /// order.
    pub fn from_f16(n: usize, rows: &Vec<u32>, levels: &Vec<u32>, bytes: &[u8]) -> (r: Option<
        RankTable,
    >)
        requires
            rows@.len() <= u32::MAX,
            rows@.len() * levels@.len() * 2 <= usize::MAX,
            n <= u32::MAX,
            forall|r: int| 0 <= r < rows@.len() ==> (#[trigger] rows@[r]) < n,
        ensures
            r is Some <==> bytes@.len() == rows@.len() * levels@.len() * 2,
            r matches Some(t) ==> {
                &&& t.levels@ == levels@
                &&& t.row_of@ == rows_of(n as nat, rows@)
                &&& t.sims@ == halves_of(bytes@)
                &&& levels@.len() > 0 ==> t.wf()
            },
    {
        assert(rows.len() * levels.len() * 2 == rows@.len() * levels@.len() * 2);
        assert(rows.len() * levels.len() <= usize::MAX);
        if bytes.len() != rows.len() * levels.len() * 2 {
            return None;
        }
        let mut t = RankTable::blank(n, rows, levels);
        t.sims = read_halves(bytes);
        proof {
            lemma_rows_fit(n as nat, rows@);
            if levels@.len() > 0 {
                lemma_whole_rows(rows@.len() as int, levels@.len() as int);
            }
        }
        Some(t)
    }

    /// The row of a word, if it has one.
    pub open spec fn row_for(self, word: int) -> Option<Seq<Single>> {
        if word < self.row_of@.len() && self.row_of@[word] != u32::MAX {
            Some(self.row(self.row_of@[word] as int))
        } else {
            None
        }
    }

    /// Where a word with cosine `sim` sits among the neighbours of `word`, `None` when `word`
    /// has no row. The rank itself is interpolated from the place: log-rank goes linearly
    /// from one level to the next, and beyond the last level along the last segment.
    pub fn locate(&self, word: usize, sim: Single) -> (r: Option<RankPlace>)
        requires
            self.wf(),
        ensures
            match self.row_for(word as int) {
                Some(row) => r == Some(place_in(row, sim)),
                None => r is None,
            },
    {
        if word >= self.row_of.len() {
            return None;
        }
        let r: u32 = self.row_of[word];
        if r == u32::MAX {
            return None;
        }
        let l: usize = self.levels.len();
        let ghost row = self.row(r as int);
        proof {
            lemma_row_in_table(self.sims@.len() as int, l as int, r as int);
            assert(self.sims@.len() == self.sims.len());
        }
        let start: usize = r as usize * l;
        assert(row.len() == l);
        if self.sims[start].le(sim) {
            assert(row[0] == self.sims@[start as int]);
            return Some(RankPlace::First);
        }
        assert(row[0] == self.sims@[start as int]);
        let mut i: usize = 0;
        while i + 1 < l
            invariant
                row == self.row(r as int),
                row.len() == l,
                l == self.levels@.len(),
                start == r * l,
                start + l <= self.sims.len(),
                word < self.row_of@.len(),
                r == self.row_of@[word as int],
                r != u32::MAX,
                (r + 1) * l == start + l,
                i < l,
                place_in(row, sim) == place_from(row, sim, i as int),
            decreases l - i,
        {
            assert(row[i + 1] == self.sims@[start + i + 1]);
            if self.sims[start + i + 1].le(sim) {
                return Some(RankPlace::Between(i));
            }
            i = i + 1;
        }
        Some(RankPlace::Beyond)
    }

    /// The segment of a row that starts at level `i`.
    pub open spec fn segment(self, row: Seq<Single>, i: int, sim: Single) -> Segment {
        Segment {
            near_level: self.levels@[i],
            far_level: self.levels@[i + 1],
            near: row[i],
            far: row[i + 1],
            sim,
        }
    }

    /// `r` is the rank of a word with cosine `sim` among the neighbours whose row this is.
    pub open spec fn ranks_at<W: Fn(u32) -> Double, I: Fn(Segment) -> Double, X: Fn(Segment) -> Double>(
        self,
        row: Seq<Single>,
        sim: Single,
        scale: RankScale<W, I, X>,
        r: Double,
    ) -> bool {
        match place_in(row, sim) {
            RankPlace::First => call_ensures(scale.whole, (self.levels@[0],), r),
            RankPlace::Between(i) => call_ensures(
                scale.inside,
                (self.segment(row, i as int, sim),),
                r,
            ),
            RankPlace::Beyond => exists|x: Double| #[trigger]
                call_ensures(scale.beyond, (self.segment(row, row.len() - 2, sim),), x) && r
                    == x.lower(Double { bits: RANK_CAP }),
        }
    }

    /// Rank of a word sitting at cosine `sim` among the neighbours of `word`: the first level at
    /// or above its similarity, interpolated between two levels, and below the table
    /// extrapolated along the last segment up to a cap. `None` when `word` has no row.
    pub fn rank<W: Fn(u32) -> Double, I: Fn(Segment) -> Double, X: Fn(Segment) -> Double>(
        &self,
        word: usize,
        sim: Single,
        scale: &RankScale<W, I, X>,
    ) -> (r: Option<Double>)
        requires
            self.wf(),
            self.levels@.len() >= 2 || (self.row_for(word as int) matches Some(row) ==> place_in(
                row,
                sim,
            ) is First),
            forall|l: u32| #[trigger] call_requires(scale.whole, (l,)),
            forall|s: Segment| #[trigger] call_requires(scale.inside, (s,)),
            forall|s: Segment| #[trigger] call_requires(scale.beyond, (s,)),
        ensures
            match self.row_for(word as int) {
                Some(row) => r matches Some(x) && self.ranks_at(row, sim, *scale, x),
                None => r is None,
            },
    {
        let place = match self.locate(word, sim) {
            Some(p) => p,
            None => {
                return None;
            },
        };
        let l: usize = self.levels.len();
        let r: u32 = self.row_of[word];
        let ghost row = self.row(r as int);
        proof {
            lemma_row_in_table(self.sims@.len() as int, l as int, r as int);
            lemma_place_in_row(row, sim, 0);
            assert(self.sims@.len() == self.sims.len());
        }
        let start: usize = r as usize * l;
        assert(row.len() == l);
        match place {
            RankPlace::First => Some((scale.whole)(self.levels[0])),
            RankPlace::Between(i) => {
                let seg = Segment {
                    near_level: self.levels[i],
                    far_level: self.levels[i + 1],
                    near: self.sims[start + i],
                    far: self.sims[start + i + 1],
                    sim,
                };
                assert(seg == self.segment(row, i as int, sim));
                Some((scale.inside)(seg))
            },
            RankPlace::Beyond => {
                let seg = Segment {
                    near_level: self.levels[l - 2],
                    far_level: self.levels[l - 1],
                    near: self.sims[start + l - 2],
                    far: self.sims[start + l - 1],
                    sim,
                };
                assert(seg == self.segment(row, row.len() - 2, sim));
                Some((scale.beyond)(seg).min(Double { bits: RANK_CAP }))
            },
        }
    }
}

/// A place between two levels is one of the row's.
proof fn lemma_place_in_row(row: Seq<Single>, sim: Single, i: int)
    requires
        0 <= i,
        row.len() <= usize::MAX,
    ensures
        place_from(row, sim, i) matches RankPlace::Between(k) ==> i <= k && k + 1 < row.len(),
        !(place_from(row, sim, i) is First),
    decreases row.len() - i,
{
    if i + 1 < row.len() && !row[i + 1].at_most(sim) {
        lemma_place_in_row(row, sim, i + 1);
    }
}

/// Copies a list of ranks or words.
pub fn copy_list(v: &Vec<u32>) -> (r: Vec<u32>)
    ensures
        r@ == v@,
{
    let mut r: Vec<u32> = Vec::new();
    for i in 0..v.len()
        invariant
            r@ == v@.take(i as int),
    {
        r.push(v[i]);
        assert(v@.take(i + 1) =~= v@.take(i as int).push(v@[i as int]));
    }
    assert(v@.take(v@.len() as int) =~= v@);
    r
}

/// The row of each of `n` words.
pub open spec fn rows_of(n: nat, rows: Seq<u32>) -> Seq<u32> {
    Seq::new(n, |w: int| row_index(rows, w as u32))
}

/// Row number `r` of a flat list of rows of length `l`.
pub open spec fn row_in(sims: Seq<Single>, l: int, r: int) -> Seq<Single> {
    sims.subrange(r * l, (r + 1) * l)
}

/// `row` is the tabulated row of lexicon word `r`, for similarities that `neighbours` measured.
pub open spec fn tabulates<F: Fn(usize) -> Vec<Single>>(
    neighbours: F,
    levels: Seq<u32>,
    r: int,
    row: Seq<Single>,
) -> bool {
    exists|v: Vec<Single>|
        #[trigger] call_ensures(neighbours, (r as usize,), v) && row == level_sims(v@, r, levels)
}

/// The little-endian half-precision dump of a list of numbers.
pub open spec fn half_bytes(sims: Seq<Single>) -> Seq<u8> {
    Seq::new(
        2 * sims.len(),
        |i: int|
            if i % 2 == 0 {
                (rounded(sims[i / 2]) % 256) as u8
            } else {
                (rounded(sims[i / 2]) / 256) as u8
            },
    )
}

proof fn lemma_row_bounds(k: int, r: int, l: int)
    requires
        0 <= k <= r,
        l > 0,
    ensures
        0 <= k * l,
        (k + 1) * l == k * l + l,
        k < r ==> (k + 1) * l <= r * l,
{
    assert(0 <= k * l) by (nonlinear_arith)
        requires
            0 <= k,
            l > 0,
    ;
    assert((k + 1) * l == k * l + l) by (nonlinear_arith);
    if k < r {
        assert((k + 1) * l <= r * l) by (nonlinear_arith)
            requires
                k < r,
                l > 0,
        ;
    }
}

/// A row number below the number of rows lies inside the table.
proof fn lemma_row_in_table(len: int, l: int, r: int)
    requires
        len >= 0,
        l > 0,
        0 <= r < len / l,
    ensures
        0 <= r * l,
        r * l + l <= len,
        (r + 1) * l == r * l + l,
{
    lemma_row_bounds(r, len / l, l);
    assert((len / l) * l <= len) by (nonlinear_arith)
        requires
            l > 0,
            len >= 0,
    ;
}

proof fn lemma_whole_rows(m: int, l: int)
    requires
        m >= 0,
        l > 0,
    ensures
        (m * l) % l == 0,
        (m * l) / l == m,
{
    vstd::arithmetic::div_mod::lemma_mod_multiples_basic(m, l);
    vstd::arithmetic::div_mod::lemma_div_by_multiple(m, l);
}

/// Every row number is one of the lexicon's.
proof fn lemma_rows_fit(n: nat, rows: Seq<u32>)
    requires
        rows.len() <= u32::MAX,
    ensures
        forall|w: int|
            0 <= w < n ==> (#[trigger] rows_of(n, rows)[w]) == u32::MAX || rows_of(n, rows)[w]
                < rows.len(),
{
    assert forall|w: int| 0 <= w < n implies (#[trigger] rows_of(n, rows)[w]) == u32::MAX
        || rows_of(n, rows)[w] < rows.len() by {
        lemma_row_index(rows, w as u32);
    }
}

proof fn lemma_row_index(rows: Seq<u32>, w: u32)
    requires
        rows.len() <= u32::MAX,
    ensures
        row_index(rows, w) == u32::MAX ==> !rows.contains(w),
        row_index(rows, w) != u32::MAX ==> row_index(rows, w) < rows.len() && rows[row_index(
            rows,
            w,
        ) as int] == w,
    decreases rows.len(),
{
    if rows.len() > 0 {
        let head = rows.drop_last();
        if rows.last() != w {
            lemma_row_index(head, w);
            if rows.contains(w) {
                let i = choose|i: int| 0 <= i < rows.len() && rows[i] == w;
                assert(head[i] == w);
            }
        }
    }
}

/// In a lexicon without repetitions, row number `r` belongs to its word number `r`, and words
/// outside the lexicon have no row.
pub proof fn lemma_rows_belong(n: nat, rows: Seq<u32>, w: u32)
    requires
        rows.len() <= u32::MAX,
        rows.no_duplicates(),
        w < n,
        n <= u32::MAX,
    ensures
        match rows.index_of_first(w) {
            Some(r) => rows_of(n, rows)[w as int] == r,
            None => rows_of(n, rows)[w as int] == u32::MAX,
        },
{
    lemma_row_index(rows, w);
    rows.index_of_first_ensures(w);
}

/// A table written as half-precision numbers and read back holds each similarity rounded to
/// half precision, which changes nothing of a similarity that came from such a dump.
pub proof fn lemma_dump_reads_back(sims: Seq<Single>)
    ensures
        halves_of(half_bytes(sims)).len() == sims.len(),
        forall|i: int|
            0 <= i < sims.len() ==> #[trigger] halves_of(half_bytes(sims))[i] == widened(
                rounded(sims[i]),
            ),
        forall|i: int, h: u16|
            0 <= i < sims.len() && h % 0x8000 <= half_infinity() && #[trigger] sims[i]
                == #[trigger] widened(h) ==> halves_of(half_bytes(sims))[i] == sims[i],
{
    assert forall|h: u16| h % 0x8000 <= half_infinity() implies rounded(#[trigger] widened(h))
        == h by {
        lemma_rounded_widened(h);
    }
    assert forall|i: int| 0 <= i < sims.len() implies #[trigger] halves_of(half_bytes(sims))[i]
        == widened(rounded(sims[i])) by {
        let b = half_bytes(sims);
        let h = rounded(sims[i]);
        assert((2 * i) % 2 == 0 && (2 * i) / 2 == i);
        assert((2 * i + 1) % 2 == 1 && (2 * i + 1) / 2 == i);
        assert(b[2 * i] == (h % 256) as u8);
        assert(b[2 * i + 1] == (h / 256) as u8);
        assert(half_at(b, i) == h);
    }
}

/// The similarities of a tabulated row decrease, when the levels ascend.
pub proof fn lemma_rows_decrease(sims: Seq<Single>, r: int, levels: Seq<u32>, i: int, j: int)
    requires
        sims.len() >= 2,
        0 <= r < sims.len(),
        0 <= i <= j < levels.len(),
        1 <= levels[i] <= levels[j],
        levels.last() >= 1,
    ensures
        level_sims(sims, r, levels)[i].total() >= level_sims(sims, r, levels)[j].total(),
{
    let kept = kept_count(levels, sims.len() as int);
    lemma_largest(without_self(sims, r), kept);
}

/// A more similar word is never placed further down: along a row, the place of the larger
/// similarity comes no later.
pub proof fn lemma_closer_is_no_deeper(row: Seq<Single>, near: Single, far: Single)
    requires
        0 < row.len() <= usize::MAX,
        far.at_most(near),
    ensures
        depth(place_in(row, near), row.len()) <= depth(place_in(row, far), row.len()),
{
    if !row[0].at_most(near) {
        lemma_place_from(row, near, far, 0);
    } else {
        lemma_depth_positive(row, far, 0);
    }
}

proof fn lemma_depth_positive(row: Seq<Single>, sim: Single, i: int)
    requires
        0 <= i,
    ensures
        depth(place_from(row, sim, i), row.len()) >= 0,
    decreases row.len() - i,
{
    if i + 1 < row.len() && !row[i + 1].at_most(sim) {
        lemma_depth_positive(row, sim, i + 1);
    }
}

proof fn lemma_place_from(row: Seq<Single>, near: Single, far: Single, i: int)
    requires
        0 <= i,
        row.len() <= usize::MAX,
        far.at_most(near),
    ensures
        depth(place_from(row, near, i), row.len()) <= depth(place_from(row, far, i), row.len()),
        i + 1 < row.len() ==> i + 1 <= depth(place_from(row, near, i), row.len()) <= row.len(),
    decreases row.len() - i,
{
    if i + 1 < row.len() {
        lemma_place_from(row, near, far, i + 1);
        if row[i + 1].at_most(near) && !row[i + 1].at_most(far) {
            lemma_place_from(row, far, far, i + 1);
        }
    }
}

/// A similarity that the row holds at level `i`, and that lies below those of the levels before
/// it, is placed at that very level: at the far end of the segment that ends there.
pub proof fn lemma_tabulated_lands_on_its_level(row: Seq<Single>, i: int)
    requires
        0 <= i < row.len(),
        row.len() <= usize::MAX,
        !row[i].nan(),
        forall|k: int| 0 <= k < i ==> row[i].below(#[trigger] row[k]),
    ensures
        place_in(row, row[i]) == if i == 0 {
            RankPlace::First
        } else {
            RankPlace::Between((i - 1) as usize)
        },
{
    if i > 0 {
        assert(row[i].below(row[0]));
        lemma_lands_from(row, i, 0);
    }
}

proof fn lemma_lands_from(row: Seq<Single>, i: int, k: int)
    requires
        0 <= k < i < row.len(),
        row.len() <= usize::MAX,
        !row[i].nan(),
        forall|k: int| 0 <= k < i ==> row[i].below(#[trigger] row[k]),
    ensures
        place_from(row, row[i], k) == RankPlace::Between((i - 1) as usize),
    decreases i - k,
{
    if k + 1 < i {
        assert(row[i].below(row[k + 1]));
        lemma_lands_from(row, i, k + 1);
    }
}

/// The similarities of a tabulated row are those of the neighbours whose ranks are the levels:
/// the row of the word `of` holds, at level `i`, the similarity of the neighbour of that rank.
pub proof fn lemma_level_is_the_neighbour_of_that_rank(
    of: u32,
    lexicon: Seq<u32>,
    sims: Seq<Single>,
    r: int,
    k: u32,
    levels: Seq<u32>,
    i: int,
)
    requires
        2 <= lexicon.len() <= u32::MAX,
        lexicon.len() == sims.len(),
        lexicon.no_duplicates(),
        0 <= r < lexicon.len(),
        lexicon[r] == of,
        k < lexicon.len(),
        k != r,
        (Single { bits: LOWEST_BITS }).below(sims[k as int]),
        0 <= i < levels.len(),
        levels[i] <= levels.last(),
        levels[i] == exact_rank(of, lexicon, sims, k),
    ensures
        level_sims(sims, r, levels)[i] == sims[k as int],
        nearest_first(without_self(sims, r))[levels[i] - 1] == k,
{
    let b = without_self(sims, r);
    let order = nearest_first(b);
    lemma_nearest_first(b);
    lemma_sorted_by_position(b);
    assert(order.contains(k));
    let p = choose|p: int| 0 <= p < order.len() && order[p] == k;
    let before = order.take(p);
    let others = nearer_others(of, lexicon, sims, k);
    assert(lexicon[k as int] != of);
    assert forall|x: u32| #[trigger] others.contains(x) <==> before.to_set().contains(x) by {
        if others.contains(x) {
            assert(order.contains(x));
            let q = choose|q: int| 0 <= q < order.len() && order[q] == x;
            if q > p {
                assert(nearer(b)(order[p], order[q]));
            }
            assert(before[q] == x);
        }
        if before.to_set().contains(x) {
            let q = choose|q: int| 0 <= q < before.len() && before[q] == x;
            assert(order[q] == x);
            assert(nearer(b)(order[q], order[p]));
            if x == r {
                lemma_single_total_order(Single { bits: LOWEST_BITS }, sims[k as int]);
            }
            assert(lexicon[x as int] != of);
        }
    }
    assert(others =~= before.to_set());
    before.unique_seq_to_set();
    assert(levels[i] == p + 1);
    let kept = kept_count(levels, sims.len() as int);
    assert(level_position(levels[i], kept) == p);
}

/// A tabulated rank is exact: where `levels[i]` is the rank of neighbour `k` and no other
/// neighbour is as similar, its similarity is placed at the end of the segment of its own level.
/// What `rank` answers is then the first level as it is, or the interpolation at the far end of
/// the segment that ends at level `i`.
pub proof fn lemma_table_is_exact_at_its_levels<
    W: Fn(u32) -> Double,
    I: Fn(Segment) -> Double,
    X: Fn(Segment) -> Double,
>(
    t: RankTable,
    of: u32,
    lexicon: Seq<u32>,
    sims: Seq<Single>,
    r: int,
    k: u32,
    i: int,
    scale: RankScale<W, I, X>,
    x: Double,
)
    requires
        2 <= lexicon.len() <= u32::MAX,
        lexicon.len() == sims.len(),
        lexicon.no_duplicates(),
        0 <= r < lexicon.len(),
        lexicon[r] == of,
        k < lexicon.len(),
        k != r,
        // cosines are numbers, and another neighbour lies elsewhere
        forall|j: int| 0 <= j < sims.len() ==> (Single { bits: LOWEST_BITS }).below(#[trigger] sims[j]),
        forall|j: int|
            0 <= j < sims.len() && j != r && j != k ==> (#[trigger] sims[j]).place()
                != sims[k as int].place(),
        2 <= t.levels@.len() <= usize::MAX,
        forall|a: int, b: int|
            0 <= a < b < t.levels@.len() ==> #[trigger] t.levels@[a] < #[trigger] t.levels@[b],
        t.levels@[0] >= 1,
        0 <= i < t.levels@.len(),
        t.levels@[i] == exact_rank(of, lexicon, sims, k),
        t.ranks_at(level_sims(sims, r, t.levels@), sims[k as int], scale, x),
    ensures
        i == 0 ==> call_ensures(scale.whole, (t.levels@[0],), x),
        i > 0 ==> exists|s: Segment| #[trigger]
            call_ensures(scale.inside, (s,), x) && s.far_level == t.levels@[i] && s.sim == s.far
                && s.near_level == t.levels@[i - 1] && s.sim.below(s.near),
{
    let levels = t.levels@;
    let row = level_sims(sims, r, levels);
    let b = without_self(sims, r);
    let sorted = b.sort_by(crate::order::largest_first());
    let kept = kept_count(levels, sims.len() as int);
    let target = sims[k as int];
    if i < levels.len() - 1 {
        assert(levels[i] < levels[levels.len() - 1]);
    }
    lemma_level_is_the_neighbour_of_that_rank(of, lexicon, sims, r, k, levels, i);
    lemma_nearest_first(b);
    lemma_sorted_by_position(b);
    lemma_largest(b, kept);
    let order = nearest_first(b);
    let p = levels[i] - 1;
    assert(levels.last() >= 1) by {
        if levels.len() > 1 {
            assert(levels[0] < levels[levels.len() - 1]);
        }
    }
    lemma_rank_in_lexicon(of, lexicon, sims, r, k);
    assert(p < kept);
    assert(sorted[p] == b[order[p] as int]);
    assert forall|a: int| 0 <= a < i implies row[i].below(#[trigger] row[a]) by {
        assert(levels[a] < levels[i]);
        if a > 0 {
            assert(levels[0] < levels[a]);
        }
        let q = levels[a] - 1;
        assert(row[a] == sorted[q]);
        assert(sorted[q] == b[order[q] as int]);
        let y = order[q];
        assert(largest(b, kept)[q].total() >= largest(b, kept)[p].total());
        assert(row[a].total() >= target.total());
        lemma_single_total_order(Single { bits: LOWEST_BITS }, target);
        assert(y != r);
        assert(b[y as int] == sims[y as int]);
        assert(order[p] == k && y != k);
        assert(sims[y as int].place() != target.place());
    }
    lemma_tabulated_lands_on_its_level(row, i);
    if i > 0 {
        let s = t.segment(row, i - 1, target);
        assert(row[i].below(row[i - 1]));
        assert(call_ensures(scale.inside, (s,), x));
    }
}

/// The rank of a neighbour is at most the number of the others.
proof fn lemma_rank_in_lexicon(of: u32, lexicon: Seq<u32>, sims: Seq<Single>, r: int, k: u32)
    requires
        lexicon.len() <= u32::MAX,
        0 <= r < lexicon.len(),
        lexicon[r] == of,
        k < lexicon.len(),
        k != r,
        lexicon.no_duplicates(),
    ensures
        exact_rank(of, lexicon, sims, k) < lexicon.len(),
{
    let others = nearer_others(of, lexicon, sims, k);
    let all = Set::new(|j: u32| j < lexicon.len());
    lemma_below_is_finite(lexicon.len());
    assert(others.subset_of(all.remove(k).remove(r as u32)));
    vstd::set_lib::lemma_len_subset(others, all.remove(k).remove(r as u32));
}

/// There are `n` numbers below `n`.
proof fn lemma_below_is_finite(n: nat)
    requires
        n <= u32::MAX,
    ensures
        Set::new(|j: u32| j < n).finite(),
        Set::new(|j: u32| j < n).len() == n,
    decreases n,
{
    let all = Set::new(|j: u32| j < n);
    if n == 0 {
        assert(all =~= Set::empty());
    } else {
        lemma_below_is_finite((n - 1) as nat);
        assert(all =~= Set::new(|j: u32| j < n - 1).insert((n - 1) as u32));
    }
}

/// A word has a rank in a table exactly when it belongs to the ranking lexicon.
pub proof fn lemma_only_the_lexicon_is_ranked(t: RankTable, n: nat, rows: Seq<u32>, w: u32)
    requires
        rows.len() <= u32::MAX,
        n <= u32::MAX,
        forall|r: int| 0 <= r < rows.len() ==> (#[trigger] rows[r]) < n,
        t.row_of@ == rows_of(n, rows),
    ensures
        t.row_for(w as int) is Some <==> rows.contains(w),
{
    lemma_row_index(rows, w);
    if rows.contains(w) {
        let r = choose|r: int| 0 <= r < rows.len() && rows[r] == w;
        assert(rows[r] < n);
    }
}

impl Segment {
    /// The similarity lies between those of the two levels.
    pub open spec fn spans(self) -> bool {
        self.far.at_most(self.sim) && self.sim.below(self.near)
    }

    /// The similarity lies below both.
    pub open spec fn ends_above(self) -> bool {
        self.far.at_most(self.near) && self.sim.below(self.far)
    }

    /// The same two levels, and a similarity that is no larger.
    pub open spec fn no_nearer(self, other: Segment) -> bool {
        &&& self.near_level == other.near_level
        &&& self.far_level == other.far_level
        &&& self.near == other.near
        &&& self.far == other.far
        &&& self.sim.at_most(other.sim)
    }
}

impl<W: Fn(u32) -> Double, I: Fn(Segment) -> Double, X: Fn(Segment) -> Double> RankScale<W, I, X> {
    /// The scale gives a level as the number it is; inside a segment it stays between its two
    /// levels, and below the table at or above the last; and in both it falls as the similarity
    /// grows.
    pub open spec fn fair(self, number: spec_fn(u32) -> Double) -> bool {
        &&& forall|l: u32, x: Double| #[trigger]
            call_ensures(self.whole, (l,), x) ==> x == number(l)
        &&& forall|s: Segment, x: Double|
            s.spans() && #[trigger] call_ensures(self.inside, (s,), x) ==> number(
                s.near_level,
            ).at_most(x) && x.at_most(number(s.far_level))
        &&& forall|s: Segment, t: Segment, x: Double, y: Double|
            s.spans() && t.spans() && s.no_nearer(t) && #[trigger] call_ensures(
                self.inside,
                (s,),
                x,
            ) && #[trigger] call_ensures(self.inside, (t,), y) ==> y.at_most(x)
        &&& forall|s: Segment, x: Double|
            s.ends_above() && #[trigger] call_ensures(self.beyond, (s,), x) ==> number(
                s.far_level,
            ).at_most(x)
        &&& forall|s: Segment, t: Segment, x: Double, y: Double|
            s.ends_above() && t.ends_above() && s.no_nearer(t) && #[trigger] call_ensures(
                self.beyond,
                (s,),
                x,
            ) && #[trigger] call_ensures(self.beyond, (t,), y) ==> y.at_most(x)
    }
}

/// A place between two levels has its similarity between theirs, and a place beyond them below
/// the last.
proof fn lemma_place_bounds(row: Seq<Single>, sim: Single, i: int)
    requires
        0 <= i < row.len(),
        row.len() <= usize::MAX,
        !sim.nan(),
        forall|k: int| 0 <= k < row.len() ==> !(#[trigger] row[k]).nan(),
        sim.below(row[i]),
    ensures
        place_from(row, sim, i) matches RankPlace::Between(k) ==> k + 1 < row.len() && sim.below(
            row[k as int],
        ) && row[k + 1].at_most(sim),
        place_from(row, sim, i) is Beyond ==> sim.below(row.last()),
        !(place_from(row, sim, i) is First),
    decreases row.len() - i,
{
    if i + 1 < row.len() && !row[i + 1].at_most(sim) {
        lemma_place_bounds(row, sim, i + 1);
    }
}

/// A rank lies where its place says: it is the first level, or between the two levels of its
/// segment, or from the last level up to the cap.
proof fn lemma_rank_within_its_place<
    W: Fn(u32) -> Double,
    I: Fn(Segment) -> Double,
    X: Fn(Segment) -> Double,
>(
    t: RankTable,
    row: Seq<Single>,
    scale: RankScale<W, I, X>,
    number: spec_fn(u32) -> Double,
    sim: Single,
    x: Double,
)
    requires
        scale.fair(number),
        2 <= row.len() == t.levels@.len(),
        row.len() <= usize::MAX,
        forall|i: int, j: int|
            0 <= i <= j < row.len() ==> (#[trigger] row[j]).at_most(#[trigger] row[i]),
        number(t.levels@.last()).at_most(Double { bits: RANK_CAP }),
        !sim.nan(),
        t.ranks_at(row, sim, scale, x),
    ensures
        match place_in(row, sim) {
            RankPlace::First => x == number(t.levels@[0]),
            RankPlace::Between(i) => {
                &&& i + 1 < row.len()
                &&& t.segment(row, i as int, sim).spans()
                &&& number(t.levels@[i as int]).at_most(x)
                &&& x.at_most(number(t.levels@[i + 1]))
            },
            RankPlace::Beyond => {
                &&& t.segment(row, row.len() - 2, sim).ends_above()
                &&& number(t.levels@.last()).at_most(x)
                &&& x.at_most(Double { bits: RANK_CAP })
            },
        },
{
    assert forall|k: int| 0 <= k < row.len() implies !(#[trigger] row[k]).nan() by {
        assert(row[k].at_most(row[k]));
    }
    if !row[0].at_most(sim) {
        lemma_place_bounds(row, sim, 0);
        match place_in(row, sim) {
            RankPlace::Between(i) => {
                assert(t.segment(row, i as int, sim).spans());
            },
            _ => {
                let s = t.segment(row, row.len() - 2, sim);
                assert(row[row.len() - 1].at_most(row[row.len() - 2]));
                assert(s.ends_above());
                let y = choose|y: Double| #[trigger]
                    call_ensures(scale.beyond, (s,), y) && x == y.lower(Double { bits: RANK_CAP });
                assert(number(s.far_level).at_most(y));
            },
        }
    }
}

/// A higher cosine never gives a worse rank, and every rank lies between the first level and the
/// cap: along a row whose similarities do not increase, for any scale that does so inside its
/// segments.
pub proof fn lemma_rank_is_monotone<
    W: Fn(u32) -> Double,
    I: Fn(Segment) -> Double,
    X: Fn(Segment) -> Double,
>(
    t: RankTable,
    row: Seq<Single>,
    scale: RankScale<W, I, X>,
    number: spec_fn(u32) -> Double,
    a: Single,
    b: Single,
    x: Double,
    y: Double,
)
    requires
        scale.fair(number),
        2 <= row.len() == t.levels@.len(),
        row.len() <= usize::MAX,
        forall|i: int, j: int|
            0 <= i <= j < row.len() ==> (#[trigger] row[j]).at_most(#[trigger] row[i]),
        forall|i: int, j: int|
            0 <= i <= j < row.len() ==> number(#[trigger] t.levels@[i]).at_most(
                number(#[trigger] t.levels@[j]),
            ),
        number(t.levels@.last()).at_most(Double { bits: RANK_CAP }),
        a.at_most(b),
        t.ranks_at(row, a, scale, x),
        t.ranks_at(row, b, scale, y),
    ensures
        y.at_most(x),
        number(t.levels@[0]).at_most(y),
        x.at_most(Double { bits: RANK_CAP }),
        row[0].at_most(b) ==> y == number(t.levels@[0]),
{
    let n = row.len() as int;
    lemma_rank_within_its_place(t, row, scale, number, a, x);
    lemma_rank_within_its_place(t, row, scale, number, b, y);
    lemma_closer_is_no_deeper(row, b, a);
    assert(t.levels@.last() == t.levels@[n - 1]);
    assert(number(t.levels@[0]).at_most(number(t.levels@[n - 1])));
    match (place_in(row, a), place_in(row, b)) {
        (RankPlace::Between(i), RankPlace::Between(j)) => {
            assert(number(t.levels@[i + 1]).at_most(number(t.levels@[n - 1])));
            assert(number(t.levels@[0]).at_most(number(t.levels@[j as int])));
            if i == j {
                assert(t.segment(row, i as int, a).no_nearer(t.segment(row, i as int, b)));
            } else {
                assert(number(t.levels@[j + 1]).at_most(number(t.levels@[i as int])));
            }
        },
        (RankPlace::Between(i), RankPlace::First) => {
            assert(number(t.levels@[0]).at_most(number(t.levels@[i as int])));
            assert(number(t.levels@[i + 1]).at_most(number(t.levels@[n - 1])));
        },
        (RankPlace::Beyond, RankPlace::Between(j)) => {
            assert(number(t.levels@[j + 1]).at_most(number(t.levels@[n - 1])));
            assert(number(t.levels@[0]).at_most(number(t.levels@[j as int])));
        },
        (RankPlace::Beyond, RankPlace::Beyond) => {
            let (s, u) = (t.segment(row, n - 2, a), t.segment(row, n - 2, b));
            assert(s.no_nearer(u));
            let v = choose|v: Double| #[trigger]
                call_ensures(scale.beyond, (s,), v) && x == v.lower(Double { bits: RANK_CAP });
            let w = choose|w: Double| #[trigger]
                call_ensures(scale.beyond, (u,), w) && y == w.lower(Double { bits: RANK_CAP });
            assert(w.at_most(v));
        },
        _ => {},
    }
}

/// Levels past the lexicon hold the lowest similarity of all: there is no such neighbour.
pub proof fn lemma_levels_past_the_lexicon_are_empty(
    sims: Seq<Single>,
    r: int,
    levels: Seq<u32>,
    i: int,
)
    requires
        2 <= sims.len() <= u32::MAX,
        0 <= r < sims.len(),
        0 <= i < levels.len(),
        sims.len() <= levels[i] <= levels.last(),
        forall|j: int| 0 <= j < sims.len() ==> (Single { bits: LOWEST_BITS }).below(#[trigger] sims[j]),
    ensures
        level_sims(sims, r, levels)[i] == (Single { bits: 0xff80_0000 }),
{
    let b = without_self(sims, r);
    let order = nearest_first(b);
    let n = sims.len() as int;
    lemma_nearest_first(b);
    lemma_sorted_by_position(b);
    assert(order.contains(r as u32));
    let p = choose|p: int| 0 <= p < order.len() && order[p] == r as u32;
    if p < n - 1 {
        let x = order[n - 1];
        assert(nearer(b)(order[p], order[n - 1]));
        lemma_single_total_order(Single { bits: LOWEST_BITS }, sims[x as int]);
        assert(x != r);
    }
    lemma_largest(b, kept_count(levels, n));
}

/// The similarity of a word is placed between the two levels that hold it: at or above the lower
/// of the two, and below the upper.
pub proof fn lemma_place_is_where_it_says(row: Seq<Single>, sim: Single)
    requires
        0 < row.len() <= usize::MAX,
        !sim.nan(),
        forall|k: int| 0 <= k < row.len() ==> !(#[trigger] row[k]).nan(),
    ensures
        match place_in(row, sim) {
            RankPlace::First => row[0].value() <= sim.value(),
            RankPlace::Between(k) => k + 1 < row.len() && row[k + 1].value() <= sim.value()
                < row[k as int].value(),
            RankPlace::Beyond => sim.value() < row.last().value() && sim.value() < row[0].value(),
        },
{
    lemma_single_order_is_numeric(row[0], sim);
    lemma_single_order_is_numeric(sim, row[0]);
    if !row[0].at_most(sim) {
        lemma_place_bounds(row, sim, 0);
        match place_in(row, sim) {
            RankPlace::Between(k) => {
                lemma_single_order_is_numeric(row[k + 1], sim);
                lemma_single_order_is_numeric(sim, row[k as int]);
            },
            _ => {
                lemma_single_order_is_numeric(sim, row.last());
            },
        }
    }
}

/// A rank past the table is never given as more than a million.
pub proof fn lemma_ranks_are_capped<
    W: Fn(u32) -> Double,
    I: Fn(Segment) -> Double,
    X: Fn(Segment) -> Double,
>(t: RankTable, row: Seq<Single>, sim: Single, scale: RankScale<W, I, X>, r: Double)
    requires
        row.len() > 1,
        t.ranks_at(row, sim, scale, r),
        forall|i: int| 0 <= i < row.len() ==> !(#[trigger] row[i]).at_most(sim),
    ensures
        r.at_most(Double { bits: 0x412e_8480_0000_0000 }),
        exists|x: Double| #[trigger]
            call_ensures(
                scale.beyond,
                (
                    (Segment {
                        near_level: t.levels@[row.len() - 2],
                        far_level: t.levels@[row.len() - 1],
                        near: row[row.len() - 2],
                        far: row[row.len() - 1],
                        sim,
                    }),
                ),
                x,
            ) && (x.at_most(Double { bits: 0x412e_8480_0000_0000 }) ==> r == x),
{
    lemma_below_all_is_beyond(row, sim, 0);
}

proof fn lemma_below_all_is_beyond(row: Seq<Single>, sim: Single, i: int)
    requires
        0 <= i,
        forall|k: int| 0 <= k < row.len() ==> !(#[trigger] row[k]).at_most(sim),
    ensures
        place_from(row, sim, i) is Beyond,
    decreases row.len() - i,
{
    if i + 1 < row.len() {
        lemma_below_all_is_beyond(row, sim, i + 1);
    }
}

/// The tabulated levels grow from the nearest neighbour to the two thousandth, and none is more
/// than twice the one before.
pub proof fn lemma_levels_grow(i: int, j: int)
    requires
        0 <= i < j < RANK_LEVELS@.len(),
    ensures
        RANK_LEVELS@[i] < RANK_LEVELS@[j],
        RANK_LEVELS@[0] == 1,
        RANK_LEVELS@[RANK_LEVELS@.len() - 1] == 2000,
        j == i + 1 ==> RANK_LEVELS@[j] <= 2 * RANK_LEVELS@[i],
        RANK_LEVELS@.len() == 18,
{
}

/// A dump of similarities is stored with the least significant byte first.
pub proof fn lemma_dump_is_little_endian(sims: Seq<Single>, i: int)
    requires
        0 <= i < sims.len(),
    ensures
        half_bytes(sims).len() == 2 * sims.len(),
        half_bytes(sims)[2 * i] + 256 * half_bytes(sims)[2 * i + 1] == rounded(sims[i]),
{
    assert(half_bytes(sims)[2 * i] == (rounded(sims[i]) % 256) as u8);
    assert(half_bytes(sims)[2 * i + 1] == (rounded(sims[i]) / 256) as u8);
}

/// The powers of the window grow: each from the third on is the sum of the two before it.
pub proof fn lemma_window_powers_grow(i: int)
    requires
        0 <= i < 5,
    ensures
        RANK_TOL_MULT@.len() == 5,
        RANK_TOL_MULT@[0] == 1 && RANK_TOL_MULT@[1] == 2,
        i >= 2 ==> RANK_TOL_MULT@[i] == RANK_TOL_MULT@[i - 1] + RANK_TOL_MULT@[i - 2],
{
}

} // verus!
