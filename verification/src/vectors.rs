//! The lexicon: normalised word vectors and the mask of plausible secrets.

use vstd::hash_map::StringHashMap;
use vstd::prelude::*;
use vstd::slice::slice_subrange;

use crate::cosine::{cosine, measure, measures};
use crate::f16::{to_f32, widened};
use crate::flags::{collect_set, count_set, set_count, set_positions};
use crate::ieee::{lemma_single_order_is_numeric, lemma_single_total_order, Single};
use crate::order::{lemma_nearest_first, nearer, nearest_first, order_by_similarity, positions};
use crate::ranks::RankTable;
use crate::text::texts;
use crate::words::{is_plausible_word, plausible_word};

verus! {

/// Words beyond this frequency rank are not considered plausible secrets.
pub const PRIOR_RANK: usize = 50_000;

/// `i` is the first position of `w` in a word list.
pub open spec fn first_at(words: Seq<Seq<char>>, w: Seq<char>, i: int) -> bool {
    0 <= i < words.len() && words[i] == w && forall|j: int| 0 <= j < i ==> words[j] != w
}

/// An index of a word list: it maps each word to its first position.
pub open spec fn indexes(index: Map<Seq<char>, u32>, words: Seq<Seq<char>>) -> bool {
    forall|w: Seq<char>|
        if #[trigger] index.contains_key(w) {
            first_at(words, w, index[w] as int)
        } else {
            !words.contains(w)
        }
}

/// Which words of a list are plausible secrets: frequent ones with a plausible form.
pub open spec fn plausible_flags(words: Seq<Seq<char>>, prior_rank: int) -> Seq<bool> {
    Seq::new(words.len(), |i: int| i < prior_rank && plausible_word(words[i]))
}

/// The half-precision bit pattern number `i` of a little-endian dump.
pub open spec fn half_at(bytes: Seq<u8>, i: int) -> u16 {
    (bytes[2 * i] + 256 * bytes[2 * i + 1]) as u16
}

/// The numbers of a little-endian half-precision dump. An odd byte at the end is left out.
pub open spec fn halves_of(bytes: Seq<u8>) -> Seq<Single> {
    Seq::new(bytes.len() / 2, |i: int| widened(half_at(bytes, i)))
}

/// Reads a little-endian half-precision dump.
pub fn read_halves(bytes: &[u8]) -> (r: Vec<Single>)
    ensures
        r@ == halves_of(bytes@),
{
    let mut r: Vec<Single> = Vec::new();
    let n: usize = bytes.len() / 2;
    for i in 0..n
        invariant
            n == bytes.len() / 2,
            r@ == halves_of(bytes@).take(i as int),
    {
        let h: u16 = bytes[2 * i] as u16 + 256 * (bytes[2 * i + 1] as u16);
        r.push(to_f32(h));
        assert(r@ =~= halves_of(bytes@).take(i + 1));
    }
    assert(halves_of(bytes@).take(n as int) =~= halves_of(bytes@));
    r
}

/// Normalised word vectors plus the plausible-secret mask.
pub struct Vectors {
    pub name: String,
    pub dim: usize,
    pub words: Vec<String>,
    /// One row of `dim` numbers per word, each row of unit length.
    pub vecs: Vec<Single>,
    pub index: StringHashMap<u32>,
    pub plausible: Vec<bool>,
    pub opener: Option<u32>,
    /// Opener for the rank games, where the other one is worthless.
    pub rank_opener: Option<u32>,
    /// Neighbour quantiles, needed by the rank games.
    pub ranks: Option<RankTable>,
}

impl Vectors {
    /// The words, as texts.
    pub open spec fn texts(self) -> Seq<Seq<char>> {
        texts(self.words@)
    }

    /// The tables agree on the number of words, the index is an index of them, and the
    /// openers are words.
    pub open spec fn wf(self) -> bool {
        let n = self.words@.len();
        &&& n <= u32::MAX
        &&& self.vecs@.len() == n * self.dim
        &&& self.plausible@.len() == n
        &&& indexes(self.index@, self.texts())
        &&& self.opener matches Some(i) ==> i < n
        &&& self.rank_opener matches Some(i) ==> i < n
        &&& self.ranks matches Some(t) ==> t.wf()
    }

    pub fn new(
        name: String,
        dim: usize,
        words: Vec<String>,
        vecs: Vec<Single>,
        prior_rank: usize,
    ) -> (r: Self)
        requires
            words@.len() <= u32::MAX,
            vecs@.len() == words@.len() * dim,
        ensures
            r.wf(),
            r.name == name,
            r.dim == dim,
            r.words == words,
            r.vecs == vecs,
            r.plausible@ == plausible_flags(texts(words@), prior_rank as int),
            r.opener is None,
            r.rank_opener is None,
            r.ranks is None,
    {
        let mut index: StringHashMap<u32> = StringHashMap::new();
        let mut plausible: Vec<bool> = Vec::new();
        let ghost all = texts(words@);
        assert(all.take(0) =~= Seq::empty());
        for i in 0..words.len()
            invariant
                words@.len() <= u32::MAX,
                all == texts(words@),
                indexes(index@, all.take(i as int)),
                plausible@ == plausible_flags(all, prior_rank as int).take(i as int),
        {
            let ghost known = index@;
            let ghost w = all[i as int];
            let ghost (old_part, new_part) = (all.take(i as int), all.take(i + 1));
            if !index.contains_key(words[i].as_str()) {
                index.insert(words[i].clone(), i as u32);
            }
            proof {
                assert(new_part =~= old_part.push(w));
                assert forall|v: Seq<char>|
                    if #[trigger] index@.contains_key(v) {
                        first_at(new_part, v, index@[v] as int)
                    } else {
                        !new_part.contains(v)
                    } by {
                    if known.contains_key(v) {
                        assert(first_at(old_part, v, known[v] as int));
                    } else {
                        assert(!old_part.contains(v));
                        if v == w {
                            assert(new_part[i as int] == w);
                            assert forall|j: int| 0 <= j < i implies new_part[j] != w by {
                                assert(old_part.contains(old_part[j]));
                            }
                        } else if new_part.contains(v) {
                            let j = choose|j: int| 0 <= j < new_part.len() && new_part[j] == v;
                            assert(old_part[j] == v);
                        }
                    }
                }
            }
            plausible.push(i < prior_rank && is_plausible_word(words[i].as_str()));
            assert(plausible@ =~= plausible_flags(all, prior_rank as int).take(i + 1));
        }
        assert(all.take(words@.len() as int) =~= all);
        assert(plausible_flags(all, prior_rank as int).take(words@.len() as int)
            =~= plausible_flags(all, prior_rank as int));
        Vectors {
            name,
            dim,
            words,
            vecs,
            index,
            plausible,
            opener: None,
            rank_opener: None,
            ranks: None,
        }
    }

    /// Build from little-endian half-precision rows (the compact web model).
    pub fn from_f16(
        name: String,
        dim: usize,
        words: Vec<String>,
        bytes: &[u8],
        prior_rank: usize,
    ) -> (r: Self)
        requires
            words@.len() <= u32::MAX,
            bytes@.len() / 2 == words@.len() * dim,
        ensures
            r.wf(),
            r.name == name,
            r.dim == dim,
            r.words == words,
            r.vecs@ == halves_of(bytes@),
            r.plausible@ == plausible_flags(texts(words@), prior_rank as int),
            r.opener is None,
            r.rank_opener is None,
            r.ranks is None,
    {
        let vecs = read_halves(bytes);
        Vectors::new(name, dim, words, vecs, prior_rank)
    }

    /// Number of words.
    pub fn n(&self) -> (r: usize)
        ensures
            r == self.words@.len(),
    {
        self.words.len()
    }

    /// The vector of word `i`.
    pub fn vec(&self, i: usize) -> (r: &[Single])
        requires
            self.wf(),
            i < self.words@.len(),
        ensures
            r@ == self.vecs@.subrange(i * self.dim, (i + 1) * self.dim),
    {
        proof {
            assert(i * self.dim + self.dim == (i + 1) * self.dim) by (nonlinear_arith);
            assert((i + 1) * self.dim <= self.words@.len() * self.dim) by (nonlinear_arith)
                requires
                    i < self.words@.len(),
            ;
            assert(0 <= i * self.dim) by (nonlinear_arith);
            assert(self.vecs@.len() == self.vecs.len());
        }
        let from: usize = i * self.dim;
        slice_subrange(self.vecs.as_slice(), from, from + self.dim)
    }

    /// First position of a word.
    pub fn lookup(&self, w: &str) -> (r: Option<u32>)
        requires
            self.wf(),
        ensures
            match r {
                Some(i) => first_at(self.texts(), w@, i as int),
                None => !self.texts().contains(w@),
            },
    {
        match self.index.get(w) {
            Some(i) => Some(*i),
            None => None,
        }
    }

    /// How many words are plausible secrets.
    pub fn plausible_count(&self) -> (r: usize)
        ensures
            r == set_count(self.plausible@),
    {
        count_set(&self.plausible)
    }

    /// The plausible secrets, most frequent first.
    pub fn plausible_indices(&self) -> (r: Vec<u32>)
        requires
            self.wf(),
        ensures
            r@ == set_positions(self.plausible@),
    {
        collect_set(&self.plausible)
    }

    /// out[j] = how similar word j is to word i, for every j.
    pub fn dots_into<F: Fn(u32, u32) -> Single>(&self, i: u32, sim: &F, out: &mut Vec<Single>)
        requires
            measures(*sim, self.words@.len()),
            self.words@.len() <= u32::MAX,
            i < self.words@.len(),
            old(out)@.len() <= self.words@.len(),
        ensures
            final(out)@ == similarities_to(*sim, i, positions(old(out)@.len())),
    {
        let n: usize = out.len();
        let ghost all = similarities_to(*sim, i, positions(n as nat));
        for j in 0..n
            invariant
                n == out@.len(),
                measures(*sim, self.words@.len()),
                self.words@.len() <= u32::MAX,
                i < self.words@.len(),
                out@.len() <= self.words@.len(),
                all == similarities_to(*sim, i, positions(n as nat)),
                out@.take(j as int) == all.take(j as int),
        {
            out.set(j, measure(sim, j as u32, i));
            assert(out@.take(j + 1) =~= all.take(j + 1)) by {
                assert forall|k: int| 0 <= k < j implies out@[k] == all[k] by {
                    assert(out@.take(j as int)[k] == all.take(j as int)[k]);
                }
            }
        }
        assert(out@.take(out@.len() as int) =~= out@);
        assert(all.take(all.len() as int) =~= all);
    }

    /// How similar each word is to word `i`.
    pub fn dots<F: Fn(u32, u32) -> Single>(&self, i: u32, sim: &F) -> (r: Vec<Single>)
        requires
            measures(*sim, self.words@.len()),
            self.words@.len() <= u32::MAX,
            i < self.words@.len(),
        ensures
            r@ == similarities_to(*sim, i, positions(self.words@.len())),
    {
        let mut out: Vec<Single> = vec![Single { bits: 0 }; self.words.len()];
        self.dots_into(i, sim, &mut out);
        out
    }

    /// out[k] = how similar word subset[k] is to word i.
    pub fn dots_subset_into<F: Fn(u32, u32) -> Single>(
        &self,
        i: u32,
        subset: &Vec<u32>,
        sim: &F,
        out: &mut Vec<Single>,
    )
        requires
            measures(*sim, self.words@.len()),
            i < self.words@.len(),
            forall|k: int| 0 <= k < subset@.len() ==> (#[trigger] subset@[k]) < self.words@.len(),
            subset@.len() == old(out)@.len(),
        ensures
            final(out)@ == similarities_to(*sim, i, subset@),
    {
        let n: usize = out.len();
        let ghost all = similarities_to(*sim, i, subset@);
        for j in 0..n
            invariant
                n == out@.len(),
                measures(*sim, self.words@.len()),
                i < self.words@.len(),
                forall|k: int|
                    0 <= k < subset@.len() ==> (#[trigger] subset@[k]) < self.words@.len(),
                subset@.len() == out@.len(),
                all == similarities_to(*sim, i, subset@),
                out@.take(j as int) == all.take(j as int),
        {
            out.set(j, measure(sim, subset[j], i));
            assert(out@.take(j + 1) =~= all.take(j + 1)) by {
                assert forall|k: int| 0 <= k < j implies out@[k] == all[k] by {
                    assert(out@.take(j as int)[k] == all.take(j as int)[k]);
                }
            }
        }
        assert(out@.take(out@.len() as int) =~= out@);
        assert(all.take(all.len() as int) =~= all);
    }

    /// Exact rank of every word of `lexicon` among the neighbours of `of` (1 = nearest, `of`
    /// itself excluded). Counted, not interpolated: this is the reference the tabulated
    /// estimate is checked against.
    pub fn exact_ranks<F: Fn(u32, u32) -> Single>(&self, of: u32, lexicon: &Vec<u32>, sim: &F) -> (r:
        Vec<u32>)
        requires
            measures(*sim, self.words@.len()),
            of < self.words@.len(),
            lexicon@.len() <= u32::MAX,
            forall|k: int| 0 <= k < lexicon@.len() ==> (#[trigger] lexicon@[k]) < self.words@.len(),
        ensures
            r@.len() == lexicon@.len(),
            forall|k: u32|
                k < lexicon@.len() ==> #[trigger] r@[k as int] == exact_rank(
                    of,
                    lexicon@,
                    similarities_to(*sim, of, lexicon@),
                    k,
                ),
    {
        let mut sims: Vec<Single> = vec![Single { bits: 0 }; lexicon.len()];
        self.dots_subset_into(of, lexicon, sim, &mut sims);
        ranks_by_similarity(of, lexicon, &sims)
    }
}

/// How similar the words of a lexicon are to the word `of`.
pub open spec fn similarities_to<F: Fn(u32, u32) -> Single>(
    sim: F,
    of: u32,
    lexicon: Seq<u32>,
) -> Seq<Single> {
    Seq::new(lexicon.len(), |k: int| cosine(sim, lexicon[k], of))
}

/// The positions of a lexicon that are nearer than position `k` to the word `of`, that word
/// itself left out.
pub open spec fn nearer_others(of: u32, lexicon: Seq<u32>, sims: Seq<Single>, k: u32) -> Set<u32> {
    Set::new(
        |j: u32| j < lexicon.len() && lexicon[j as int] != of && j != k && nearer(sims)(j, k),
    )
}

/// Rank of position `k` of a lexicon among the neighbours of `of`: one more than the number
/// of nearer neighbours, and 0 for the word itself.
pub open spec fn exact_rank(of: u32, lexicon: Seq<u32>, sims: Seq<Single>, k: u32) -> nat {
    if lexicon[k as int] == of {
        0
    } else {
        nearer_others(of, lexicon, sims, k).len() + 1
    }
}

/// Ranks of a lexicon among the neighbours of `of`, given how similar each of its words is.
pub fn ranks_by_similarity(of: u32, lexicon: &Vec<u32>, sims: &Vec<Single>) -> (r: Vec<u32>)
    requires
        lexicon@.len() == sims@.len(),
        lexicon@.len() <= u32::MAX,
    ensures
        r@.len() == lexicon@.len(),
        forall|k: u32|
            k < lexicon@.len() ==> #[trigger] r@[k as int] == exact_rank(of, lexicon@, sims@, k),
{
    let n: usize = lexicon.len();
    let order = order_by_similarity(sims);
    let mut ranks: Vec<u32> = vec![0u32; n];
    let mut r: u32 = 0;
    proof {
        lemma_nearest_first(sims@);
    }
    let ghost mut seen: Set<u32> = Set::empty();
    for t in 0..order.len()
        invariant
            n == lexicon@.len() == sims@.len() == order@.len() == ranks@.len(),
            n <= u32::MAX,
            order@ == nearest_first(sims@),
            order@.no_duplicates(),
            forall|i: int| 0 <= i < n ==> (#[trigger] order@[i]) < n,
            forall|x: u32| x < n ==> #[trigger] order@.contains(x),
            vstd::relations::sorted_by(order@, nearer(sims@)),
            seen.finite(),
            r == seen.len(),
            r <= t,
            forall|x: u32| #[trigger]
                seen.contains(x) <==> x < n && lexicon@[x as int] != of && order@.take(
                    t as int,
                ).contains(x),
            forall|i: int|
                #![trigger order@[i]]
                0 <= i < t ==> ranks@[order@[i] as int] == exact_rank(
                    of,
                    lexicon@,
                    sims@,
                    order@[i],
                ),
    {
        let k: u32 = order[t];
        proof {
            assert(seen =~= nearer_others(of, lexicon@, sims@, k)) by {
                assert forall|x: u32| seen.contains(x) <==> nearer_others(
                    of,
                    lexicon@,
                    sims@,
                    k,
                ).contains(x) by {
                    if seen.contains(x) {
                        let i = choose|i: int| 0 <= i < t && order@.take(t as int)[i] == x;
                        assert(order@[i] == x);
                        assert(nearer(sims@)(order@[i], order@[t as int]));
                        assert(x != k);
                    }
                    if nearer_others(of, lexicon@, sims@, k).contains(x) {
                        assert(order@.contains(x));
                        let i = choose|i: int| 0 <= i < order@.len() && order@[i] == x;
                        if i > t {
                            assert(nearer(sims@)(order@[t as int], order@[i]));
                        }
                        assert(i < t);
                        assert(order@.take(t as int)[i] == x);
                    }
                }
            }
        }
        let ghost before = order@.take(t as int);
        assert(order@.take(t + 1) =~= before.push(k));
        assert(!before.contains(k)) by {
            if before.contains(k) {
                let i = choose|i: int| 0 <= i < t && before[i] == k;
                assert(order@[i] == order@[t as int]);
            }
        }
        assert forall|x: u32| order@.take(t + 1).contains(x) <==> before.contains(x) || x == k by {
            if before.contains(x) {
                let i = choose|i: int| 0 <= i < t && before[i] == x;
                assert(order@.take(t + 1)[i] == x);
            }
            if x == k {
                assert(order@.take(t + 1)[t as int] == x);
            }
        }
        if lexicon[k as usize] == of {
            ranks.set(k as usize, 0);
        } else {
            r = r + 1;
            ranks.set(k as usize, r);
            proof {
                seen = seen.insert(k);
            }
        }
    }
    proof {
        assert(order@.take(n as int) =~= order@);
        assert forall|k: u32| k < n implies #[trigger] ranks@[k as int] == exact_rank(
            of,
            lexicon@,
            sims@,
            k,
        ) by {
            assert(order@.contains(k));
            let i = choose|i: int| 0 <= i < order@.len() && order@[i] == k;
            assert(order@[i] == k);
        }
    }
    ranks
}

/// A nearer word has a smaller rank, so no two neighbours share one.
pub proof fn lemma_nearer_ranks_first(of: u32, lexicon: Seq<u32>, sims: Seq<Single>, a: u32, b: u32)
    requires
        lexicon.len() == sims.len(),
        lexicon.len() <= u32::MAX,
        a < lexicon.len(),
        b < lexicon.len(),
        a != b,
        lexicon[a as int] != of,
        lexicon[b as int] != of,
        nearer(sims)(a, b),
    ensures
        exact_rank(of, lexicon, sims, a) < exact_rank(of, lexicon, sims, b),
{
    let (x, y) = (nearer_others(of, lexicon, sims, a), nearer_others(of, lexicon, sims, b));
    lemma_word_set_is_finite(x, lexicon.len());
    lemma_word_set_is_finite(y, lexicon.len());
    assert(x.insert(a).subset_of(y));
    assert(!x.contains(a));
    vstd::set_lib::lemma_len_subset(x.insert(a), y);
}

/// A set of positions below `n` is finite.
proof fn lemma_word_set_is_finite(s: Set<u32>, n: nat)
    requires
        forall|x: u32| #[trigger] s.contains(x) ==> x < n,
    ensures
        s.finite(),
{
    let all = Set::<u32>::full();
    let ints = vstd::set_lib::set_int_range(0, 0x1_0000_0000);
    vstd::set_lib::lemma_int_range(0, 0x1_0000_0000);
    let f = |i: int| i as u32;
    ints.lemma_map_finite(f);
    assert(s.subset_of(ints.map(f))) by {
        assert forall|x: u32| s.contains(x) implies #[trigger] ints.map(f).contains(x) by {
            assert(ints.contains(x as int));
            assert(f(x as int) == x);
        }
    }
    vstd::set_lib::lemma_len_subset(s, ints.map(f));
}

/// A rank counts the words that are more similar: among neighbours of different similarity, the
/// rank of one is one more than the number of those with a larger cosine, and the word itself has
/// rank zero.
pub proof fn lemma_rank_counts_the_more_similar(
    of: u32,
    lexicon: Seq<u32>,
    sims: Seq<Single>,
    k: u32,
)
    requires
        lexicon.len() == sims.len(),
        lexicon.len() <= u32::MAX,
        k < lexicon.len(),
        forall|j: int| 0 <= j < sims.len() ==> !(#[trigger] sims[j]).nan(),
        forall|j: int|
            0 <= j < sims.len() && j != k ==> (#[trigger] sims[j]).value() != sims[k as int].value(),
    ensures
        lexicon[k as int] == of ==> exact_rank(of, lexicon, sims, k) == 0,
        lexicon[k as int] != of ==> exact_rank(of, lexicon, sims, k) == 1 + Set::new(
            |j: u32|
                j < lexicon.len() && lexicon[j as int] != of && sims[j as int].value()
                    > sims[k as int].value(),
        ).len(),
{
    let more = Set::new(
        |j: u32|
            j < lexicon.len() && lexicon[j as int] != of && sims[j as int].value()
                > sims[k as int].value(),
    );
    let others = nearer_others(of, lexicon, sims, k);
    assert forall|j: u32| others.contains(j) == more.contains(j) by {
        if j < lexicon.len() && j != k {
            lemma_single_order_is_numeric(sims[k as int], sims[j as int]);
            lemma_single_order_is_numeric(sims[j as int], sims[k as int]);
            lemma_single_total_order(sims[k as int], sims[j as int]);
            lemma_single_total_order(sims[j as int], sims[k as int]);
        }
    }
    assert(others =~= more);
}

/// Which words are plausible secrets: a prefix of the list decides, so a larger one only adds.
pub proof fn lemma_prior_only_adds(words: Seq<Seq<char>>, few: int, more: int, i: int)
    requires
        few <= more,
        0 <= i < words.len(),
    ensures
        plausible_flags(words, few).len() == words.len(),
        plausible_flags(words, few)[i] ==> plausible_flags(words, more)[i],
        i >= few ==> !plausible_flags(words, few)[i],
        i < few ==> plausible_flags(words, few)[i] == plausible_word(words[i]),
{
}

/// The similarities that ranks are counted by are those that the measure answers, of each word of
/// the lexicon with the word in question.
pub proof fn lemma_similarities_are_measured<F: Fn(u32, u32) -> Single>(
    sim: F,
    of: u32,
    lexicon: Seq<u32>,
    k: int,
    x: Single,
)
    requires
        0 <= k < lexicon.len(),
        forall|a: Single, b: Single| #[trigger]
            call_ensures(sim, (lexicon[k], of), a) && #[trigger] call_ensures(
                sim,
                (lexicon[k], of),
                b,
            ) ==> a == b,
        call_ensures(sim, (lexicon[k], of), x),
    ensures
        similarities_to(sim, of, lexicon).len() == lexicon.len(),
        similarities_to(sim, of, lexicon)[k] == x,
{
    let y = cosine(sim, lexicon[k], of);
    assert(call_ensures(sim, (lexicon[k], of), y));
}

/// The index knows a word exactly when it is there, and leads to its first place.
pub proof fn lemma_index_leads_to_the_word(v: Vectors, w: Seq<char>, i: int)
    requires
        v.wf(),
        0 <= i < v.words@.len(),
    ensures
        v.index@.contains_key(w) <==> v.texts().contains(w),
        v.words@[i]@ == w ==> v.index@.contains_key(w) && v.index@[w] <= i,
        v.index@.contains_key(w) ==> v.index@[w] < v.words@.len() && v.words@[v.index@[w] as int]@
            == w,
{
    let all = v.texts();
    assert(all[i] == v.words@[i]@);
    if v.index@.contains_key(w) {
        assert(first_at(all, w, v.index@[w] as int));
        assert(all[v.index@[w] as int] == v.words@[v.index@[w] as int]@);
        if v.words@[i]@ == w && i < v.index@[w] {
            assert(all[i] != w);
        }
    }
    if v.words@[i]@ == w {
        assert(all.contains(w));
    }
}

/// Halves are stored with their least significant byte first.
pub proof fn lemma_halves_are_little_endian(bytes: Seq<u8>, i: int)
    requires
        0 <= i < bytes.len() / 2,
    ensures
        half_at(bytes, i) % 256 == bytes[2 * i],
        half_at(bytes, i) / 256 == bytes[2 * i + 1],
        halves_of(bytes)[i] == widened(half_at(bytes, i)),
        halves_of(bytes).len() == bytes.len() / 2,
{
}

/// Equal similarities are ranked in the order of the lexicon: the rank of a word is one more than
/// the number of words that are more similar, or as similar and ahead of it.
pub proof fn lemma_equal_words_rank_in_order(of: u32, lexicon: Seq<u32>, sims: Seq<Single>, k: u32)
    requires
        lexicon.len() == sims.len(),
        lexicon.len() <= u32::MAX,
        k < lexicon.len(),
        lexicon[k as int] != of,
    ensures
        exact_rank(of, lexicon, sims, k) == 1 + Set::new(
            |j: u32|
                j < lexicon.len() && lexicon[j as int] != of && (sims[j as int].total()
                    > sims[k as int].total() || (sims[j as int].total() == sims[k as int].total()
                    && j < k)),
        ).len(),
{
    let ahead = Set::new(
        |j: u32|
            j < lexicon.len() && lexicon[j as int] != of && (sims[j as int].total()
                > sims[k as int].total() || (sims[j as int].total() == sims[k as int].total() && j
                < k)),
    );
    assert(nearer_others(of, lexicon, sims, k) =~= ahead);
}

} // verus!
