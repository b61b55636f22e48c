//! The model's cache files: how they are read, checked and written.

use vstd::prelude::*;

use crate::bytes::{bytes_to_f32, singles_of};
use crate::f16::{from_f32, rounded, widened};
use crate::flags::{collect_first, lemma_set_positions, set_count, set_positions};
use crate::ieee::{Double, Single};
use crate::json::{json_parsed, number_field, parse_json, text_field};
use crate::order::{lemma_ranked, rank_by, ranked};
use crate::partition::Weight;
use crate::ranks::{copy_list, half_bytes, rows_of, RankTable, RANK_LEVELS};
use crate::text::{
    append_text, before, char_list, chomped, decimal, lemma_before,
    lemma_white_space_around_is_dropped, lines, lines_of, same_text, terminated, text_of, texts, trim,
    trimmed, until, white_space, write_decimal,
};
use crate::vectors::{first_at, halves_of, plausible_flags, Vectors, PRIOR_RANK};
use crate::words::{is_plausible_word, plausible_word};

verus! {

/// How many frequent plausible words are evaluated as opener candidates.
pub const OPENER_PROBES: usize = 3000;

/// How many of them are written down.
pub const OPENERS_SHOWN: usize = 20;

/// A downloaded model is complete above this size in bytes.
pub const COMPLETE_SIZE: u64 = 50_000_000;

/// How many words are compared to measure the compression error.
pub const EXPORT_SAMPLE: usize = 400;

/// A compression error up to this much, 4e-5, does not widen the tolerance; as a bit pattern.
pub const NARROW_ERROR: u64 = 0x3f04_f8b5_88e3_68f1;

/// Why a model cannot be loaded.
#[derive(Clone, Copy, Debug, PartialEq, Eq, Structural)]
pub enum LoadError {
    /// The vectors do not fit the words.
    Size { bytes: usize, words: usize },
    /// The metadata is no JSON document.
    Metadata,
    /// The metadata names no dimension.
    NoDim,
    /// The half-precision vectors do not fit the words and the dimension.
    HalfSize,
    /// The rank table does not fit the plausible words and the levels.
    RankSize,
}

/// The dimension of a dump of `bytes` bytes for `words` words, unless it does not come out
/// even.
pub open spec fn dump_dim(words: nat, bytes: nat) -> Option<nat> {
    if words == 0 || bytes % (words * 4) != 0 {
        None
    } else {
        Some(bytes / (words * 4))
    }
}

/// The word on the first line of an opener file: what stands before the first tab.
pub open spec fn opener_of(text: Seq<char>) -> Option<Seq<char>> {
    if lines_of(text).len() == 0 {
        None
    } else {
        Some(before(lines_of(text)[0], '\t'))
    }
}

/// The word that an opener file names, if there is a file.
pub open spec fn opener_in(openers: Option<&str>) -> Option<Seq<char>> {
    match openers {
        Some(t) => opener_of(t@),
        None => None,
    }
}

/// The word on the first line of an opener file.
pub fn opener_word(text: &str) -> (r: Option<String>)
    ensures
        match r {
            Some(w) => opener_of(text@) == Some(w@),
            None => opener_of(text@) is None,
        },
{
    let all = lines(&char_list(text));
    assert(texts(all@).len() == all@.len());
    if all.len() == 0 {
        return None;
    }
    assert(texts(all@)[0] == all@[0]@);
    let line = char_list(all[0].as_str());
    assert(line@.skip(0) =~= line@);
    Some(text_of(&until(&line, 0, '\t')))
}

/// `i` is where a word stands first, if it is known.
pub open spec fn position_of(words: Seq<Seq<char>>, w: Option<Seq<char>>, i: Option<u32>) -> bool {
    match (w, i) {
        (Some(w), Some(i)) => first_at(words, w, i as int),
        (Some(w), None) => !words.contains(w),
        (None, i) => i is None,
    }
}

/// The name in a model file's name card, or a question mark if there is none.
pub open spec fn card_name(card: Option<Seq<char>>) -> Seq<char> {
    match card {
        Some(s) => trimmed(s),
        None => seq!['?'],
    }
}

/// The content of a file that may be missing.
pub open spec fn file_text(f: Option<&str>) -> Option<Seq<char>> {
    match f {
        Some(s) => Some(s@),
        None => None,
    }
}

/// Builds the model from its cache files: the words one to a line, the vectors, the name card
/// and the opener file where they exist.
pub fn load_full(words: &str, raw: &[u8], card: Option<&str>, openers: Option<&str>) -> (r: Result<
    Vectors,
    LoadError,
>)
    requires
        lines_of(words@).len() <= u32::MAX,
    ensures
        ({
            let n = lines_of(words@).len();
            match r {
                Ok(v) => {
                    &&& dump_dim(n, raw@.len()) == Some(v.dim as nat)
                    &&& v.wf()
                    &&& v.name@ == card_name(file_text(card))
                    &&& v.texts() == lines_of(words@)
                    &&& v.vecs@ == singles_of(raw@)
                    &&& v.plausible@ == plausible_flags(lines_of(words@), PRIOR_RANK as int)
                    &&& position_of(
                        v.texts(),
                        opener_in(openers),
                        v.opener,
                    )
                    &&& v.rank_opener is None
                    &&& v.ranks is None
                },
                Err(e) => dump_dim(n, raw@.len()) is None && e == (LoadError::Size {
                    bytes: raw@.len() as usize,
                    words: n as usize,
                }),
            }
        }),
{
    let list = lines(&char_list(words));
    let n: usize = list.len();
    assert(texts(list@).len() == n);
    if n == 0 || raw.len() as u64 % (n as u64 * 4) != 0 {
        return Err(LoadError::Size { bytes: raw.len(), words: n });
    }
    let dim: usize = (raw.len() as u64 / (n as u64 * 4)) as usize;
    let vecs = bytes_to_f32(raw);
    proof {
        let len = raw@.len() as int;
        assert(len / (n * 4) <= len) by (nonlinear_arith)
            requires
                n > 0,
                len >= 0,
        ;
        assert(len == (n * 4) * dim) by (nonlinear_arith)
            requires
                n > 0,
                dim == len / (n * 4),
                len % (n * 4) == 0,
        ;
        assert(len / 4 == n * dim) by (nonlinear_arith)
            requires
                len == (n * 4) * dim,
        ;
    }
    let name = match card {
        Some(s) => text_of(&trim(&char_list(s))),
        None => {
            let mut q = String::new();
            q.push('?');
            assert(q@ =~= seq!['?']);
            q
        },
    };
    let mut v = Vectors::new(name, dim, list, vecs, PRIOR_RANK);
    let opener = match openers {
        Some(s) => opener_word(s),
        None => None,
    };
    let found: Option<u32> = match opener {
        Some(w) => v.lookup(w.as_str()),
        None => None,
    };
    v.opener = found;
    Ok(v)
}

/// What the metadata of a compact model says: its dimension, its name and its opener.
pub struct Metadata {
    pub dim: u64,
    pub model: Option<String>,
    pub opener: Option<String>,
}

/// The texts of the metadata keys.
pub open spec fn dim_key() -> Seq<char> {
    "dim"@
}

pub open spec fn model_key() -> Seq<char> {
    "model"@
}

pub open spec fn opener_key() -> Seq<char> {
    "opener"@
}

/// The number under a key.
pub open spec fn number_under(
    fields: Map<Seq<char>, (Option<u64>, Option<Seq<char>>)>,
    key: Seq<char>,
) -> Option<u64> {
    if fields.contains_key(key) {
        fields[key].0
    } else {
        None
    }
}

/// The text under a key.
pub open spec fn text_under(
    fields: Map<Seq<char>, (Option<u64>, Option<Seq<char>>)>,
    key: Seq<char>,
) -> Option<Seq<char>> {
    if fields.contains_key(key) {
        fields[key].1
    } else {
        None
    }
}

/// An optional text, as a sequence.
pub open spec fn optional_text(s: Option<String>) -> Option<Seq<char>> {
    match s {
        Some(s) => Some(s@),
        None => None,
    }
}

/// Reads the metadata of a compact model.
pub fn read_metadata(text: &str) -> (r: Result<Metadata, LoadError>)
    ensures
        match json_parsed(text@) {
            None => r == Err::<Metadata, LoadError>(LoadError::Metadata),
            Some(fields) => match number_under(fields, dim_key()) {
                None => r == Err::<Metadata, LoadError>(LoadError::NoDim),
                Some(d) => r matches Ok(m) && m.dim == d && optional_text(m.model) == text_under(
                    fields,
                    model_key(),
                ) && optional_text(m.opener) == text_under(fields, opener_key()),
            },
        },
{
    let doc = match parse_json(text) {
        Ok(doc) => doc,
        Err(_) => {
            return Err(LoadError::Metadata);
        },
    };
    match number_field(&doc, "dim") {
        Some(dim) => Ok(
            Metadata {
                dim,
                model: text_field(&doc, "model"),
                opener: text_field(&doc, "opener"),
            },
        ),
        None => Err(LoadError::NoDim),
    }
}

/// The name of a compact model.
pub open spec fn half_name(model: Option<Seq<char>>) -> Seq<char> {
    match model {
        Some(m) => m + " (float16)"@,
        None => seq!['?'] + " (float16)"@,
    }
}

/// Builds the compact model (plausible words only, half precision) from its words one to a
/// line, its vectors and its metadata.
pub fn load_half(words: &str, bytes: &[u8], meta: &Metadata) -> (r: Result<Vectors, LoadError>)
    requires
        lines_of(words@).len() <= u32::MAX,
    ensures
        ({
            let dim = meta.dim as usize;
            if bytes@.len() != lines_of(words@).len() * dim * 2 {
                r == Err::<Vectors, LoadError>(LoadError::HalfSize)
            } else {
                &&& r matches Ok(v)
                &&& v.wf()
                &&& v.dim == dim
                &&& v.name@ == half_name(optional_text(meta.model))
                &&& v.texts() == lines_of(words@)
                &&& v.vecs@ == halves_of(bytes@)
                &&& v.plausible@ == plausible_flags(lines_of(words@), PRIOR_RANK as int)
                &&& position_of(v.texts(), optional_text(meta.opener), v.opener)
                &&& v.rank_opener is None
                &&& v.ranks is None
            }
        }),
{
    let list = lines(&char_list(words));
    let n: usize = list.len();
    let dim: usize = meta.dim as usize;
    proof {
        assert(texts(list@).len() == n);
        assert(0 <= n * dim <= 0xffff_ffff * 0xffff_ffff_ffff_ffff) by (nonlinear_arith)
            requires
                n <= 0xffff_ffff,
                dim <= 0xffff_ffff_ffff_ffff,
        ;
    }
    if bytes.len() as u128 != n as u128 * dim as u128 * 2 {
        return Err(LoadError::HalfSize);
    }
    let mut name = String::new();
    match &meta.model {
        Some(m) => {
            append_text(&mut name, m.as_str());
        },
        None => {
            name.push('?');
        },
    }
    append_text(&mut name, " (float16)");
    assert(name@ =~= half_name(optional_text(meta.model)));
    let mut v = Vectors::from_f16(name, dim, list, bytes, PRIOR_RANK);
    let found: Option<u32> = match &meta.opener {
        Some(w) => v.lookup(w.as_str()),
        None => None,
    };
    v.opener = found;
    Ok(v)
}

/// Is the cache for `name` up to date? Not if a rebuild is forced, the name card says something
/// else, or a file is missing.
pub fn cache_is_current(
    force: bool,
    card: Option<&str>,
    name: &str,
    has_vectors: bool,
    has_openers: bool,
) -> (r: bool)
    ensures
        r == (!force && card is Some && trimmed(card->0@) == name@ && has_vectors && has_openers),
{
    let same: bool = match card {
        Some(s) => same_text(&trim(&char_list(s)), &char_list(name)),
        None => false,
    };
    !force && same && has_vectors && has_openers
}

/// Which cache a model is read from.
#[derive(Clone, Copy, Debug, PartialEq, Eq, Structural)]
pub enum Cache {
    /// All words in single precision.
    Full,
    /// The plausible words in half precision.
    Compact,
}

/// The cache to read: the compact one only where it stands alone.
pub fn cache_to_read(has_full: bool, has_compact: bool) -> (r: Cache)
    ensures
        r is Compact <==> !has_full && has_compact,
{
    if !has_full && has_compact {
        Cache::Compact
    } else {
        Cache::Full
    }
}

/// Is the cache of the rank games up to date? Not if a rebuild is forced or a file is missing.
pub fn rank_cache_is_current(force: bool, has_table: bool, has_openers: bool) -> (r: bool)
    ensures
        r == (!force && has_table && has_openers),
{
    !force && has_table && has_openers
}

/// The ranks that are tabulated.
pub fn rank_levels() -> (r: Vec<u32>)
    ensures
        r@ == RANK_LEVELS@,
{
    let mut r: Vec<u32> = Vec::new();
    for i in 0..RANK_LEVELS.len()
        invariant
            r@ == RANK_LEVELS@.take(i as int),
    {
        r.push(RANK_LEVELS[i]);
        assert(r@ =~= RANK_LEVELS@.take(i + 1));
    }
    assert(RANK_LEVELS@.take(RANK_LEVELS@.len() as int) =~= RANK_LEVELS@);
    r
}

/// Adds the rank table to a model, and the opener of the rank games, from their cache files. A
/// model without a table stays as it is.
pub fn attach_ranks(model: Vectors, ranks: Option<&[u8]>, openers: Option<&str>) -> (r: Result<
    Vectors,
    LoadError,
>)
    requires
        model.wf(),
    ensures
        match ranks {
            None => r == Ok::<Vectors, LoadError>(model),
            Some(bytes) => {
                let lexicon = set_positions(model.plausible@);
                if bytes@.len() != lexicon.len() * RANK_LEVELS@.len() * 2 {
                    r == Err::<Vectors, LoadError>(LoadError::RankSize)
                } else {
                    &&& r matches Ok(v)
                    &&& v.wf()
                    &&& v == (Vectors { ranks: v.ranks, rank_opener: v.rank_opener, ..model })
                    &&& v.ranks matches Some(t)
                    &&& t.levels@ == RANK_LEVELS@
                    &&& t.row_of@ == rows_of(model.words@.len(), lexicon)
                    &&& t.sims@ == halves_of(bytes@)
                    &&& position_of(model.texts(), opener_in(openers), v.rank_opener)
                }
            },
        },
{
    let bytes = match ranks {
        Some(b) => b,
        None => {
            return Ok(model);
        },
    };
    let lex = model.plausible_indices();
    let levels = rank_levels();
    proof {
        lemma_set_positions(model.plausible@);
    }
    if bytes.len() as u64 != lex.len() as u64 * levels.len() as u64 * 2 {
        return Err(LoadError::RankSize);
    }
    let table = RankTable::from_f16(model.words.len(), &lex, &levels, bytes);
    let word: Option<String> = match openers {
        Some(t) => opener_word(t),
        None => None,
    };
    let found: Option<u32> = match &word {
        Some(w) => model.lookup(w.as_str()),
        None => None,
    };
    let mut v = model;
    v.ranks = table;
    v.rank_opener = found;
    Ok(v)
}

/// The words file: one word to a line. Without words it holds one empty line.
pub open spec fn words_text(words: Seq<Seq<char>>) -> Seq<char> {
    if words.len() == 0 {
        seq!['\n']
    } else {
        terminated(words)
    }
}

/// Writes the words file.
pub fn words_file(words: &Vec<String>) -> (r: String)
    ensures
        r@ == words_text(texts(words@)),
{
    assert(texts(words@).len() == words@.len());
    if words.len() == 0 {
        let mut r = String::new();
        r.push('\n');
        assert(r@ =~= seq!['\n']);
        return r;
    }
    crate::text::write_lines(words)
}

/// Words written to a words file read back as themselves.
pub proof fn lemma_words_read_back(words: Seq<Seq<char>>)
    requires
        words.len() > 0,
        forall|i: int|
            #![trigger words[i]]
            0 <= i < words.len() ==> !words[i].contains('\n') && (words[i].len() == 0
                || words[i].last() != '\r'),
    ensures
        lines_of(words_text(words)) == words,
{
    crate::text::lemma_lines_read_back(words);
}

/// The words that may be played first: the most frequent plausible ones.
pub open spec fn opener_probes_of(words: Seq<Seq<char>>) -> Seq<u32> {
    let all = set_positions(plausible_flags(words, PRIOR_RANK as int));
    all.take(
        if OPENER_PROBES <= all.len() {
            OPENER_PROBES as int
        } else {
            all.len() as int
        },
    )
}

/// Which words of a list are plausible secrets.
pub fn plausible_of(words: &Vec<String>) -> (r: Vec<bool>)
    ensures
        r@ == plausible_flags(texts(words@), PRIOR_RANK as int),
{
    let mut r: Vec<bool> = Vec::new();
    let ghost all = plausible_flags(texts(words@), PRIOR_RANK as int);
    for i in 0..words.len()
        invariant
            all == plausible_flags(texts(words@), PRIOR_RANK as int),
            r@ == all.take(i as int),
    {
        r.push(i < PRIOR_RANK && is_plausible_word(words[i].as_str()));
        assert(r@ =~= all.take(i + 1));
    }
    assert(r@ =~= all);
    r
}

/// The words that may be played first.
pub fn opener_probes(words: &Vec<String>) -> (r: Vec<u32>)
    requires
        words@.len() <= u32::MAX,
    ensures
        r@ == opener_probes_of(texts(words@)),
{
    let flags = plausible_of(words);
    collect_first(&flags, OPENER_PROBES)
}

/// Larger entropies have smaller keys.
pub open spec fn opener_keys(weights: Seq<Weight>) -> Seq<u64> {
    Seq::new(weights.len(), |i: int| (0x7fff_ffff_ffff_ffff - weights[i].entropy.bits.place()) as u64)
}

/// Ranks the weighed openers, the highest entropy first and the more frequent word first among
/// equals.
pub fn rank_openers(weights: &Vec<Weight>) -> (r: Vec<u32>)
    requires
        weights@.len() <= u32::MAX,
        forall|i: int| 0 <= i < weights@.len() ==> !(#[trigger] weights@[i]).entropy.bits.nan(),
    ensures
        r@ == ranked(opener_keys(weights@)),
{
    let mut keys: Vec<u64> = Vec::new();
    for i in 0..weights.len()
        invariant
            keys@ == opener_keys(weights@).take(i as int),
    {
        keys.push(descending_key(weights[i].entropy.bits));
        assert(keys@ =~= opener_keys(weights@).take(i + 1));
    }
    assert(keys@ =~= opener_keys(weights@));
    rank_by(&keys)
}

/// A key that falls as the number grows.
fn descending_key(x: Double) -> (r: u64)
    ensures
        r == 0x7fff_ffff_ffff_ffff - x.place(),
{
    if x.bits >= 0x8000_0000_0000_0000 {
        0x7fff_ffff_ffff_ffff + (x.bits - 0x8000_0000_0000_0000)
    } else {
        0x7fff_ffff_ffff_ffff - x.bits
    }
}

/// The best opener has the highest entropy of all, and no more frequent word has the same.
pub proof fn lemma_best_opener(weights: Seq<Weight>, j: u32)
    requires
        weights.len() <= u32::MAX,
        forall|i: int| 0 <= i < weights.len() ==> !(#[trigger] weights[i]).entropy.bits.nan(),
        j < weights.len(),
    ensures
        ({
            let best = ranked(opener_keys(weights))[0];
            &&& best < weights.len()
            &&& weights[j as int].entropy.bits.at_most(weights[best as int].entropy.bits)
            &&& j < best ==> weights[j as int].entropy.bits.below(weights[best as int].entropy.bits)
        }),
{
    let keys = opener_keys(weights);
    let order = ranked(keys);
    lemma_ranked(keys);
    assert(order.contains(j));
    let k = choose|k: int| 0 <= k < order.len() && order[k] == j;
    let best = order[0];
    assert(best < weights.len());
    assert(!weights[j as int].entropy.bits.nan());
    assert(!weights[best as int].entropy.bits.nan());
    if k > 0 {
        assert(crate::order::by_key(keys)(order[0], order[k]));
    }
}

/// One line of the opener file: the word, its entropy as the caller shows it, and its bucket
/// count.
pub open spec fn opener_line(word: Seq<char>, shown: Seq<char>, buckets: nat) -> Seq<char> {
    word + seq!['\t'] + shown + seq!['\t'] + decimal(buckets) + seq!['\n']
}

/// The first `m` lines of the opener file.
pub open spec fn opener_lines(
    words: Seq<Seq<char>>,
    probes: Seq<u32>,
    order: Seq<u32>,
    shown: Seq<Seq<char>>,
    weights: Seq<Weight>,
    m: int,
) -> Seq<char>
    decreases m,
{
    if m <= 0 {
        Seq::empty()
    } else {
        let k = order[m - 1] as int;
        opener_lines(words, probes, order, shown, weights, m - 1) + opener_line(
            words[probes[k] as int],
            shown[k],
            weights[k].buckets as nat,
        )
    }
}

/// Writes the opener file: the best openers, best first.
pub fn opener_file(
    words: &Vec<String>,
    probes: &Vec<u32>,
    order: &Vec<u32>,
    shown: &Vec<String>,
    weights: &Vec<Weight>,
) -> (r: String)
    requires
        probes@.len() == weights@.len() == shown@.len() == order@.len(),
        forall|i: int| 0 <= i < order@.len() ==> (#[trigger] order@[i]) < probes@.len(),
        forall|i: int| 0 <= i < probes@.len() ==> (#[trigger] probes@[i]) < words@.len(),
    ensures
        r@ == opener_lines(
            texts(words@),
            probes@,
            order@,
            texts(shown@),
            weights@,
            if order@.len() <= OPENERS_SHOWN {
                order@.len() as int
            } else {
                OPENERS_SHOWN as int
            },
        ),
{
    let m: usize = if order.len() <= OPENERS_SHOWN {
        order.len()
    } else {
        OPENERS_SHOWN
    };
    let mut r = String::new();
    for i in 0..m
        invariant
            m <= order@.len(),
            probes@.len() == weights@.len() == shown@.len() == order@.len(),
            forall|i: int| 0 <= i < order@.len() ==> (#[trigger] order@[i]) < probes@.len(),
            forall|i: int| 0 <= i < probes@.len() ==> (#[trigger] probes@[i]) < words@.len(),
            r@ == opener_lines(
                texts(words@),
                probes@,
                order@,
                texts(shown@),
                weights@,
                i as int,
            ),
    {
        let ghost before = r@;
        let k: usize = order[i] as usize;
        assert(order@[i as int] < probes@.len());
        assert(probes@[k as int] < words@.len());
        append_text(&mut r, words[probes[k] as usize].as_str());
        r.push('\t');
        append_text(&mut r, shown[k].as_str());
        r.push('\t');
        append_text(&mut r, write_decimal(weights[k].buckets as u64).as_str());
        r.push('\n');
        assert(r@ =~= before + opener_line(
            texts(words@)[probes@[k as int] as int],
            texts(shown@)[k as int],
            weights@[k as int].buckets as nat,
        ));
    }
    r
}

/// The vectors of some words, one after the other.
pub open spec fn rows_for(v: Vectors, words: Seq<u32>) -> Seq<Single>
    decreases words.len(),
{
    if words.len() == 0 {
        Seq::empty()
    } else {
        rows_for(v, words.drop_last()) + v.vecs@.subrange(
            words.last() * v.dim,
            (words.last() + 1) * v.dim,
        )
    }
}

/// The plausible part of a model for the web page: its words one to a line, and its vectors as
/// little-endian half-precision numbers.
pub fn export_words(v: &Vectors) -> (r: (String, Vec<u8>))
    requires
        v.wf(),
    ensures
        ({
            let idx = set_positions(v.plausible@);
            &&& (r.0)@ == terminated(Seq::new(idx.len(), |k: int| v.texts()[idx[k] as int]))
            &&& (r.1)@ == half_bytes(rows_for(*v, idx))
        }),
{
    let idx = v.plausible_indices();
    proof {
        lemma_set_positions(v.plausible@);
    }
    let mut words = String::new();
    let mut bytes: Vec<u8> = Vec::new();
    let ghost names = Seq::new(idx@.len(), |k: int| v.texts()[idx@[k] as int]);
    assert(names.take(0) =~= Seq::empty());
    assert(idx@.take(0) =~= Seq::empty());
    assert(half_bytes(Seq::empty()) =~= Seq::empty());
    for k in 0..idx.len()
        invariant
            v.wf(),
            forall|i: int| 0 <= i < idx@.len() ==> (#[trigger] idx@[i]) < v.words@.len(),
            names == Seq::new(idx@.len(), |k: int| v.texts()[idx@[k] as int]),
            words@ == terminated(names.take(k as int)),
            bytes@ == half_bytes(rows_for(*v, idx@.take(k as int))),
    {
        let i: usize = idx[k] as usize;
        assert(idx@[k as int] < v.words@.len());
        let ghost text_before = words@;
        append_text(&mut words, v.words[i].as_str());
        words.push('\n');
        proof {
            assert(names.take(k + 1).drop_last() =~= names.take(k as int));
            assert(names.take(k + 1).last() == v.texts()[i as int]);
            assert(words@ =~= text_before + v.texts()[i as int].push('\n'));
        }
        let row = v.vec(i);
        let ghost (old_rows, old_bytes) = (rows_for(*v, idx@.take(k as int)), bytes@);
        for m in 0..row.len()
            invariant
                old_bytes == half_bytes(old_rows),
                bytes@ == half_bytes(old_rows + row@.take(m as int)),
        {
            let h: u16 = from_f32(row[m]);
            let ghost was = bytes@;
            bytes.push((h % 256) as u8);
            bytes.push((h / 256) as u8);
            proof {
                let (x, y) = (old_rows + row@.take(m as int), old_rows + row@.take(m + 1));
                assert(y =~= x.push(row@[m as int]));
                lemma_half_push(x, row@[m as int]);
                assert(bytes@ =~= half_bytes(y));
            }
        }
        proof {
            assert(row@.take(row@.len() as int) =~= row@);
            assert(idx@.take(k + 1).drop_last() =~= idx@.take(k as int));
            assert(idx@.take(k + 1).last() == idx@[k as int]);
        }
    }
    assert(names.take(idx@.len() as int) =~= names);
    assert(idx@.take(idx@.len() as int) =~= idx@);
    (words, bytes)
}

/// One more number adds its two bytes to a dump.
proof fn lemma_half_push(s: Seq<Single>, x: Single)
    ensures
        half_bytes(s.push(x)) == half_bytes(s).push((rounded(x) % 256) as u8).push(
            (rounded(x) / 256) as u8,
        ),
{
    assert(half_bytes(s.push(x)) =~= half_bytes(s).push((rounded(x) % 256) as u8).push(
        (rounded(x) / 256) as u8,
    ));
}

/// The positions that are compared to measure the compression error: every so many, so that
/// there are no more than four hundred.
pub open spec fn export_positions(len: nat) -> Seq<usize> {
    let step = if len / EXPORT_SAMPLE as nat > 1 {
        len / EXPORT_SAMPLE as nat
    } else {
        1
    };
    let steps = (len + step - 1) / step as int;
    Seq::new(
        if steps < EXPORT_SAMPLE {
            steps as nat
        } else {
            EXPORT_SAMPLE as nat
        },
        |k: int| (k * step) as usize,
    )
}

/// The positions that are compared to measure the compression error.
pub fn export_sample(len: usize) -> (r: Vec<usize>)
    requires
        len <= u32::MAX,
    ensures
        r@ == export_positions(len as nat),
        forall|k: int| 0 <= k < r@.len() ==> (#[trigger] r@[k]) < len,
{
    let step: usize = if len / EXPORT_SAMPLE > 1 {
        len / EXPORT_SAMPLE
    } else {
        1
    };
    let ghost all = export_positions(len as nat);
    let ghost steps = (len + step - 1) / step as int;
    let mut r: Vec<usize> = Vec::new();
    let mut at: u64 = 0;
    proof {
        vstd::arithmetic::div_mod::lemma_fundamental_div_mod(len + step - 1, step as int);
        assert(0 * step == 0);
    }
    while r.len() < EXPORT_SAMPLE && at < len as u64
        invariant
            len <= u32::MAX,
            1 <= step <= u32::MAX,
            all == export_positions(len as nat),
            step == if len / EXPORT_SAMPLE > 1 {
                (len / EXPORT_SAMPLE) as int
            } else {
                1
            },
            steps == (len + step - 1) / step as int,
            len + step - 1 == step * steps + (len + step - 1) % (step as int),
            0 <= (len + step - 1) % (step as int) < step,
            at == r@.len() * step,
            r@.len() <= EXPORT_SAMPLE,
            r@.len() <= steps,
            r@ == all.take(r@.len() as int),
            forall|k: int| 0 <= k < r@.len() ==> (#[trigger] r@[k]) < len,
        decreases EXPORT_SAMPLE - r@.len(),
    {
        let ghost k = r@.len() as int;
        proof {
            assert(k < steps) by (nonlinear_arith)
                requires
                    k * step < len,
                    len + step - 1 == step * steps + (len + step - 1) % (step as int),
                    (len + step - 1) % (step as int) < step,
                    step >= 1,
            ;
            assert((k + 1) * step == k * step + step) by (nonlinear_arith);
        }
        r.push(at as usize);
        assert(r@ =~= all.take(k + 1));
        at = at + step as u64;
    }
    proof {
        let k = r@.len() as int;
        if k < EXPORT_SAMPLE {
            assert(k >= steps) by (nonlinear_arith)
                requires
                    k * step >= len,
                    len + step - 1 == step * steps + (len + step - 1) % (step as int),
                    (len + step - 1) % (step as int) >= 0,
                    step >= 1,
            ;
        }
        assert(r@ =~= all);
    }
    r
}

/// The tolerance level that a compression error calls for.
pub fn export_tol_level(max_err: Double) -> (r: usize)
    ensures
        r == if max_err.at_most(Double { bits: NARROW_ERROR }) {
            0int
        } else {
            1
        },
{
    if max_err.le(Double { bits: NARROW_ERROR }) {
        0
    } else {
        1
    }
}

/// What the metadata of an export says.
pub struct ExportMeta {
    /// The number of words.
    pub n: usize,
    pub dim: usize,
    pub model: String,
    pub opener: Option<String>,
    pub tol_level: usize,
    /// The largest score error of the compression.
    pub max_error: Double,
    pub prior_rank: usize,
    /// The ranks that are tabulated, if there is a table.
    pub rank_levels: Option<Vec<u32>>,
    pub rank_opener: Option<String>,
}

/// The text of a word, if there is one.
pub open spec fn word_of(v: Vectors, i: Option<u32>) -> Option<Seq<char>> {
    match i {
        Some(i) => Some(v.texts()[i as int]),
        None => None,
    }
}

/// Names a word, if there is one.
fn name_of(v: &Vectors, i: Option<u32>) -> (r: Option<String>)
    requires
        i matches Some(i) ==> i < v.words@.len(),
    ensures
        optional_text(r) == word_of(*v, i),
{
    match i {
        Some(i) => Some(text_of(&char_list(v.words[i as usize].as_str()))),
        None => None,
    }
}

/// The metadata of the export of a model, whose compression errs by `max_error` at most.
pub fn export_metadata(v: &Vectors, max_error: Double) -> (m: ExportMeta)
    requires
        v.wf(),
    ensures
        m.n == set_count(v.plausible@),
        m.dim == v.dim,
        m.model@ == v.name@,
        optional_text(m.opener) == word_of(*v, v.opener),
        m.tol_level == if max_error.at_most(Double { bits: NARROW_ERROR }) {
            0int
        } else {
            1
        },
        m.max_error == max_error,
        m.prior_rank == PRIOR_RANK,
        match v.ranks {
            Some(t) => m.rank_levels matches Some(l) && l@ == t.levels@,
            None => m.rank_levels is None,
        },
        optional_text(m.rank_opener) == word_of(*v, v.rank_opener),
{
    ExportMeta {
        n: v.plausible_count(),
        dim: v.dim,
        model: text_of(&char_list(v.name.as_str())),
        opener: name_of(v, v.opener),
        tol_level: export_tol_level(max_error),
        max_error,
        prior_rank: PRIOR_RANK,
        rank_levels: match &v.ranks {
            Some(t) => Some(copy_list(&t.levels)),
            None => None,
        },
        rank_opener: name_of(v, v.rank_opener),
    }
}

/// Is a downloaded model complete, by its size?
pub fn is_complete(size: u64) -> (r: bool)
    ensures
        r == (size > COMPLETE_SIZE),
{
    size > COMPLETE_SIZE
}

/// The percentage to report after `done` of `total` bytes, if it is at least five points above
/// the last one reported. Nothing is reported while the total is unknown.
pub fn progress(done: u64, total: u64, last: u32) -> (r: Option<u32>)
    requires
        done <= u64::MAX / 100,
        last <= u32::MAX - 5,
    ensures
        r == if total > 0 && (done * 100 / total as int) as u32 >= last + 5 {
            Some((done * 100 / total as int) as u32)
        } else {
            None
        },
{
    if total == 0 {
        return None;
    }
    let pct: u32 = (done * 100 / total) as u32;
    if pct >= last + 5 {
        Some(pct)
    } else {
        None
    }
}

/// An export reads back: its words as they were, and each number of its vectors as the nearest
/// half-precision number.
pub proof fn lemma_export_reads_back(v: Vectors)
    requires
        v.wf(),
        forall|i: int|
            #![trigger v.texts()[i]]
            0 <= i < v.words@.len() && v.plausible@[i] ==> !v.texts()[i].contains('\n') && (
            v.texts()[i].len() == 0 || v.texts()[i].last() != '\r'),
    ensures
        ({
            let idx = set_positions(v.plausible@);
            let names = Seq::new(idx.len(), |k: int| v.texts()[idx[k] as int]);
            let rows = rows_for(v, idx);
            &&& lines_of(terminated(names)) == names
            &&& halves_of(half_bytes(rows)) == rows.map_values(|x: Single| widened(rounded(x)))
        }),
{
    let idx = set_positions(v.plausible@);
    let names = Seq::new(idx.len(), |k: int| v.texts()[idx[k] as int]);
    let rows = rows_for(v, idx);
    lemma_set_positions(v.plausible@);
    assert forall|i: int|
        #![trigger names[i]]
        0 <= i < names.len() implies !names[i].contains('\n') && (names[i].len() == 0
        || names[i].last() != '\r') by {
        assert(v.plausible@[idx[i] as int]);
        assert(names[i] == v.texts()[idx[i] as int]);
    }
    crate::text::lemma_lines_read_back(names);
    assert(halves_of(half_bytes(rows)) =~= rows.map_values(|x: Single| widened(rounded(x)))) by {
        assert forall|i: int| 0 <= i < rows.len() implies halves_of(half_bytes(rows))[i] == widened(
            rounded(rows[i]),
        ) by {
            let b = half_bytes(rows);
            assert(b[2 * i] == (rounded(rows[i]) % 256) as u8);
            assert(b[2 * i + 1] == (rounded(rows[i]) / 256) as u8);
        }
    }
}

/// A dump has a dimension exactly when it divides evenly: so many words of so many numbers of
/// four bytes each.
pub proof fn lemma_dump_divides_evenly(words: nat, bytes: nat, dim: nat)
    ensures
        words > 0 ==> (dump_dim(words, bytes) == Some(dim) <==> bytes == words * dim * 4),
        words == 0 ==> dump_dim(words, bytes) is None,
{
    if words > 0 {
        let w = words * 4;
        assert(words * dim * 4 == w * dim) by (nonlinear_arith)
            requires
                w == words * 4,
        ;
        vstd::arithmetic::div_mod::lemma_fundamental_div_mod(bytes as int, w as int);
        if bytes == w * dim {
            vstd::arithmetic::div_mod::lemma_div_multiples_vanish(dim as int, w as int);
            vstd::arithmetic::div_mod::lemma_mod_multiples_basic(dim as int, w as int);
            assert(w * dim == dim * w) by (nonlinear_arith);
        }
    }
}

/// The opener is the first word of the file, up to its tab.
pub proof fn lemma_opener_is_the_first_word(word: Seq<char>, rest: Seq<char>)
    requires
        !word.contains('\t'),
        !word.contains('\n'),
    ensures
        opener_of(word + seq!['\t'] + rest) == Some(word),
        opener_of(Seq::empty()) is None,
{
    let s = word + seq!['\t'] + rest;
    let n = word.len() as int;
    let line = before(s, '\n');
    lemma_before_is_a_prefix(s, '\n');
    assert(s[n] == '\t');
    assert forall|j: int| 0 <= j <= n implies s[j] != '\n' by {
        if j < n {
            assert(s[j] == word[j]);
            assert(word.contains(word[j]));
        }
    }
    assert(line.len() > n);
    let first = lines_of(s)[0];
    assert(first == line || first == chomped(line) || first == s);
    assert(first.len() > n && first.take(n + 1) =~= s.take(n + 1));
    assert forall|j: int| 0 <= j < n implies first[j] != '\t' by {
        assert(first[j] == first.take(n + 1)[j]);
        assert(s[j] == s.take(n + 1)[j]);
        assert(word.contains(word[j]));
    }
    assert(first[n] == first.take(n + 1)[n]);
    lemma_before(first, '\t', n);
    assert(first.take(n) =~= word) by {
        assert forall|j: int| 0 <= j < n implies first[j] == word[j] by {
            assert(first[j] == first.take(n + 1)[j]);
            assert(s[j] == s.take(n + 1)[j]);
        }
    }
}

/// What stands before a character is a beginning of the text, free of it, and ends at the first
/// of them.
proof fn lemma_before_is_a_prefix(s: Seq<char>, c: char)
    ensures
        before(s, c).is_prefix_of(s),
        before(s, c).len() < s.len() ==> s[before(s, c).len() as int] == c,
    decreases s.len(),
{
    if s.len() > 0 && s[0] != c {
        lemma_before_is_a_prefix(s.drop_first(), c);
        let b = before(s.drop_first(), c);
        assert(before(s, c) =~= s.take(b.len() as int + 1));
    }
}

/// The openers are listed best first, so the opener that is read back out of the list is the best.
pub proof fn lemma_list_of_openers_starts_with_the_best(
    words: Seq<Seq<char>>,
    probes: Seq<u32>,
    order: Seq<u32>,
    shown: Seq<Seq<char>>,
    weights: Seq<Weight>,
    m: int,
)
    requires
        0 < m <= order.len(),
        !words[probes[order[0] as int] as int].contains('\t'),
        !words[probes[order[0] as int] as int].contains('\n'),
    ensures
        opener_of(opener_lines(words, probes, order, shown, weights, m)) == Some(
            words[probes[order[0] as int] as int],
        ),
{
    let word = words[probes[order[0] as int] as int];
    let rest = lemma_list_starts_with(words, probes, order, shown, weights, m);
    lemma_opener_is_the_first_word(word, rest);
}

proof fn lemma_list_starts_with(
    words: Seq<Seq<char>>,
    probes: Seq<u32>,
    order: Seq<u32>,
    shown: Seq<Seq<char>>,
    weights: Seq<Weight>,
    m: int,
) -> (rest: Seq<char>)
    requires
        0 < m <= order.len(),
    ensures
        opener_lines(words, probes, order, shown, weights, m)
            =~= words[probes[order[0] as int] as int] + seq!['\t'] + rest,
    decreases m,
{
    let k = order[m - 1] as int;
    let line = opener_line(words[probes[k] as int], shown[k], weights[k].buckets as nat);
    if m == 1 {
        assert(opener_lines(words, probes, order, shown, weights, 0) =~= Seq::empty());
        shown[k] + seq!['\t'] + decimal(weights[k].buckets as nat) + seq!['\n']
    } else {
        let rest = lemma_list_starts_with(words, probes, order, shown, weights, m - 1);
        rest + line
    }
}

/// The words of the prior that are tried as openers: plausible, among the fifty thousand most
/// frequent, the most frequent first, and all of them where there are fewer than three thousand.
pub proof fn lemma_openers_are_frequent(words: Seq<Seq<char>>, w: u32)
    requires
        words.len() <= u32::MAX,
        w < words.len(),
    ensures
        ({
            let probes = opener_probes_of(words);
            let frequent = plausible_word(words[w as int]) && w < 50_000;
            &&& probes.len() <= 3000
            &&& probes.contains(w) ==> frequent
            &&& frequent && probes.len() < 3000 ==> probes.contains(w)
            &&& frequent && !probes.contains(w) ==> forall|k: int|
                0 <= k < probes.len() ==> #[trigger] probes[k] < w
        }),
{
    let flags = plausible_flags(words, 50_000);
    let all = set_positions(flags);
    let probes = opener_probes_of(words);
    lemma_set_positions(flags);
    assert(flags[w as int] == (plausible_word(words[w as int]) && w < 50_000));
    if probes.contains(w) {
        let k = choose|k: int| 0 <= k < probes.len() && probes[k] == w;
        assert(all[k] == w);
        assert(flags[all[k] as int]);
    }
    if flags[w as int] {
        assert(all.contains(w));
        let k = choose|k: int| 0 <= k < all.len() && all[k] == w;
        if k < probes.len() {
            assert(probes[k] == w);
        } else {
            assert forall|i: int| 0 <= i < probes.len() implies #[trigger] probes[i] < w by {
                assert(all[i] < all[k]);
            }
        }
    }
}

/// The rows of some words follow one another: row `k` is the vector of word `k`.
pub proof fn lemma_rows_follow_the_words(v: Vectors, words: Seq<u32>, k: int, d: int)
    requires
        v.wf(),
        0 <= k < words.len(),
        0 <= d < v.dim,
        forall|i: int| 0 <= i < words.len() ==> (#[trigger] words[i]) < v.words@.len(),
    ensures
        rows_for(v, words).len() == words.len() * v.dim,
        rows_for(v, words)[k * v.dim + d] == v.vecs@[words[k] * v.dim + d],
    decreases words.len(),
{
    let dim = v.dim as int;
    let n = words.len() as int;
    let last = words.last() as int;
    let rest = words.drop_last();
    assert(words[n - 1] < v.words@.len());
    assert((last + 1) * dim == last * dim + dim) by (nonlinear_arith);
    assert((last + 1) * dim <= v.words@.len() * dim) by (nonlinear_arith)
        requires
            last + 1 <= v.words@.len(),
            0 <= dim,
    ;
    assert(0 <= last * dim) by (nonlinear_arith)
        requires
            0 <= last,
            0 <= dim,
    ;
    assert(n * dim == (n - 1) * dim + dim) by (nonlinear_arith);
    let row = v.vecs@.subrange(last * dim, (last + 1) * dim);
    if n == 1 {
        assert(rows_for(v, rest) =~= Seq::empty());
        assert((n - 1) * dim == 0) by (nonlinear_arith)
            requires
                n == 1,
        ;
    } else {
        lemma_rows_follow_the_words(
            v,
            rest,
            if k < n - 1 {
                k
            } else {
                0
            },
            d,
        );
    }
    if k < n - 1 {
        assert(rest[k] == words[k]);
        assert((k + 1) * dim == k * dim + dim) by (nonlinear_arith);
        assert((k + 1) * dim <= (n - 1) * dim) by (nonlinear_arith)
            requires
                k + 1 <= n - 1,
                0 <= dim,
        ;
        assert(0 <= k * dim) by (nonlinear_arith)
            requires
                0 <= k,
                0 <= dim,
        ;
    }
}

/// The positions that an export is checked at: the first, and then evenly spaced ones; all of
/// them where there are at most four hundred, never more than that.
pub proof fn lemma_export_is_checked_evenly(len: nat, k: int)
    requires
        len <= usize::MAX,
        0 <= k < export_positions(len).len(),
    ensures
        ({
            let at = export_positions(len);
            &&& at.len() <= 400
            &&& at[0] == 0
            &&& at[k] < len
            &&& k + 1 < at.len() ==> at[k + 1] - at[k] == at[1] - at[0] && at[k] < at[k + 1]
            &&& len < 800 ==> at[k] == k
            &&& len <= 400 ==> at.len() == len
            &&& len > 400 ==> at.len() == 400
        }),
{
    let at = export_positions(len);
    let step = if len / 400 > 1 {
        len / 400
    } else {
        1
    } as int;
    let steps = (len + step - 1) / step;
    lemma_steps_fit(len as int, step, k);
    lemma_steps_fit(len as int, step, 0);
    if k + 1 < at.len() {
        lemma_steps_fit(len as int, step, k + 1);
        lemma_steps_fit(len as int, step, 1);
        assert((k + 1) * step == k * step + step) by (nonlinear_arith);
    }
    if len > 400 {
        if step > 1 {
            assert(step == len / 400);
            assert(400 * step <= len);
            assert(steps >= 400) by {
                vstd::arithmetic::div_mod::lemma_div_is_ordered(
                    400 * step,
                    len + step - 1,
                    step,
                );
                vstd::arithmetic::div_mod::lemma_div_by_multiple(400, step);
                assert(400 * step == step * 400) by (nonlinear_arith);
            }
        }
    }
}

proof fn lemma_steps_fit(len: int, step: int, k: int)
    requires
        0 < step,
        0 <= k < (len + step - 1) / step,
    ensures
        0 <= k * step < len,
{
    let q = (len + step - 1) / step;
    vstd::arithmetic::div_mod::lemma_fundamental_div_mod(len + step - 1, step);
    assert(step * q <= len + step - 1);
    assert(0 <= k * step && k * step + step <= step * q) by (nonlinear_arith)
        requires
            0 < step,
            0 <= k,
            k + 1 <= q,
    ;
}

/// The name on the card does not depend on the white space around it, and a model without a card
/// is named by a question mark.
pub proof fn lemma_names_are_trimmed(card: Seq<char>, c: char)
    requires
        white_space(c),
    ensures
        card_name(Some(card.push(c))) == card_name(Some(card)),
        card_name(Some(seq![c] + card)) == card_name(Some(card)),
        card.len() > 0 && !white_space(card[0]) && !white_space(card.last()) ==> card_name(Some(card))
            == card,
        card_name(None) == seq!['?'],
{
    lemma_white_space_around_is_dropped(card, c);
}

/// A word is looked up at its first place, and not found exactly when it is not there.
pub proof fn lemma_words_are_found_where_they_stand(words: Seq<Seq<char>>, w: Seq<char>, i: Option<u32>)
    requires
        position_of(words, Some(w), i),
    ensures
        i is Some <==> words.contains(w),
        i matches Some(k) ==> words[k as int] == w && forall|j: int|
            0 <= j < k ==> #[trigger] words[j] != w,
{
    if let Some(k) = i {
        assert(words[k as int] == w);
    }
}

/// A file of words always ends with a newline, even when it holds none.
pub proof fn lemma_word_files_end_with_a_newline(words: Seq<Seq<char>>)
    ensures
        words_text(words).len() > 0,
        words_text(words).last() == '\n',
{
}

} // verus!
