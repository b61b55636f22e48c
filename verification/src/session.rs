//! What the player types: the words to start with, and the reports of earlier scores.

use vstd::prelude::*;

use crate::scoring::Scoring;
use crate::text::{
    append_text, ascii, ascii_lower, char_list, find, find_from, lemma_find_from,
    lemma_white_space_around_is_dropped, lowercased, occurs_at, slice_of,
    text_of, texts, to_lowercase, trim, trimmed, white_space,
};
use crate::vectors::{first_at, Vectors};

verus! {

/// A word as it was meant, from how it was typed: without the white space around it, and in
/// small letters.
pub open spec fn meant(s: Seq<char>) -> Seq<char> {
    lowercased(trimmed(s))
}

/// The word that was meant by what was typed.
pub fn read_word(s: &str) -> (r: String)
    ensures
        r@ == meant(s@),
        ascii(trimmed(s@)) ==> r@ == trimmed(s@).map_values(|c: char| ascii_lower(c)),
{
    let t = text_of(&trim(&char_list(s)));
    to_lowercase(t.as_str())
}

/// The first word of a list that a model does not know.
pub open spec fn first_unknown(words: Seq<Seq<char>>, known: Seq<Seq<char>>, k: int) -> bool {
    0 <= k < words.len() && !known.contains(words[k]) && forall|j: int|
        0 <= j < k ==> known.contains(#[trigger] words[j])
}

/// Looks up a list of words, all of which must be known. The first that is not is the error.
pub fn lookup_words(model: &Vectors, words: &Vec<String>) -> (r: Result<Vec<u32>, usize>)
    requires
        model.wf(),
    ensures
        match r {
            Ok(list) => {
                &&& list@.len() == words@.len()
                &&& forall|k: int|
                    0 <= k < list@.len() ==> first_at(
                        model.texts(),
                        words@[k]@,
                        #[trigger] list@[k] as int,
                    )
            },
            Err(k) => first_unknown(texts(words@), model.texts(), k as int),
        },
{
    let mut list: Vec<u32> = Vec::new();
    for k in 0..words.len()
        invariant
            model.wf(),
            list@.len() == k,
            forall|j: int|
                0 <= j < k ==> first_at(model.texts(), words@[j]@, #[trigger] list@[j] as int),
    {
        match model.lookup(words[k].as_str()) {
            Some(i) => {
                list.push(i);
            },
            None => {
                proof {
                    assert forall|j: int| 0 <= j < k implies model.texts().contains(
                        #[trigger] texts(words@)[j],
                    ) by {
                        assert(first_at(model.texts(), words@[j]@, list@[j] as int));
                        assert(model.texts()[list@[j] as int] == texts(words@)[j]);
                    }
                }
                return Err(k);
            },
        }
    }
    Ok(list)
}

/// The words that were meant by a list of what was typed.
pub fn read_words(typed: &Vec<String>) -> (r: Vec<String>)
    ensures
        texts(r@) == Seq::new(typed@.len(), |k: int| meant(typed@[k]@)),
{
    let mut r: Vec<String> = Vec::new();
    let ghost all = Seq::new(typed@.len(), |k: int| meant(typed@[k]@));
    assert(texts(r@) =~= all.take(0));
    for k in 0..typed.len()
        invariant
            all == Seq::new(typed@.len(), |k: int| meant(typed@[k]@)),
            texts(r@) == all.take(k as int),
    {
        let ghost was = texts(r@);
        r.push(read_word(typed[k].as_str()));
        assert(texts(r@) =~= was.push(all[k as int]));
        assert(texts(r@) =~= all.take(k + 1));
    }
    assert(all.take(typed@.len() as int) =~= all);
    r
}

/// Looks up the guesses that the player wants to start with. The first word that the model does
/// not know is the error.
pub fn forced_words(model: &Vectors, typed: &Vec<String>) -> (r: Result<Vec<u32>, String>)
    requires
        model.wf(),
    ensures
        ({
            let words = Seq::new(typed@.len(), |k: int| meant(typed@[k]@));
            match r {
                Ok(list) => list@.len() == words.len() && forall|k: int|
                    0 <= k < list@.len() ==> first_at(
                        model.texts(),
                        words[k],
                        #[trigger] list@[k] as int,
                    ),
                Err(w) => exists|k: int| #[trigger]
                    first_unknown(words, model.texts(), k) && w@ == words[k],
            }
        }),
{
    let words = read_words(typed);
    match lookup_words(model, &words) {
        Ok(list) => {
            proof {
                let all = Seq::new(typed@.len(), |k: int| meant(typed@[k]@));
                assert(texts(words@).len() == words@.len());
                assert forall|k: int| 0 <= k < list@.len() implies first_at(
                    model.texts(),
                    all[k],
                    #[trigger] list@[k] as int,
                ) by {
                    assert(texts(words@)[k] == words@[k]@);
                }
            }
            Ok(list)
        },
        Err(k) => {
            assert(texts(words@).len() == words@.len());
            assert(texts(words@)[k as int] == words@[k as int]@);
            Err(words[k].clone())
        },
    }
}

/// What the player answers to the question for a starting word.
pub enum Start {
    /// Nothing: the opener.
    Opener,
    /// A known word.
    Word(u32),
    /// A word that the model does not know.
    Missing(String),
}

/// The start that a word stands for: the opener where there is none.
pub open spec fn starts_with(words: Seq<Seq<char>>, w: Seq<char>, s: Start) -> bool {
    match s {
        Start::Opener => w.len() == 0,
        Start::Word(i) => w.len() > 0 && first_at(words, w, i as int),
        Start::Missing(m) => w.len() > 0 && !words.contains(w) && m@ == w,
    }
}

/// The start that a word stands for.
pub fn start_for(model: &Vectors, w: String) -> (r: Start)
    requires
        model.wf(),
    ensures
        starts_with(model.texts(), w@, r),
{
    if char_list(w.as_str()).len() == 0 {
        return Start::Opener;
    }
    match model.lookup(w.as_str()) {
        Some(i) => Start::Word(i),
        None => Start::Missing(w),
    }
}

/// Reads the player's answer to the question for a starting word. A blank line asks for the
/// opener.
pub fn read_start(model: &Vectors, line: &str) -> (r: Start)
    requires
        model.wf(),
    ensures
        starts_with(model.texts(), meant(line@), r),
        trimmed(line@).len() == 0 ==> r is Opener,
{
    start_for(model, read_word(line))
}

/// What the player is told who chose a word that the model does not know.
pub open spec fn missing_text(w: Seq<char>) -> Seq<char> {
    "« "@ + w + " » est absent du modèle, essayez un autre mot"@
}

/// What the player is told before being asked again, `None` if the choice is made.
pub fn ask_again(start: &Start) -> (r: Option<String>)
    ensures
        match *start {
            Start::Missing(w) => r matches Some(m) && m@ == missing_text(w@),
            _ => r is None,
        },
{
    match start {
        Start::Missing(w) => {
            let mut m = String::new();
            append_text(&mut m, "« ");
            append_text(&mut m, w.as_str());
            append_text(&mut m, " » est absent du modèle, essayez un autre mot");
            assert(m@ =~= missing_text(w@));
            Some(m)
        },
        _ => None,
    }
}

/// The guesses to play first: the word that the player chose, then the others.
pub fn first_guesses(start: &Start, forced: Vec<u32>) -> (r: Vec<u32>)
    ensures
        r@ == match *start {
            Start::Word(i) => seq![i] + forced@,
            _ => forced@,
        },
{
    match start {
        Start::Word(i) => {
            let mut r: Vec<u32> = vec![*i];
            let mut rest = forced;
            r.append(&mut rest);
            r
        },
        _ => forced,
    }
}

/// Where a game is played.
#[derive(Clone, Copy, Debug, PartialEq, Eq, Structural)]
pub enum Seat {
    /// Against the local model.
    Offline,
    /// Against the site.
    Live,
}

/// Why a game cannot be played.
#[derive(Clone, Copy, Debug, PartialEq, Eq, Structural)]
pub enum SeatError {
    /// The site of the game wants to know who is playing.
    Token,
}

impl SeatError {
    /// The reason in words, for a game of that name.
    pub fn message(self, game: &str) -> (r: String)
        ensures
            r@ == "l'API de "@ + game@
                + " exige un jeton d'authentification : jouez via la page web, ou hors ligne avec --dry-run <mot>"@,
    {
        let mut m = String::new();
        append_text(&mut m, "l'API de ");
        append_text(&mut m, game);
        append_text(
            &mut m,
            " exige un jeton d'authentification : jouez via la page web, ou hors ligne avec --dry-run <mot>",
        );
        m
    }
}

/// Where a game is played: offline if the player names the secret, and against the site
/// otherwise. Rank games are not played against their site.
pub fn seat(scoring: &Scoring, dry_run: bool) -> (r: Result<Seat, SeatError>)
    ensures
        r is Err <==> (*scoring is Rank && !dry_run),
        r matches Ok(s) ==> (s is Offline <==> dry_run),
{
    if dry_run {
        Ok(Seat::Offline)
    } else if scoring.is_rank() {
        Err(SeatError::Token)
    } else {
        Ok(Seat::Live)
    }
}

/// The two sides of the first equals sign.
pub open spec fn equation(s: Seq<char>) -> Option<(Seq<char>, Seq<char>)> {
    match find_from(s, seq!['='], 0) {
        Some(i) => Some((s.take(i), s.skip(i + 1))),
        None => None,
    }
}

/// Splits a report `word=score` at its first equals sign: the word that was meant, and the
/// score as text.
pub fn split_report(spec_text: &str) -> (r: Option<(String, String)>)
    ensures
        match r {
            Some((w, s)) => equation(spec_text@) matches Some((a, b)) && w@ == meant(a) && s@
                == trimmed(b),
            None => equation(spec_text@) is None,
        },
{
    let v = char_list(spec_text);
    let mut sign: Vec<char> = Vec::new();
    sign.push('=');
    assert(sign@ =~= seq!['=']);
    match find(&v, &sign, 0) {
        Some(i) => {
            proof {
                lemma_find_from(v@, sign@, 0);
                assert(occurs_at(v@, sign@, i as int));
                assert(v@.subrange(0, i as int) =~= v@.take(i as int));
                assert(v@.subrange(i + 1, v@.len() as int) =~= v@.skip(i + 1));
                assert(v@.len() == v.len());
            }
            let w = read_word(text_of(&slice_of(&v, 0, i)).as_str());
            let s = text_of(&trim(&slice_of(&v, i + 1, v.len())));
            Some((w, s))
        },
        None => None,
    }
}

/// A report is split at its first equals sign.
pub proof fn lemma_reports_are_split_once(word: Seq<char>, score: Seq<char>)
    requires
        !word.contains('='),
    ensures
        equation(word + seq!['='] + score) == Some((word, score)),
        equation(word) is None,
{
    let s = word + seq!['='] + score;
    let k = word.len() as int;
    lemma_find_from(s, seq!['='], 0);
    assert(s.subrange(k, k + 1) =~= seq!['=']);
    assert(occurs_at(s, seq!['='], k));
    assert forall|i: int| 0 <= i < k implies !#[trigger] occurs_at(s, seq!['='], i) by {
        if occurs_at(s, seq!['='], i) {
            assert(s.subrange(i, i + 1)[0] == '=');
            assert(word[i] == '=');
        }
    }
    assert(s.take(k) =~= word);
    assert(s.skip(k + 1) =~= score);
    lemma_find_from(word, seq!['='], 0);
    if equation(word) is Some {
        let i = find_from(word, seq!['='], 0)->0;
        assert(word.subrange(i, i + 1)[0] == '=');
        assert(word[i] == '=');
    }
}

/// White space around what was typed does not matter.
pub proof fn lemma_typing_is_trimmed(s: Seq<char>, c: char)
    requires
        white_space(c),
    ensures
        meant(s.push(c)) == meant(s),
        meant(seq![c] + s) == meant(s),
{
    lemma_white_space_around_is_dropped(s, c);
}

/// A list has a first unknown word, and only one, exactly when not all of its words are known.
pub proof fn lemma_one_word_is_unknown_first(words: Seq<Seq<char>>, known: Seq<Seq<char>>, a: int, b: int)
    ensures
        first_unknown(words, known, a) && first_unknown(words, known, b) ==> a == b,
        (forall|i: int| 0 <= i < words.len() ==> known.contains(#[trigger] words[i])) <==> !exists|
            k: int,
        | first_unknown(words, known, k),
{
    if !(forall|i: int| 0 <= i < words.len() ==> known.contains(#[trigger] words[i])) {
        let i = choose|i: int| 0 <= i < words.len() && !known.contains(#[trigger] words[i]);
        lemma_unknown_comes_first(words, known, i);
    }
}

proof fn lemma_unknown_comes_first(words: Seq<Seq<char>>, known: Seq<Seq<char>>, i: int)
    requires
        0 <= i < words.len(),
        !known.contains(words[i]),
    ensures
        exists|k: int| first_unknown(words, known, k),
    decreases i,
{
    if !first_unknown(words, known, i) {
        let j = choose|j: int| 0 <= j < i && !known.contains(#[trigger] words[j]);
        lemma_unknown_comes_first(words, known, j);
    }
}

/// A game starts with the opener when nothing was typed, with the typed word when the model knows
/// it, and with neither otherwise.
pub proof fn lemma_typed_word_starts_the_game(words: Seq<Seq<char>>, w: Seq<char>, s: Start)
    requires
        starts_with(words, w, s),
    ensures
        s is Opener <==> w.len() == 0,
        s is Word <==> w.len() > 0 && words.contains(w),
        s is Missing <==> w.len() > 0 && !words.contains(w),
        s matches Start::Word(i) ==> words[i as int] == w && forall|j: int|
            0 <= j < i ==> #[trigger] words[j] != w,
        s matches Start::Missing(m) ==> m@ == w,
{
    if let Start::Word(i) = s {
        assert(words[i as int] == w);
    }
}

} // verus!
