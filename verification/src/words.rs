//! What counts as a word: plausible secrets, accent folding and the stem filter.

use vstd::prelude::*;

use crate::text::{
    ascii_lower, char_list, contains_text, find, lemma_find_from, occurs_at, text_of,
};

verus! {

/// Folded letters in common that make two words morphological relatives.
pub const HINT_STEM_PREFIX: usize = 4;

/// Does `char::is_alphabetic` hold of the character? The Unicode tables decide.
pub uninterp spec fn alphabetic(c: char) -> bool;

/// Does `char::is_lowercase` hold of the character? The Unicode tables decide.
pub uninterp spec fn lowercase(c: char) -> bool;

/// `char::is_alphabetic`: whether the character has the Unicode Alphabetic property. Of the
/// ASCII characters, the letters have it.
#[verifier::external_body]
fn is_alphabetic(c: char) -> (r: bool)
    ensures
        r == alphabetic(c),
        (c as u32) < 128 ==> r == (65 <= c as u32 <= 90 || 97 <= c as u32 <= 122),
{
    c.is_alphabetic()
}

/// `char::is_lowercase`: whether the character has the Unicode Lowercase property. Of the
/// ASCII characters, the small letters have it.
#[verifier::external_body]
fn is_lowercase(c: char) -> (r: bool)
    ensures
        r == lowercase(c),
        (c as u32) < 128 ==> r == (97 <= c as u32 <= 122),
{
    c.is_lowercase()
}

/// A plausible secret, given which of its characters are small letters: three characters or
/// more, each a small letter or a hyphen, with no hyphen at either end.
pub open spec fn plausible_shape(w: Seq<char>, small: Seq<bool>) -> bool {
    &&& w.len() >= 3
    &&& w[0] != '-'
    &&& w.last() != '-'
    &&& forall|i: int| 0 <= i < w.len() ==> small[i] || #[trigger] w[i] == '-'
}

/// Which characters of a text are small letters.
pub open spec fn small_letters(w: Seq<char>) -> Seq<bool> {
    Seq::new(w.len(), |i: int| alphabetic(w[i]) && lowercase(w[i]))
}

/// A word that could be a secret.
pub open spec fn plausible_word(w: Seq<char>) -> bool {
    plausible_shape(w, small_letters(w))
}

/// Decides [`plausible_shape`] from a classification of the characters.
pub fn is_plausible_shape(w: &Vec<char>, small: &Vec<bool>) -> (r: bool)
    requires
        small@.len() == w@.len(),
    ensures
        r == plausible_shape(w@, small@),
{
    if w.len() < 3 || w[0] == '-' || w[w.len() - 1] == '-' {
        return false;
    }
    for i in 0..w.len()
        invariant
            small@.len() == w@.len(),
            forall|j: int| 0 <= j < i ==> small@[j] || #[trigger] w@[j] == '-',
    {
        if !small[i] && w[i] != '-' {
            assert(w@[i as int] != '-');
            return false;
        }
    }
    true
}

/// Could this word be a secret?
pub fn is_plausible_word(w: &str) -> (r: bool)
    ensures
        r == plausible_word(w@),
{
    let chars = char_list(w);
    let mut small: Vec<bool> = Vec::new();
    for i in 0..chars.len()
        invariant
            chars@ == w@,
            small@ == small_letters(w@).take(i as int),
    {
        small.push(is_alphabetic(chars[i]) && is_lowercase(chars[i]));
        assert(small@ =~= small_letters(w@).take(i + 1));
    }
    assert(small_letters(w@).take(w@.len() as int) =~= small_letters(w@));
    is_plausible_shape(&chars, &small)
}

/// Lowercase form of one character without its French diacritics.
pub open spec fn folded_char(c: char) -> Seq<char> {
    match c {
        'à' | 'á' | 'â' | 'ã' | 'ä' | 'å' | 'À' | 'Á' | 'Â' | 'Ã' | 'Ä' | 'Å' => seq!['a'],
        'ç' | 'Ç' => seq!['c'],
        'è' | 'é' | 'ê' | 'ë' | 'È' | 'É' | 'Ê' | 'Ë' => seq!['e'],
        'ì' | 'í' | 'î' | 'ï' | 'Ì' | 'Í' | 'Î' | 'Ï' => seq!['i'],
        'ñ' | 'Ñ' => seq!['n'],
        'ò' | 'ó' | 'ô' | 'õ' | 'ö' | 'Ò' | 'Ó' | 'Ô' | 'Õ' | 'Ö' => seq!['o'],
        'ù' | 'ú' | 'û' | 'ü' | 'Ù' | 'Ú' | 'Û' | 'Ü' => seq!['u'],
        'ý' | 'ÿ' | 'Ý' | 'Ÿ' => seq!['y'],
        'æ' | 'Æ' => seq!['a', 'e'],
        'œ' | 'Œ' => seq!['o', 'e'],
        _ => seq![ascii_lower(c)],
    }
}

/// Lowercase form of a text without its French diacritics.
pub open spec fn folded(w: Seq<char>) -> Seq<char>
    decreases w.len(),
{
    if w.len() == 0 {
        Seq::empty()
    } else {
        folded(w.drop_last()) + folded_char(w.last())
    }
}

fn fold_chars(w: &Vec<char>) -> (r: Vec<char>)
    ensures
        r@ == folded(w@),
{
    let mut out: Vec<char> = Vec::new();
    assert(w@.take(0) =~= Seq::empty());
    for i in 0..w.len()
        invariant
            out@ == folded(w@.take(i as int)),
    {
        let c: char = w[i];
        let ghost done = out@;
        match c {
            'à' | 'á' | 'â' | 'ã' | 'ä' | 'å' | 'À' | 'Á' | 'Â' | 'Ã' | 'Ä' | 'Å' => out.push('a'),
            'ç' | 'Ç' => out.push('c'),
            'è' | 'é' | 'ê' | 'ë' | 'È' | 'É' | 'Ê' | 'Ë' => out.push('e'),
            'ì' | 'í' | 'î' | 'ï' | 'Ì' | 'Í' | 'Î' | 'Ï' => out.push('i'),
            'ñ' | 'Ñ' => out.push('n'),
            'ò' | 'ó' | 'ô' | 'õ' | 'ö' | 'Ò' | 'Ó' | 'Ô' | 'Õ' | 'Ö' => out.push('o'),
            'ù' | 'ú' | 'û' | 'ü' | 'Ù' | 'Ú' | 'Û' | 'Ü' => out.push('u'),
            'ý' | 'ÿ' | 'Ý' | 'Ÿ' => out.push('y'),
            'æ' | 'Æ' => {
                out.push('a');
                out.push('e');
            },
            'œ' | 'Œ' => {
                out.push('o');
                out.push('e');
            },
            _ => {
                let n: u32 = c as u32;
                let low: char = if 65 <= n && n <= 90 {
                    ((n + 32) as u8) as char
                } else {
                    c
                };
                out.push(low);
            },
        }
        assert(out@ =~= done + folded_char(c));
        assert(w@.take(i + 1).drop_last() =~= w@.take(i as int));
    }
    assert(w@.take(w@.len() as int) =~= w@);
    out
}

/// Lowercase form without French diacritics, for the stem filter. The lexicon is lowercase
/// already, so the capitals only matter for words typed by hand.
pub fn fold_accents(w: &str) -> (r: String)
    ensures
        r@ == folded(w@),
{
    let chars = char_list(w);
    let out = fold_chars(&chars);
    text_of(&out)
}

/// Two folded words are relatives: one of at least [`HINT_STEM_PREFIX`] letters stands inside
/// the other, or they share that many leading letters.
pub open spec fn related(a: Seq<char>, b: Seq<char>) -> bool {
    ||| a.len() >= HINT_STEM_PREFIX && contains_text(b, a)
    ||| b.len() >= HINT_STEM_PREFIX && contains_text(a, b)
    ||| a.len() >= HINT_STEM_PREFIX && b.len() >= HINT_STEM_PREFIX && a.take(
        HINT_STEM_PREFIX as int,
    ) == b.take(HINT_STEM_PREFIX as int)
}

/// Two words are morphological relatives once folded.
pub open spec fn same_family(a: Seq<char>, b: Seq<char>) -> bool {
    related(folded(a), folded(b))
}

/// Does `pat` stand somewhere in `s`?
fn contains(s: &Vec<char>, pat: &Vec<char>) -> (r: bool)
    ensures
        r == contains_text(s@, pat@),
{
    proof {
        lemma_find_from(s@, pat@, 0);
    }
    match find(s, pat, 0) {
        Some(k) => true,
        None => {
            assert(forall|j: int| !crate::text::occurs_at(s@, pat@, j));
            false
        },
    }
}

/// Number of leading characters that two texts have in common, counted up to `most`.
fn common_prefix(a: &Vec<char>, b: &Vec<char>, most: usize) -> (r: usize)
    ensures
        r <= most,
        r <= a@.len(),
        r <= b@.len(),
        a@.take(r as int) == b@.take(r as int),
        r < most && r < a@.len() && r < b@.len() ==> a@[r as int] != b@[r as int],
{
    let mut k: usize = 0;
    while k < most && k < a.len() && k < b.len() && a[k] == b[k]
        invariant
            k <= most,
            k <= a@.len(),
            k <= b@.len(),
            a@.take(k as int) == b@.take(k as int),
        decreases most - k,
    {
        assert(a@.take(k + 1) =~= a@.take(k as int).push(a@[k as int]));
        assert(b@.take(k + 1) =~= b@.take(k as int).push(b@[k as int]));
        k = k + 1;
    }
    k
}

/// Are these two words morphological relatives? A single such word would hand the answer
/// over, so the test errs on the side of dropping a usable hint.
pub fn shares_stem(a: &str, b: &str) -> (r: bool)
    ensures
        r == same_family(a@, b@),
{
    let fa = fold_chars(&char_list(a));
    let fb = fold_chars(&char_list(b));
    if fa.len() >= HINT_STEM_PREFIX && contains(&fb, &fa) {
        return true;
    }
    if fb.len() >= HINT_STEM_PREFIX && contains(&fa, &fb) {
        return true;
    }
    let k: usize = common_prefix(&fa, &fb, HINT_STEM_PREFIX);
    proof {
        if k < HINT_STEM_PREFIX && fa@.len() >= HINT_STEM_PREFIX && fb@.len() >= HINT_STEM_PREFIX {
            assert(fa@.take(HINT_STEM_PREFIX as int)[k as int] != fb@.take(
                HINT_STEM_PREFIX as int,
            )[k as int]);
        }
    }
    k >= HINT_STEM_PREFIX
}

/// The order of the two words does not matter to the stem filter.
pub proof fn lemma_family_is_mutual(a: Seq<char>, b: Seq<char>)
    ensures
        same_family(a, b) == same_family(b, a),
{
}

/// A word of four folded letters or more belongs to its own family.
pub proof fn lemma_family_of_itself(a: Seq<char>)
    requires
        folded(a).len() >= HINT_STEM_PREFIX,
    ensures
        same_family(a, a),
{
}

/// What a character folds to is folded already.
#[verifier::spinoff_prover]
proof fn lemma_folded_char_is_plain(c: char)
    ensures
        1 <= folded_char(c).len() <= 2,
        forall|i: int|
            0 <= i < folded_char(c).len() ==> folded_char(#[trigger] folded_char(c)[i]) == seq![
                folded_char(c)[i],
            ],
{
}

/// A text of plain characters folds to itself.
proof fn lemma_plain_text_is_folded(s: Seq<char>)
    requires
        forall|i: int| 0 <= i < s.len() ==> folded_char(#[trigger] s[i]) == seq![s[i]],
    ensures
        folded(s) == s,
    decreases s.len(),
{
    if s.len() > 0 {
        lemma_plain_text_is_folded(s.drop_last());
        assert(folded_char(s[s.len() - 1]) == seq![s.last()]);
        assert(s.drop_last() + seq![s.last()] =~= s);
    }
}

/// Folding a folded text changes nothing.
pub proof fn lemma_folding_is_idempotent(w: Seq<char>)
    ensures
        folded(folded(w)) == folded(w),
    decreases w.len(),
{
    if w.len() > 0 {
        let (head, tail) = (folded(w.drop_last()), folded_char(w.last()));
        lemma_folding_is_idempotent(w.drop_last());
        lemma_folded_concat(head, tail);
        lemma_folded_char_is_plain(w.last());
        lemma_plain_text_is_folded(tail);
    }
}

/// Folding works one character at a time.
pub proof fn lemma_folded_concat(a: Seq<char>, b: Seq<char>)
    ensures
        folded(a + b) == folded(a) + folded(b),
    decreases b.len(),
{
    if b.len() == 0 {
        assert(a + b =~= a);
        assert(folded(a) + folded(b) =~= folded(a));
    } else {
        lemma_folded_concat(a, b.drop_last());
        assert((a + b).drop_last() =~= a + b.drop_last());
        assert(folded(a) + (folded(b.drop_last()) + folded_char(b.last())) =~= (folded(a) + folded(
            b.drop_last(),
        )) + folded_char(b.last()));
    }
}

/// A word of four folded letters or more belongs to the family of every word that it stands in.
pub proof fn lemma_contained_word_is_family(
    a: Seq<char>,
    b: Seq<char>,
    x: Seq<char>,
    y: Seq<char>,
)
    requires
        folded(b) == x + folded(a) + y,
        folded(a).len() >= 4,
    ensures
        same_family(a, b),
        same_family(b, a),
{
    assert(folded(b).subrange(x.len() as int, (x.len() + folded(a).len()) as int) =~= folded(a));
    assert(occurs_at(folded(b), folded(a), x.len() as int));
}

/// Two words that begin with the same four folded letters are of one family.
pub proof fn lemma_common_beginning_is_family(
    a: Seq<char>,
    b: Seq<char>,
    p: Seq<char>,
    x: Seq<char>,
    y: Seq<char>,
)
    requires
        folded(a) == p + x,
        folded(b) == p + y,
        p.len() >= 4,
    ensures
        same_family(a, b),
{
    assert(folded(a).take(4) =~= p.take(4));
    assert(folded(b).take(4) =~= p.take(4));
}

/// There is no other way to be of one family: two relatives have four folded letters or more
/// each, and one stands inside the other or they begin with the same four.
pub proof fn lemma_relatives_have_a_stem(a: Seq<char>, b: Seq<char>)
    requires
        same_family(a, b),
    ensures
        folded(a).len() >= 4,
        folded(b).len() >= 4,
        ({
            ||| exists|x: Seq<char>, y: Seq<char>| folded(b) == #[trigger] (x + folded(a) + y)
            ||| exists|x: Seq<char>, y: Seq<char>| folded(a) == #[trigger] (x + folded(b) + y)
            ||| forall|i: int| 0 <= i < 4 ==> #[trigger] folded(a)[i] == folded(b)[i]
        }),
{
    let (f, g) = (folded(a), folded(b));
    if contains_text(g, f) {
        let i = choose|i: int| occurs_at(g, f, i);
        assert(g =~= g.take(i) + f + g.skip(i + f.len()));
    }
    if contains_text(f, g) {
        let i = choose|i: int| occurs_at(f, g, i);
        assert(f =~= f.take(i) + g + f.skip(i + g.len()));
    }
    if f.take(4) == g.take(4) {
        assert forall|i: int| 0 <= i < 4 implies #[trigger] f[i] == g[i] by {
            assert(f.take(4)[i] == g.take(4)[i]);
        }
    }
}

/// What the letters fold to, by code point: the accented letters of Latin-1 to their base
/// letters, the two ligatures to two letters, ASCII capitals to small letters, and everything
/// else to itself.
#[verifier::spinoff_prover]
pub proof fn lemma_letters_fold_to_their_base(c: char)
    ensures
        ({
            let n = c as u32;
            let f = folded(seq![c]);
            &&& 0xc0 <= n <= 0xc5 || 0xe0 <= n <= 0xe5 ==> f == seq!['a']
            &&& n == 0xc6 || n == 0xe6 ==> f == seq!['a', 'e']
            &&& n == 0xc7 || n == 0xe7 ==> f == seq!['c']
            &&& 0xc8 <= n <= 0xcb || 0xe8 <= n <= 0xeb ==> f == seq!['e']
            &&& 0xcc <= n <= 0xcf || 0xec <= n <= 0xef ==> f == seq!['i']
            &&& n == 0xd1 || n == 0xf1 ==> f == seq!['n']
            &&& 0xd2 <= n <= 0xd6 || 0xf2 <= n <= 0xf6 ==> f == seq!['o']
            &&& 0xd9 <= n <= 0xdc || 0xf9 <= n <= 0xfc ==> f == seq!['u']
            &&& n == 0xdd || n == 0xfd || n == 0xff || n == 0x178 ==> f == seq!['y']
            &&& n == 0x152 || n == 0x153 ==> f == seq!['o', 'e']
            &&& 65 <= n <= 90 ==> f.len() == 1 && f[0] as u32 == n + 32
            &&& n < 65 || 90 < n < 0xc0 || n == 0xd0 || n == 0xd7 || n == 0xd8 || n == 0xde || n
                == 0xdf || n == 0xf0 || n == 0xf7 || n == 0xf8 || n == 0xfe || (0xff < n && n
                != 0x152 && n != 0x153 && n != 0x178) ==> f == seq![c]
        }),
{
    assert(seq![c].drop_last() =~= Seq::<char>::empty());
    assert(folded(Seq::<char>::empty()) =~= Seq::<char>::empty());
    assert(folded(seq![c]) =~= folded_char(c));
}

/// Capitals and accents do not matter to the stem filter: words that fold alike have the same
/// relatives.
pub proof fn lemma_family_sees_folded_words_only(a: Seq<char>, b: Seq<char>, c: Seq<char>)
    requires
        folded(a) == folded(b),
    ensures
        same_family(a, c) == same_family(b, c),
{
}

/// A plausible word has three characters or more, each of them a small letter or a hyphen, and
/// starts and ends with a letter.
pub proof fn lemma_plausible_words_are_letters(w: Seq<char>, i: int)
    requires
        plausible_word(w),
        0 <= i < w.len(),
    ensures
        w.len() >= 3,
        w[i] != '-' ==> alphabetic(w[i]) && lowercase(w[i]),
        i == 0 || i == w.len() - 1 ==> w[i] != '-' && alphabetic(w[i]) && lowercase(w[i]),
{
}

/// Character `k` is a small letter or a hyphen.
spec fn small(w: Seq<char>, k: int) -> bool {
    small_letters(w)[k] || w[k] == '-'
}

/// Three small letters or more make a plausible word; so does a plausible word with an inner
/// letter replaced by a hyphen, and two plausible words with a hyphen between them or without.
pub proof fn lemma_plausible_words_are_made_of_letters(a: Seq<char>, b: Seq<char>, i: int)
    ensures
        a.len() >= 3 && (forall|k: int|
            0 <= k < a.len() ==> alphabetic(#[trigger] a[k]) && lowercase(a[k]) && a[k] != '-')
            ==> plausible_word(a),
        plausible_word(a) && 0 < i < a.len() - 1 ==> plausible_word(a.update(i, '-')),
        plausible_word(a) && plausible_word(b) ==> plausible_word(a + seq!['-'] + b)
            && plausible_word(a + b),
        plausible_word(a) ==> plausible_word(a.reverse()),
{
    if plausible_word(a) {
        assert forall|k: int| 0 <= k < a.len() implies #[trigger] small(a, k) by {
            assert(small_letters(a)[k] || a[k] == '-');
        }
        let r = a.reverse();
        assert forall|k: int| 0 <= k < r.len() implies small_letters(r)[k] || #[trigger] r[k]
            == '-' by {
            assert(small(a, a.len() - 1 - k));
        }
        if 0 < i < a.len() - 1 {
            let u = a.update(i, '-');
            assert forall|k: int| 0 <= k < u.len() implies small_letters(u)[k] || #[trigger] u[k]
                == '-' by {
                assert(small(a, k));
            }
        }
        if plausible_word(b) {
            assert forall|k: int| 0 <= k < b.len() implies #[trigger] small(b, k) by {
                assert(small_letters(b)[k] || b[k] == '-');
            }
            let j = a + seq!['-'] + b;
            assert forall|k: int| 0 <= k < j.len() implies small_letters(j)[k] || #[trigger] j[k]
                == '-' by {
                if k < a.len() {
                    assert(small(a, k));
                } else if k > a.len() {
                    assert(small(b, k - a.len() - 1));
                }
            }
            let c = a + b;
            assert forall|k: int| 0 <= k < c.len() implies small_letters(c)[k] || #[trigger] c[k]
                == '-' by {
                if k < a.len() {
                    assert(small(a, k));
                } else {
                    assert(small(b, k - a.len()));
                }
            }
        }
    }
}

} // verus!
