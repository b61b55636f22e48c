//! JSON texts: what is read out of a metadata file, and how a list of words is written.

use vstd::prelude::*;

use crate::text::{joined, texts};

verus! {

/// A JSON document, as `serde_json` holds it.
#[verifier::external_type_specification]
#[verifier::external_body]
pub struct ExValue(serde_json::Value);

/// Why a text is no JSON document.
#[verifier::external_type_specification]
#[verifier::external_body]
pub struct ExError(serde_json::Error);

/// What a JSON object holds under each of its keys: the number, if it is an integer that fits
/// in 64 bits without a sign, and the text, if it is one. A document that is no object holds
/// nothing.
pub uninterp spec fn json_fields(v: serde_json::Value) -> Map<
    Seq<char>,
    (Option<u64>, Option<Seq<char>>),
>;

/// What `serde_json::from_str` reads out of a text: the fields of the document, or `None` if
/// the text is no JSON document.
pub uninterp spec fn json_parsed(text: Seq<char>) -> Option<
    Map<Seq<char>, (Option<u64>, Option<Seq<char>>)>,
>;

/// `serde_json::from_str` into a `Value`: the document that the text holds, its fields being
/// those that [`json_parsed`] names, or an error where that names none.
#[verifier::external_body]
pub(crate) fn parse_json(text: &str) -> (r: Result<serde_json::Value, serde_json::Error>)
    ensures
        match r {
            Ok(v) => json_parsed(text@) == Some(json_fields(v)),
            Err(_) => json_parsed(text@) is None,
        },
{
    serde_json::from_str(text)
}

/// `Value::as_u64` of the value under a key: its number, `None` where the key is missing.
#[verifier::external_body]
pub(crate) fn number_field(v: &serde_json::Value, key: &str) -> (r: Option<u64>)
    ensures
        r == if json_fields(*v).contains_key(key@) {
            json_fields(*v)[key@].0
        } else {
            None
        },
{
    v[key].as_u64()
}

/// `Value::as_str` of the value under a key: its text, `None` where the key is missing.
#[verifier::external_body]
pub(crate) fn text_field(v: &serde_json::Value, key: &str) -> (r: Option<String>)
    ensures
        match r {
            Some(s) => json_fields(*v).contains_key(key@) && json_fields(*v)[key@].1 == Some(s@),
            None => !json_fields(*v).contains_key(key@) || json_fields(*v)[key@].1 is None,
        },
{
    v[key].as_str().map(String::from)
}

/// A hexadecimal digit.
pub open spec fn hex_digit(d: int) -> char {
    if d < 10 {
        (48 + d) as char
    } else {
        (87 + d) as char
    }
}

/// A character inside a JSON string.
pub open spec fn json_char(c: char) -> Seq<char> {
    let n = c as int;
    if c == '"' || c == '\\' {
        seq!['\\', c]
    } else if n == 8 {
        seq!['\\', 'b']
    } else if n == 9 {
        seq!['\\', 't']
    } else if n == 10 {
        seq!['\\', 'n']
    } else if n == 12 {
        seq!['\\', 'f']
    } else if n == 13 {
        seq!['\\', 'r']
    } else if n < 32 {
        seq!['\\', 'u', '0', '0', hex_digit(n / 16), hex_digit(n % 16)]
    } else {
        seq![c]
    }
}

/// The characters of a text inside a JSON string.
pub open spec fn json_chars(s: Seq<char>) -> Seq<char>
    decreases s.len(),
{
    if s.len() == 0 {
        Seq::empty()
    } else {
        json_chars(s.drop_last()) + json_char(s.last())
    }
}

/// The items of a JSON list, with a comma between any two.
pub open spec fn json_items(items: Seq<Seq<char>>) -> Seq<char>
    decreases items.len(),
{
    if items.len() == 0 {
        Seq::empty()
    } else {
        let last = seq!['"'] + json_chars(items.last()) + seq!['"'];
        if items.len() == 1 {
            last
        } else {
            json_items(items.drop_last()) + seq![','] + last
        }
    }
}

/// A list of texts as JSON.
pub open spec fn json_list(items: Seq<Seq<char>>) -> Seq<char> {
    seq!['['] + json_items(items) + seq![']']
}

/// `serde_json::to_string` of a list of texts, which cannot fail: each text in quotes, its
/// quotes, backslashes and control characters escaped, with commas between and brackets around
/// them, and no white space.
#[verifier::external_body]
pub(crate) fn list_to_json(items: &Vec<String>) -> (r: String)
    ensures
        r@ == json_list(texts(items@)),
{
    serde_json::to_string(items).unwrap()
}

/// Two different characters are never written alike.
pub proof fn lemma_characters_are_told_apart(a: char, b: char)
    ensures
        json_char(a) == json_char(b) ==> a == b,
        json_char(a).len() > 0,
{
    let (x, y) = (json_char(a), json_char(b));
    if x == y {
        assert(x.len() == y.len());
        assert(x[0] == y[0]);
        if x.len() > 1 {
            assert(x[1] == y[1]);
        }
        if x.len() == 6 {
            assert(x[4] == y[4] && x[5] == y[5]);
            let (m, n) = (a as int, b as int);
            assert(m < 32 && n < 32);
            assert(m / 16 == n / 16 && m % 16 == n % 16);
        }
    }
}

proof fn lemma_character_is_escaped(c: char, k: int)
    requires
        0 <= k < json_char(c).len(),
    ensures
        json_char(c)[k] as int >= 32,
        json_char(c)[k] == '"' ==> k > 0 && json_char(c)[k - 1] == '\\',
{
    let n = c as int;
    if n < 32 {
        assert(hex_digit(n / 16) as int == 48 + n / 16);
        assert(hex_digit(n % 16) as int >= 48);
    }
}

/// What is written holds no control character, and no quote that is not escaped.
pub proof fn lemma_texts_are_escaped(s: Seq<char>, i: int)
    requires
        0 <= i < json_chars(s).len(),
    ensures
        json_chars(s)[i] as int >= 32,
        json_chars(s)[i] == '"' ==> i > 0 && json_chars(s)[i - 1] == '\\',
    decreases s.len(),
{
    if s.len() > 0 {
        let before = json_chars(s.drop_last());
        let last = json_char(s.last());
        if i < before.len() {
            lemma_texts_are_escaped(s.drop_last(), i);
        } else {
            let k = i - before.len();
            lemma_character_is_escaped(s.last(), k);
            assert(json_chars(s)[i] == last[k]);
            if k > 0 {
                assert(json_chars(s)[i - 1] == last[k - 1]);
            }
        }
    }
}

/// A list is its texts in quotes, one after the other, with commas between them.
pub proof fn lemma_items_are_joined_by_commas(items: Seq<Seq<char>>)
    ensures
        json_list(items) == seq!['['] + joined(
            Seq::new(items.len(), |i: int| seq!['"'] + json_chars(items[i]) + seq!['"']),
            seq![','],
        ) + seq![']'],
{
    lemma_joined_items(items);
}

proof fn lemma_joined_items(items: Seq<Seq<char>>)
    ensures
        json_items(items) == joined(
            Seq::new(items.len(), |i: int| seq!['"'] + json_chars(items[i]) + seq!['"']),
            seq![','],
        ),
    decreases items.len(),
{
    let quoted = Seq::new(items.len(), |i: int| seq!['"'] + json_chars(items[i]) + seq!['"']);
    if items.len() > 1 {
        let rest = items.drop_last();
        lemma_joined_items(rest);
        let before = Seq::new(rest.len(), |i: int| seq!['"'] + json_chars(rest[i]) + seq!['"']);
        assert(quoted.drop_last() =~= before);
    }
}

} // verus!
