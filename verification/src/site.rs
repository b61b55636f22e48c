//! What the game's site answers: its home page, its scores and its lists of neighbours.

use vstd::prelude::*;

use crate::ieee::Double;
use crate::order::{by_key, lemma_ranked, rank_by, ranked};
use crate::text::{
    before, char_list, find, find_from, lemma_before, lemma_find_from, occurs_at, parse_number, slice_of, text_of, trim, trimmed,
    unsigned_number, until,
};

verus! {

/// The home page: the number of today's puzzle, and yesterday's word.
pub struct Home {
    pub day: u32,
    pub yesterday: Option<String>,
}

/// Why a home page cannot be read.
#[derive(Clone, Copy, Debug, PartialEq, Eq, Structural)]
pub enum HomeError {
    /// It shows no puzzle number.
    NoNumber,
    /// What it shows is no number, or too large a one.
    BadNumber,
}

/// A text without its tags. `inside` says whether it starts in the middle of one.
pub open spec fn untagged(s: Seq<char>, inside: bool) -> Seq<char>
    decreases s.len(),
{
    if s.len() == 0 {
        Seq::empty()
    } else if s[0] == '<' {
        untagged(s.drop_first(), true)
    } else if s[0] == '>' {
        untagged(s.drop_first(), false)
    } else if inside {
        untagged(s.drop_first(), inside)
    } else {
        seq![s[0]] + untagged(s.drop_first(), inside)
    }
}

/// A text without its tags and without the white space around what is left.
pub open spec fn stripped(s: Seq<char>) -> Seq<char> {
    trimmed(untagged(s, false))
}

/// Drops the tags of a text and the white space around what is left.
fn strip_chars(s: &Vec<char>) -> (r: Vec<char>)
    ensures
        r@ == stripped(s@),
{
    let mut out: Vec<char> = Vec::new();
    let mut inside: bool = false;
    let ghost all = untagged(s@, false);
    assert(s@.skip(0) =~= s@);
    assert(all =~= out@ + untagged(s@.skip(0), false));
    for i in 0..s.len()
        invariant
            all == out@ + untagged(s@.skip(i as int), inside),
    {
        let ghost rest = s@.skip(i as int);
        assert(rest.drop_first() =~= s@.skip(i + 1));
        let ghost was = out@;
        match s[i] {
            '<' => {
                inside = true;
            },
            '>' => {
                inside = false;
            },
            c => {
                if !inside {
                    out.push(c);
                    assert(was + (seq![c] + untagged(s@.skip(i + 1), inside)) =~= out@ + untagged(
                        s@.skip(i + 1),
                        inside,
                    ));
                }
            },
        }
    }
    assert(s@.skip(s@.len() as int) =~= Seq::empty());
    assert(all =~= out@);
    trim(&out)
}

/// Drops the tags of a text and the white space around what is left.
pub fn strip_tags(s: &str) -> (r: String)
    ensures
        r@ == stripped(s@),
{
    text_of(&strip_chars(&char_list(s)))
}

/// What stands before the number of the puzzle.
pub open spec fn number_mark() -> Seq<char> {
    "data-puzzle-number=\""@
}

/// What marks the link to yesterday's word.
pub open spec fn yesterday_mark() -> Seq<char> {
    "id=\"yesterday\""@
}

/// The end of a link.
pub open spec fn link_end() -> Seq<char> {
    "</a>"@
}

/// The text between the puzzle mark and the next quote.
pub open spec fn number_text(html: Seq<char>) -> Option<Seq<char>> {
    match find_from(html, number_mark(), 0) {
        Some(i) => Some(before(html.skip(i + number_mark().len()), '"')),
        None => None,
    }
}

/// Where the text of yesterday's link starts and ends.
pub open spec fn yesterday_span(html: Seq<char>) -> Option<(int, int)> {
    match find_from(html, yesterday_mark(), 0) {
        Some(i) => match (find_from(html, link_end(), i), find_from(html, seq!['>'], i)) {
            (Some(end), Some(gt)) => Some((gt + 1, end)),
            _ => None,
        },
        None => None,
    }
}

/// The link to yesterday's word, if there is one, is opened before it ends.
pub open spec fn yesterday_is_framed(html: Seq<char>) -> bool {
    yesterday_span(html) matches Some((from, to)) ==> from <= to
}

/// Yesterday's word, unless its link is missing or empty.
pub open spec fn yesterday_word(html: Seq<char>) -> Option<Seq<char>> {
    match yesterday_span(html) {
        Some((from, to)) => {
            let w = stripped(html.subrange(from, to));
            if w.len() == 0 {
                None
            } else {
                Some(w)
            }
        },
        None => None,
    }
}

/// Where the text of yesterday's link starts and ends.
fn find_yesterday(html: &Vec<char>) -> (r: Option<(usize, usize)>)
    ensures
        match r {
            Some((from, to)) => yesterday_span(html@) == Some((from as int, to as int)) && from
                <= html@.len() && to <= html@.len(),
            None => yesterday_span(html@) is None,
        },
{
    let mark = char_list("id=\"yesterday\"");
    let i: usize = match find(html, &mark, 0) {
        Some(i) => i,
        None => {
            return None;
        },
    };
    let end: usize = match find(html, &char_list("</a>"), i) {
        Some(k) => k,
        None => {
            return None;
        },
    };
    let mut close: Vec<char> = Vec::new();
    close.push('>');
    assert(close@ =~= seq!['>']);
    let gt: usize = match find(html, &close, i) {
        Some(k) => k,
        None => {
            return None;
        },
    };
    proof {
        lemma_find_from(html@, link_end(), i as int);
        lemma_find_from(html@, seq!['>'], i as int);
        assert(occurs_at(html@, seq!['>'], gt as int));
        assert(html@.len() == html.len());
    }
    Some((gt + 1, end))
}

/// Can the link to yesterday's word be read? It cannot where it ends before it is opened.
pub fn yesterday_is_readable(html: &str) -> (r: bool)
    ensures
        r == yesterday_is_framed(html@),
{
    match find_yesterday(&char_list(html)) {
        Some((from, to)) => from <= to,
        None => true,
    }
}

/// Reads the home page.
pub fn parse_home(html: &str) -> (r: Result<Home, HomeError>)
    requires
        yesterday_is_framed(html@),
    ensures
        match r {
            Ok(home) => {
                &&& number_text(html@) is Some
                &&& unsigned_number(number_text(html@)->0) == Some(home.day as nat)
                &&& match home.yesterday {
                    Some(w) => yesterday_word(html@) == Some(w@),
                    None => yesterday_word(html@) is None,
                }
            },
            Err(HomeError::NoNumber) => number_text(html@) is None,
            Err(HomeError::BadNumber) => number_text(html@) is Some && (unsigned_number(
                number_text(html@)->0,
            ) is None || unsigned_number(number_text(html@)->0)->0 > u32::MAX),
        },
{
    let page = char_list(html);
    let mark = char_list("data-puzzle-number=\"");
    let at: usize = match find(&page, &mark, 0) {
        Some(i) => i,
        None => {
            return Err(HomeError::NoNumber);
        },
    };
    proof {
        lemma_find_from(page@, mark@, 0);
        assert(occurs_at(page@, mark@, at as int));
        assert(page@.len() == page.len());
    }
    let digits = until(&page, at + mark.len(), '"');
    let day: u32 = match parse_number(&digits) {
        Some(d) => {
            if d > u32::MAX as u64 {
                return Err(HomeError::BadNumber);
            }
            d as u32
        },
        None => {
            return Err(HomeError::BadNumber);
        },
    };
    let yesterday = match find_yesterday(&page) {
        Some((from, to)) => {
            let w = strip_chars(&slice_of(&page, from, to));
            if w.len() == 0 {
                None
            } else {
                Some(text_of(&w))
            }
        },
        None => None,
    };
    Ok(Home { day, yesterday })
}

/// The fields of an answer to a guess, as the site sends them.
pub struct RawScore {
    pub s: Option<Double>,
    pub p: Option<u32>,
    pub v: Option<u64>,
    pub e: Option<String>,
    pub r: Option<bool>,
}

/// The answer to a guess.
#[derive(Clone, Debug)]
pub enum ScoreResp {
    Score { s: Double, p: Option<u32>, solvers: Option<u64> },
    Unknown(String),
    Closed,
}

/// The answer that the fields stand for, `None` if they are no answer: an error message comes
/// before a closed puzzle, and that before a score.
pub fn read_score(raw: &RawScore) -> (r: Option<ScoreResp>)
    ensures
        match raw.e {
            Some(e) => r matches Some(ScoreResp::Unknown(m)) && m@ == stripped(e@),
            None => if raw.r == Some(true) {
                r == Some(ScoreResp::Closed)
            } else {
                r == match raw.s {
                    Some(s) => Some(ScoreResp::Score { s, p: raw.p, solvers: raw.v }),
                    None => None,
                }
            },
        },
{
    if let Some(e) = &raw.e {
        return Some(ScoreResp::Unknown(strip_tags(e.as_str())));
    }
    let closed: bool = match raw.r {
        Some(b) => b,
        None => false,
    };
    if closed {
        return Some(ScoreResp::Closed);
    }
    match raw.s {
        Some(s) => Some(ScoreResp::Score { s, p: raw.p, solvers: raw.v }),
        None => None,
    }
}

/// How often a request is made before its error counts.
pub const ATTEMPTS: u32 = 4;

/// What comes after an attempt.
#[derive(Clone, Copy, Debug, PartialEq, Eq, Structural)]
pub enum Retry {
    /// The request succeeded.
    Done,
    /// The request is made again.
    Again,
    /// The error counts.
    GiveUp,
}

/// Decides what comes after attempt number `attempt`, counted from 0.
pub fn after_attempt(attempt: u32, ok: bool) -> (r: Retry)
    requires
        attempt < ATTEMPTS,
    ensures
        r == if ok {
            Retry::Done
        } else if attempt + 1 < ATTEMPTS {
            Retry::Again
        } else {
            Retry::GiveUp
        },
{
    if ok {
        Retry::Done
    } else if attempt + 1 < ATTEMPTS {
        Retry::Again
    } else {
        Retry::GiveUp
    }
}

/// Milliseconds to wait before the next call, so that two calls lie at least `delay` apart.
/// `since_last` is the time since the last call, `None` before the first.
pub fn pause_ms(since_last: Option<u64>, delay: u64) -> (r: u64)
    ensures
        r == match since_last {
            Some(e) => if e < delay {
                (delay - e) as u64
            } else {
                0
            },
            None => 0,
        },
        since_last matches Some(e) ==> e + r >= delay,
{
    match since_last {
        Some(e) => {
            if e < delay {
                delay - e
            } else {
                0
            }
        },
        None => 0,
    }
}

/// Milliseconds to wait after failed attempt number `attempt`, counted from 0: half a second,
/// doubled each time.
pub fn retry_delay(attempt: u32) -> (r: u64)
    requires
        attempt < ATTEMPTS,
    ensures
        r == 500 * vstd::arithmetic::power2::pow2(attempt as nat),
{
    proof {
        vstd::arithmetic::power2::lemma2_to64();
    }
    match attempt {
        0 => 500,
        1 => 1000,
        2 => 2000,
        _ => 4000,
    }
}

/// One neighbour as the site lists it: the word, and the first two items of its entry. `None`
/// where the entry is no list; the items are missing where they are not of the right kind.
pub struct RawNeighbour {
    pub word: String,
    pub entry: Option<(Option<u64>, Option<Double>)>,
}

/// A neighbour of a revealed word: its ‰ rank and its score in degrees.
pub struct Neighbour {
    pub word: String,
    pub percentile: u32,
    pub degrees: Double,
}

/// Why a list of neighbours cannot be read.
#[derive(Clone, Copy, Debug, PartialEq, Eq, Structural)]
pub enum NearbyError {
    /// The answer is no object.
    NotAnObject,
    /// One of its entries is no list.
    BadEntry,
}

/// The ‰ rank of an entry: zero where it is missing, and of one that is too large only the low
/// 32 bits.
pub open spec fn percentile_of(raw: RawNeighbour) -> u32 {
    match (raw.entry->0).0 {
        Some(p) => p as u32,
        None => 0,
    }
}

/// The neighbour that an entry stands for: what is missing counts as zero.
pub open spec fn read_as(raw: RawNeighbour, r: Neighbour) -> bool {
    &&& r.word@ == raw.word@
    &&& r.percentile == percentile_of(raw)
    &&& r.degrees == match (raw.entry->0).1 {
        Some(s) => s,
        None => Double { bits: 0 },
    }
}

/// The order of some entries, the highest rank first and those of equal rank as they came.
pub open spec fn by_percentile(raw: Seq<RawNeighbour>) -> Seq<u32> {
    ranked(Seq::new(raw.len(), |i: int| (u32::MAX - percentile_of(raw[i])) as u64))
}

/// Reads a list of neighbours, the highest rank first and those of equal rank as they came.
pub fn read_nearby(raw: &Option<Vec<RawNeighbour>>) -> (r: Result<Vec<Neighbour>, NearbyError>)
    requires
        raw matches Some(list) ==> list@.len() <= u32::MAX,
    ensures
        match raw {
            None => r matches Err(NearbyError::NotAnObject),
            Some(list) => if exists|i: int| 0 <= i < list@.len() && (#[trigger] list@[i]).entry is None {
                r matches Err(NearbyError::BadEntry)
            } else {
                r matches Ok(out) && out@.len() == list@.len() && forall|i: int|
                    0 <= i < out@.len() ==> read_as(
                        list@[by_percentile(list@)[i] as int],
                        #[trigger] out@[i],
                    )
            },
        },
{
    let list = match raw {
        Some(list) => list,
        None => {
            return Err(NearbyError::NotAnObject);
        },
    };
    let mut keys: Vec<u64> = Vec::new();
    let ghost all = Seq::new(
        list@.len(),
        |i: int| (u32::MAX - percentile_of(list@[i])) as u64,
    );
    for i in 0..list.len()
        invariant
            *raw == Some(*list),
            all == Seq::new(
                list@.len(),
                |i: int| (u32::MAX - percentile_of(list@[i])) as u64,
            ),
            keys@ == all.take(i as int),
            forall|k: int| 0 <= k < i ==> (#[trigger] list@[k]).entry is Some,
    {
        match &list[i].entry {
            Some((p, _)) => {
                keys.push((u32::MAX - low_bits(p)) as u64);
            },
            None => {
                assert(list@[i as int].entry is None);
                return Err(NearbyError::BadEntry);
            },
        }
        assert(keys@ =~= all.take(i + 1));
    }
    assert(keys@ =~= all);
    let order = rank_by(&keys);
    proof {
        lemma_ranked(keys@);
    }
    let mut out: Vec<Neighbour> = Vec::new();
    for i in 0..order.len()
        invariant
            order@ == by_percentile(list@),
            forall|k: int| 0 <= k < order@.len() ==> (#[trigger] order@[k]) < list@.len(),
            forall|k: int| 0 <= k < list@.len() ==> (#[trigger] list@[k]).entry is Some,
            out@.len() == i,
            forall|k: int| 0 <= k < i ==> read_as(list@[order@[k] as int], #[trigger] out@[k]),
    {
        let e: &RawNeighbour = &list[order[i] as usize];
        if let Some((p, s)) = &e.entry {
            let degrees: Double = match s {
                Some(s) => *s,
                None => Double { bits: 0 },
            };
            out.push(Neighbour { word: e.word.clone(), percentile: low_bits(p), degrees });
        }
    }
    Ok(out)
}

/// The low 32 bits of a number, zero if it is missing.
fn low_bits(p: &Option<u64>) -> (r: u32)
    ensures
        r == match *p {
            Some(p) => p as u32,
            None => 0,
        },
{
    match p {
        Some(p) => *p as u32,
        None => 0,
    }
}

/// Neighbours come out by descending rank, each entry once, and entries of equal rank in the
/// order in which they came.
pub proof fn lemma_nearby_is_ordered(raw: Seq<RawNeighbour>, i: int, j: int)
    requires
        raw.len() <= u32::MAX,
        0 <= i < j < raw.len(),
    ensures
        ({
            let (a, b) = (by_percentile(raw)[i], by_percentile(raw)[j]);
            &&& a < raw.len()
            &&& b < raw.len()
            &&& a != b
            &&& percentile_of(raw[a as int]) > percentile_of(raw[b as int]) || (percentile_of(
                raw[a as int],
            ) == percentile_of(raw[b as int]) && a < b)
        }),
{
    let keys = Seq::new(raw.len(), |i: int| (u32::MAX - percentile_of(raw[i])) as u64);
    lemma_ranked(keys);
    let order = by_percentile(raw);
    assert(by_key(keys)(order[i], order[j]));
    assert(order[i] != order[j]);
}

/// Text outside tags is kept, and tags are dropped: text, then a tag, then more.
pub proof fn lemma_tags_are_dropped(a: Seq<char>, tag: Seq<char>, b: Seq<char>)
    requires
        !a.contains('<') && !a.contains('>'),
        !tag.contains('<') && !tag.contains('>'),
    ensures
        untagged(a + seq!['<'] + tag + seq!['>'] + b, false) == a + untagged(b, false),
        untagged(a, false) == a,
        untagged(tag, true).len() == 0,
{
    let rest = seq!['<'] + tag + seq!['>'] + b;
    assert(a + seq!['<'] + tag + seq!['>'] + b =~= a + rest);
    lemma_plain_front(a, rest);
    let inner = tag + seq!['>'] + b;
    assert(rest.drop_first() =~= inner);
    lemma_tag_front(tag, seq!['>'] + b);
    assert(inner =~= tag + (seq!['>'] + b));
    assert((seq!['>'] + b).drop_first() =~= b);
    lemma_plain_front(a, Seq::empty());
    assert(a + Seq::<char>::empty() =~= a);
    lemma_tag_front(tag, Seq::empty());
    assert(tag + Seq::<char>::empty() =~= tag);
}

proof fn lemma_plain_front(a: Seq<char>, rest: Seq<char>)
    requires
        !a.contains('<') && !a.contains('>'),
    ensures
        untagged(a + rest, false) == a + untagged(rest, false),
    decreases a.len(),
{
    if a.len() == 0 {
        assert(a + rest =~= rest);
        assert(a + untagged(rest, false) =~= untagged(rest, false));
    } else {
        let t = a.drop_first();
        assert(a.contains(a[0]));
        assert forall|c: char| t.contains(c) implies a.contains(c) by {
            let i = choose|i: int| 0 <= i < t.len() && t[i] == c;
            assert(a[i + 1] == c);
        }
        lemma_plain_front(t, rest);
        assert((a + rest).drop_first() =~= t + rest);
        assert(seq![a[0]] + (t + untagged(rest, false)) =~= a + untagged(rest, false));
    }
}

proof fn lemma_tag_front(tag: Seq<char>, rest: Seq<char>)
    requires
        !tag.contains('<') && !tag.contains('>'),
    ensures
        untagged(tag + rest, true) == untagged(rest, true),
    decreases tag.len(),
{
    if tag.len() == 0 {
        assert(tag + rest =~= rest);
    } else {
        let t = tag.drop_first();
        assert(tag.contains(tag[0]));
        assert forall|c: char| t.contains(c) implies tag.contains(c) by {
            let i = choose|i: int| 0 <= i < t.len() && t[i] == c;
            assert(tag[i + 1] == c);
        }
        lemma_tag_front(t, rest);
        assert((tag + rest).drop_first() =~= t + rest);
    }
}

/// The number of the puzzle is what stands between its mark and the next quote, at the first mark
/// of the page.
pub proof fn lemma_puzzle_number_is_read(head: Seq<char>, number: Seq<char>, rest: Seq<char>)
    requires
        !number.contains('"'),
        forall|i: int|
            0 <= i < head.len() ==> !#[trigger] occurs_at(
                head + number_mark() + number + seq!['"'] + rest,
                number_mark(),
                i,
            ),
    ensures
        number_text(head + number_mark() + number + seq!['"'] + rest) == Some(number),
{
    let html = head + number_mark() + number + seq!['"'] + rest;
    let k = head.len() as int;
    let n = number_mark().len() as int;
    assert(html.subrange(k, k + n) =~= number_mark());
    assert(occurs_at(html, number_mark(), k));
    lemma_find_from(html, number_mark(), 0);
    let tail = html.skip(k + n);
    assert(tail =~= number + seq!['"'] + rest);
    assert forall|j: int| 0 <= j < number.len() implies tail[j] != '"' by {
        assert(tail[j] == number[j]);
        assert(number.contains(number[j]));
    }
    assert(tail[number.len() as int] == '"');
    lemma_before(tail, '"', number.len() as int);
    assert(tail.take(number.len() as int) =~= number);
}

/// Yesterday's word is what the link after its mark shows, without the white space around it.
pub proof fn lemma_yesterday_is_read(
    head: Seq<char>,
    attributes: Seq<char>,
    word: Seq<char>,
    rest: Seq<char>,
)
    requires
        !attributes.contains('<') && !attributes.contains('>'),
        !word.contains('<') && !word.contains('>'),
        trimmed(word).len() > 0,
        forall|i: int|
            0 <= i < head.len() ==> !#[trigger] occurs_at(
                head + "id=\"yesterday\""@ + attributes + seq!['>'] + word + "</a>"@ + rest,
                "id=\"yesterday\""@,
                i,
            ),
    ensures
        yesterday_word(
            head + "id=\"yesterday\""@ + attributes + seq!['>'] + word + "</a>"@ + rest,
        ) == Some(trimmed(word)),
{
    let mark = "id=\"yesterday\""@;
    let close = "</a>"@;
    let html = head + mark + attributes + seq!['>'] + word + close + rest;
    let k = head.len() as int;
    let gt = k + mark.len() + attributes.len();
    let end = gt + 1 + word.len();
    assert(find_from(html, mark, 0) == Some(k)) by {
        assert(html.subrange(k, k + mark.len()) =~= mark);
        assert(occurs_at(html, mark, k));
        lemma_find_from(html, mark, 0);
    }
    assert forall|i: int| k <= i < end && i != gt implies #[trigger] html[i] != '>' && html[i]
        != '<' by {
        if i < k + mark.len() {
            reveal_strlit("id=\"yesterday\"");
            assert(html[i] == mark[i - k]);
        } else if i < gt {
            assert(html[i] == attributes[i - k - mark.len()]);
            assert(attributes.contains(attributes[i - k - mark.len()]));
        } else {
            assert(html[i] == word[i - gt - 1]);
            assert(word.contains(word[i - gt - 1]));
        }
    }
    assert(html[gt] == '>');
    lemma_first_sign(html, seq!['>'], k, gt);
    assert(html.subrange(end, end + close.len()) =~= close);
    assert(close.len() == 4 && close[0] == '<') by {
        reveal_strlit("</a>");
    }
    lemma_first_sign(html, close, k, end);
    assert(html.subrange(gt + 1, end) =~= word);
    lemma_untagged_text_stays(word);
}

/// A pattern is found where it stands if its first sign does not occur before.
proof fn lemma_first_sign(s: Seq<char>, pat: Seq<char>, from: int, at: int)
    requires
        pat.len() > 0,
        0 <= from <= at,
        at + pat.len() <= s.len(),
        s.subrange(at, at + pat.len()) =~= pat,
        forall|i: int| from <= i < at ==> #[trigger] s[i] != pat[0],
    ensures
        find_from(s, pat, from) == Some(at),
{
    assert(occurs_at(s, pat, at));
    assert forall|i: int| from <= i < at implies !#[trigger] occurs_at(s, pat, i) by {
        if occurs_at(s, pat, i) {
            assert(s.subrange(i, i + pat.len())[0] == s[i]);
        }
    }
    lemma_find_from(s, pat, from);
}

proof fn lemma_untagged_text_stays(s: Seq<char>)
    requires
        !s.contains('<') && !s.contains('>'),
    ensures
        untagged(s, false) == s,
    decreases s.len(),
{
    if s.len() > 0 {
        let rest = s.drop_first();
        assert(s.contains(s[0]));
        assert forall|i: int| 0 <= i < rest.len() implies rest[i] != '<' && rest[i] != '>' by {
            assert(s.contains(s[i + 1]));
        }
        lemma_untagged_text_stays(rest);
        assert(seq![s[0]] + rest =~= s);
    }
}

/// A neighbour is read as it came; what is missing counts as zero.
pub proof fn lemma_missing_numbers_are_zero(raw: RawNeighbour, r: Neighbour)
    requires
        raw.entry is Some,
        read_as(raw, r),
    ensures
        r.word@ == raw.word@,
        (raw.entry->0).0 is None ==> r.percentile == 0,
        (raw.entry->0).0 matches Some(p) ==> (p <= u32::MAX ==> r.percentile == p),
        (raw.entry->0).1 is None ==> r.degrees.place() == 0,
        (raw.entry->0).1 matches Some(d) ==> r.degrees == d,
{
}

} // verus!
