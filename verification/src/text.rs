//! Text handled as sequences of characters: search, trimming, lines and decimal numbers.

use vstd::prelude::*;

verus! {

/// `String::push`: the character goes to the end.
pub assume_specification[ String::push ](s: &mut String, c: char)
    ensures
        final(s)@ == old(s)@.push(c),
;

/// The small letter of an ASCII capital, and any other character as it is.
pub open spec fn ascii_lower(c: char) -> char {
    if 65 <= c as u32 <= 90 {
        (c as u32 + 32) as char
    } else {
        c
    }
}

/// The text holds ASCII characters only.
pub open spec fn ascii(s: Seq<char>) -> bool {
    forall|i: int| 0 <= i < s.len() ==> (#[trigger] s[i] as u32) < 128
}

/// What `str::to_lowercase` makes of a text. The Unicode case tables decide, and some letters
/// become several.
pub uninterp spec fn lowercased(s: Seq<char>) -> Seq<char>;

/// `str::to_lowercase`: the lowercase form of the text, as [`lowercased`] names it. In an ASCII
/// text the capitals become small letters and nothing else changes.
#[verifier::external_body]
pub(crate) fn to_lowercase(s: &str) -> (r: String)
    ensures
        r@ == lowercased(s@),
        ascii(s@) ==> r@ == s@.map_values(|c: char| ascii_lower(c)),
{
    s.to_lowercase()
}

/// The characters of a text.
pub fn char_list(s: &str) -> (r: Vec<char>)
    ensures
        r@ == s@,
{
    let mut r: Vec<char> = Vec::new();
    for c in it: s.chars()
        invariant
            it.seq() == s@,
            r@ == s@.take(it.index() as int),
    {
        r.push(c);
    }
    r
}

/// Writes a text behind another.
pub fn append_text(r: &mut String, s: &str)
    ensures
        final(r)@ == old(r)@ + s@,
{
    let v = char_list(s);
    let ghost start = r@;
    for i in 0..v.len()
        invariant
            v@ == s@,
            r@ == start + v@.take(i as int),
    {
        r.push(v[i]);
        assert(r@ =~= start + v@.take(i + 1));
    }
    assert(v@.take(v@.len() as int) =~= v@);
}

/// The text made of these characters.
pub fn text_of(v: &Vec<char>) -> (r: String)
    ensures
        r@ == v@,
{
    let mut r = String::new();
    for i in 0..v.len()
        invariant
            r@ == v@.take(i as int),
    {
        r.push(v[i]);
        assert(v@.take(i + 1) =~= v@.take(i as int).push(v@[i as int]));
    }
    assert(v@.take(v@.len() as int) =~= v@);
    r
}

/// The characters from `from` up to `to`.
pub fn slice_of(v: &Vec<char>, from: usize, to: usize) -> (r: Vec<char>)
    requires
        from <= to <= v@.len(),
    ensures
        r@ == v@.subrange(from as int, to as int),
{
    let mut r: Vec<char> = Vec::new();
    for i in from..to
        invariant
            from <= to <= v@.len(),
            r@ == v@.subrange(from as int, i as int),
    {
        r.push(v[i]);
        assert(v@.subrange(from as int, i + 1) =~= v@.subrange(from as int, i as int).push(
            v@[i as int],
        ));
    }
    r
}

/// Do the two texts hold the same characters?
pub fn same_text(a: &Vec<char>, b: &Vec<char>) -> (r: bool)
    ensures
        r == (a@ == b@),
{
    if a.len() != b.len() {
        return false;
    }
    for i in 0..a.len()
        invariant
            a@.len() == b@.len(),
            a@.take(i as int) == b@.take(i as int),
    {
        if a[i] != b[i] {
            assert(a@[i as int] != b@[i as int]);
            return false;
        }
        assert(a@.take(i + 1) =~= a@.take(i as int).push(a@[i as int]));
        assert(b@.take(i + 1) =~= b@.take(i as int).push(b@[i as int]));
    }
    assert(a@.take(a@.len() as int) =~= a@);
    assert(b@.take(b@.len() as int) =~= b@);
    true
}

/// `pat` stands in `s` at position `i`.
pub open spec fn occurs_at(s: Seq<char>, pat: Seq<char>, i: int) -> bool {
    0 <= i && i + pat.len() <= s.len() && s.subrange(i, i + pat.len()) == pat
}

/// The first position from `i` on at which `pat` stands in `s`.
pub open spec fn find_from(s: Seq<char>, pat: Seq<char>, i: int) -> Option<int>
    decreases s.len() + 1 - i,
{
    if i < 0 || i > s.len() {
        None
    } else if occurs_at(s, pat, i) {
        Some(i)
    } else {
        find_from(s, pat, i + 1)
    }
}

/// `pat` stands somewhere in `s`.
pub open spec fn contains_text(s: Seq<char>, pat: Seq<char>) -> bool {
    exists|i: int| occurs_at(s, pat, i)
}

/// [`find_from`] finds the first occurrence, and none only when there is none.
pub proof fn lemma_find_from(s: Seq<char>, pat: Seq<char>, i: int)
    requires
        0 <= i,
    ensures
        match find_from(s, pat, i) {
            Some(k) => i <= k && occurs_at(s, pat, k) && forall|j: int|
                i <= j < k ==> !occurs_at(s, pat, j),
            None => forall|j: int| i <= j ==> !occurs_at(s, pat, j),
        },
    decreases s.len() + 1 - i,
{
    if i <= s.len() && !occurs_at(s, pat, i) {
        lemma_find_from(s, pat, i + 1);
    }
}

/// Does `pat` stand in `s` at position `i`?
fn occurs(s: &Vec<char>, pat: &Vec<char>, i: usize) -> (r: bool)
    ensures
        r == occurs_at(s@, pat@, i as int),
{
    if pat.len() > s.len() || i > s.len() - pat.len() {
        return false;
    }
    for k in 0..pat.len()
        invariant
            i + pat.len() <= s.len(),
            forall|j: int| 0 <= j < k ==> s@[i + j] == pat@[j],
    {
        if s[i + k] != pat[k] {
            assert(s@.subrange(i as int, i + pat@.len())[k as int] != pat@[k as int]);
            return false;
        }
    }
    assert(s@.subrange(i as int, i + pat@.len()) =~= pat@);
    true
}

/// The first position from `from` on at which `pat` stands in `s`.
pub fn find(s: &Vec<char>, pat: &Vec<char>, from: usize) -> (r: Option<usize>)
    ensures
        match r {
            Some(k) => find_from(s@, pat@, from as int) == Some(k as int),
            None => find_from(s@, pat@, from as int) is None,
        },
{
    let mut i: usize = from;
    while i < s.len()
        invariant
            from <= i,
            i <= s@.len() || i == from,
            find_from(s@, pat@, from as int) == find_from(s@, pat@, i as int),
        decreases s@.len() - i,
    {
        if occurs(s, pat, i) {
            return Some(i);
        }
        i = i + 1;
    }
    if i == s.len() && occurs(s, pat, i) {
        return Some(i);
    }
    proof {
        lemma_find_from(s@, pat@, i as int);
    }
    None
}

/// Does the character have the Unicode White_Space property?
pub open spec fn white_space(c: char) -> bool {
    let n = c as u32;
    ||| 0x9 <= n <= 0xd
    ||| n == 0x20
    ||| n == 0x85
    ||| n == 0xa0
    ||| n == 0x1680
    ||| 0x2000 <= n <= 0x200a
    ||| n == 0x2028
    ||| n == 0x2029
    ||| n == 0x202f
    ||| n == 0x205f
    ||| n == 0x3000
}

pub fn is_white_space(c: char) -> (r: bool)
    ensures
        r == white_space(c),
{
    let n: u32 = c as u32;
    (0x9 <= n && n <= 0xd) || n == 0x20 || n == 0x85 || n == 0xa0 || n == 0x1680 || (0x2000 <= n
        && n <= 0x200a) || n == 0x2028 || n == 0x2029 || n == 0x202f || n == 0x205f || n == 0x3000
}

/// The text without its leading white space.
pub open spec fn trimmed_start(s: Seq<char>) -> Seq<char>
    decreases s.len(),
{
    if s.len() > 0 && white_space(s[0]) {
        trimmed_start(s.drop_first())
    } else {
        s
    }
}

/// The text without its trailing white space.
pub open spec fn trimmed_end(s: Seq<char>) -> Seq<char>
    decreases s.len(),
{
    if s.len() > 0 && white_space(s.last()) {
        trimmed_end(s.drop_last())
    } else {
        s
    }
}

/// The text without white space at either end.
pub open spec fn trimmed(s: Seq<char>) -> Seq<char> {
    trimmed_end(trimmed_start(s))
}

/// Drops the white space at both ends.
pub fn trim(s: &Vec<char>) -> (r: Vec<char>)
    ensures
        r@ == trimmed(s@),
{
    let mut from: usize = 0;
    assert(s@.skip(0) =~= s@);
    while from < s.len() && is_white_space(s[from])
        invariant
            from <= s@.len(),
            trimmed_start(s@) == trimmed_start(s@.skip(from as int)),
        decreases s@.len() - from,
    {
        assert(s@.skip(from as int).drop_first() =~= s@.skip(from + 1));
        from = from + 1;
    }
    let ghost rest = s@.skip(from as int);
    assert(trimmed_start(s@) == rest);
    let mut to: usize = s.len();
    assert(s@.subrange(from as int, to as int) =~= rest);
    while to > from && is_white_space(s[to - 1])
        invariant
            from <= to <= s@.len(),
            trimmed_end(rest) == trimmed_end(s@.subrange(from as int, to as int)),
        decreases to,
    {
        assert(s@.subrange(from as int, to as int).drop_last() =~= s@.subrange(
            from as int,
            to - 1,
        ));
        to = to - 1;
    }
    slice_of(s, from, to)
}

/// The part of a text before the first `c`, or all of it.
pub open spec fn before(s: Seq<char>, c: char) -> Seq<char>
    decreases s.len(),
{
    if s.len() == 0 || s[0] == c {
        Seq::empty()
    } else {
        seq![s[0]] + before(s.drop_first(), c)
    }
}

/// Length of [`before`], and what it means.
pub proof fn lemma_before(s: Seq<char>, c: char, k: int)
    requires
        0 <= k <= s.len(),
        forall|j: int| 0 <= j < k ==> s[j] != c,
        k < s.len() ==> s[k] == c,
    ensures
        before(s, c) == s.take(k),
    decreases s.len(),
{
    if k > 0 {
        lemma_before(s.drop_first(), c, k - 1);
        assert(s.take(k) =~= seq![s[0]] + s.drop_first().take(k - 1));
    } else {
        assert(s.take(0) =~= Seq::empty());
    }
}

/// The characters of `s` from `from` up to the next `c`, or to the end.
pub fn until(s: &Vec<char>, from: usize, c: char) -> (r: Vec<char>)
    requires
        from <= s@.len(),
    ensures
        r@ == before(s@.skip(from as int), c),
{
    let mut to: usize = from;
    while to < s.len() && s[to] != c
        invariant
            from <= to <= s@.len(),
            forall|j: int| from <= j < to ==> s@[j] != c,
        decreases s@.len() - to,
    {
        to = to + 1;
    }
    proof {
        lemma_before(s@.skip(from as int), c, to - from);
        assert(s@.skip(from as int).take(to - from) =~= s@.subrange(from as int, to as int));
    }
    slice_of(s, from, to)
}

/// What the strings of a list hold.
pub open spec fn texts(v: Seq<String>) -> Seq<Seq<char>> {
    Seq::new(v.len(), |i: int| v[i]@)
}

/// A line without the carriage return before its newline.
pub open spec fn chomped(s: Seq<char>) -> Seq<char> {
    if s.len() > 0 && s.last() == '\r' {
        s.drop_last()
    } else {
        s
    }
}

/// The lines of a text: each ends in a newline, which a carriage return may precede, or with
/// the text.
pub open spec fn lines_of(s: Seq<char>) -> Seq<Seq<char>>
    decreases s.len(),
{
    let line = before(s, '\n');
    if s.len() == 0 {
        Seq::empty()
    } else if line.len() >= s.len() {
        seq![s]
    } else {
        seq![chomped(line)] + lines_of(s.skip(line.len() as int + 1))
    }
}

/// Splits a text into its lines.
pub fn lines(s: &Vec<char>) -> (r: Vec<String>)
    ensures
        texts(r@) == lines_of(s@),
{
    let mut r: Vec<String> = Vec::new();
    let mut from: usize = 0;
    assert(s@.skip(0) =~= s@);
    assert(texts(r@) + lines_of(s@) =~= lines_of(s@));
    while from < s.len()
        invariant
            from <= s@.len(),
            lines_of(s@) == texts(r@) + lines_of(s@.skip(from as int)),
        decreases s@.len() - from,
    {
        let ghost done = texts(r@);
        let ghost rest = s@.skip(from as int);
        let line = until(s, from, '\n');
        proof {
            lemma_before_fits(rest, '\n');
        }
        if line.len() == s.len() - from {
            assert(rest.take(line@.len() as int) =~= rest);
            r.push(text_of(&line));
            assert(texts(r@) =~= done.push(rest));
            assert(done + lines_of(rest) =~= done.push(rest));
            return r;
        }
        let n: usize = line.len();
        let kept = if n > 0 && line[n - 1] == '\r' {
            slice_of(&line, 0, n - 1)
        } else {
            slice_of(&line, 0, n)
        };
        assert(kept@ =~= chomped(line@));
        r.push(text_of(&kept));
        from = from + n + 1;
        assert(texts(r@) =~= done.push(chomped(line@)));
        assert(rest.skip(n + 1) =~= s@.skip(from as int));
        assert(done + (seq![chomped(line@)] + lines_of(s@.skip(from as int))) =~= done.push(
            chomped(line@),
        ) + lines_of(s@.skip(from as int)));
    }
    assert(texts(r@) + lines_of(s@.skip(from as int)) =~= texts(r@));
    r
}

/// [`before`] is a prefix of its text.
pub proof fn lemma_before_fits(s: Seq<char>, c: char)
    ensures
        before(s, c).len() <= s.len(),
        before(s, c) == s.take(before(s, c).len() as int),
        forall|j: int| 0 <= j < before(s, c).len() ==> s[j] != c,
        before(s, c).len() < s.len() ==> s[before(s, c).len() as int] == c,
    decreases s.len(),
{
    if s.len() > 0 && s[0] != c {
        let rest = s.drop_first();
        lemma_before_fits(rest, c);
        let k = before(s, c).len() as int;
        assert(s.take(k) =~= seq![s[0]] + rest.take(k - 1));
        assert forall|j: int| 0 <= j < k implies s[j] != c by {
            if j > 0 {
                assert(rest[j - 1] != c);
            }
        }
        if k < s.len() {
            assert(rest[k - 1] == c);
        }
    } else {
        assert(s.take(0) =~= Seq::empty());
    }
}

/// The text that holds each item on a line of its own.
pub open spec fn terminated(items: Seq<Seq<char>>) -> Seq<char>
    decreases items.len(),
{
    if items.len() == 0 {
        Seq::empty()
    } else {
        terminated(items.drop_last()) + items.last().push('\n')
    }
}

/// Writes each word on a line of its own.
pub fn write_lines(words: &Vec<String>) -> (r: String)
    ensures
        r@ == terminated(texts(words@)),
{
    let mut r = String::new();
    for i in 0..words.len()
        invariant
            r@ == terminated(texts(words@).take(i as int)),
    {
        r.append(words[i].as_str());
        r.push('\n');
        assert(texts(words@).take(i + 1).drop_last() =~= texts(words@).take(i as int));
        assert(r@ =~= terminated(texts(words@).take(i as int)) + words@[i as int]@.push('\n'));
    }
    assert(texts(words@).take(words@.len() as int) =~= texts(words@));
    r
}

/// Lines split off the front: a text that starts with a whole line.
proof fn lemma_lines_of_first(line: Seq<char>, rest: Seq<char>)
    requires
        !line.contains('\n'),
    ensures
        lines_of(line.push('\n') + rest) == seq![chomped(line)] + lines_of(rest),
{
    let s = line.push('\n') + rest;
    let k = line.len() as int;
    assert forall|j: int| 0 <= j < k implies s[j] != '\n' by {
        assert(line.contains(line[j]));
    }
    assert(s[k] == '\n');
    lemma_before(s, '\n', k);
    assert(s.take(k) =~= line);
    assert(s.skip(k + 1) =~= rest);
}

/// The items of [`terminated`], taken from the front.
proof fn lemma_terminated_front(items: Seq<Seq<char>>)
    requires
        items.len() > 0,
    ensures
        terminated(items) == items[0].push('\n') + terminated(items.drop_first()),
    decreases items.len(),
{
    if items.len() == 1 {
        assert(items.drop_last() =~= Seq::empty());
        assert(items.drop_first() =~= Seq::empty());
        assert(terminated(items.drop_last()) =~= Seq::empty());
        assert(terminated(items) =~= items[0].push('\n'));
        assert(items[0].push('\n') + terminated(items.drop_first()) =~= items[0].push('\n'));
    } else {
        lemma_terminated_front(items.drop_last());
        assert(items.drop_last().drop_first() =~= items.drop_first().drop_last());
        let mid = terminated(items.drop_first().drop_last());
        assert((items[0].push('\n') + mid) + items.last().push('\n') =~= items[0].push('\n') + (mid
            + items.last().push('\n')));
    }
}

/// A word list written line by line reads back as the same list, as long as no word holds a
/// newline or ends in a carriage return.
pub proof fn lemma_lines_read_back(items: Seq<Seq<char>>)
    requires
        forall|i: int|
            #![trigger items[i]]
            0 <= i < items.len() ==> !items[i].contains('\n') && (items[i].len() == 0
                || items[i].last() != '\r'),
    ensures
        lines_of(terminated(items)) == items,
    decreases items.len(),
{
    if items.len() == 0 {
        assert(items =~= Seq::empty());
    } else {
        let rest = items.drop_first();
        lemma_terminated_front(items);
        lemma_lines_of_first(items[0], terminated(rest));
        assert forall|i: int| #![trigger rest[i]] 0 <= i < rest.len() implies !rest[i].contains('\n')
            && (rest[i].len() == 0 || rest[i].last() != '\r') by {
            assert(rest[i] == items[i + 1]);
        }
        lemma_lines_read_back(rest);
        assert(seq![items[0]] + rest =~= items);
    }
}

/// The digit character of a value below ten.
pub open spec fn digit_char(d: nat) -> char {
    (48 + d) as char
}

/// Is this a decimal digit?
pub open spec fn is_digit(c: char) -> bool {
    48 <= c as u32 <= 57
}

/// A number in decimal, without leading zeros.
pub open spec fn decimal(n: nat) -> Seq<char>
    decreases n,
{
    if n < 10 {
        seq![digit_char(n)]
    } else {
        decimal(n / 10).push(digit_char(n % 10))
    }
}

/// Writes a number in decimal.
pub fn write_decimal(n: u64) -> (r: String)
    ensures
        r@ == decimal(n as nat),
    decreases n,
{
    let mut r = if n < 10 {
        String::new()
    } else {
        write_decimal(n / 10)
    };
    let d: u8 = (n % 10) as u8;
    let c: char = (48 + d) as char;
    r.push(c);
    assert(r@ =~= decimal(n as nat));
    r
}

/// The number that a run of digits stands for.
pub open spec fn digits_value(s: Seq<char>) -> nat
    decreases s.len(),
{
    if s.len() == 0 {
        0
    } else {
        digits_value(s.drop_last()) * 10 + (s.last() as u32 - 48) as nat
    }
}

/// A text without the plus sign it may start with.
pub open spec fn unsigned_body(s: Seq<char>) -> Seq<char> {
    if s.len() > 0 && s[0] == '+' {
        s.drop_first()
    } else {
        s
    }
}

/// The number that a text stands for: digits alone, which a plus sign may precede.
pub open spec fn unsigned_number(s: Seq<char>) -> Option<nat> {
    let body = unsigned_body(s);
    if body.len() > 0 && forall|i: int| 0 <= i < body.len() ==> is_digit(#[trigger] body[i]) {
        Some(digits_value(body))
    } else {
        None
    }
}

/// Reads an unsigned number, if the text is one and it fits.
pub fn parse_number(s: &Vec<char>) -> (r: Option<u64>)
    ensures
        match r {
            Some(n) => unsigned_number(s@) == Some(n as nat),
            None => unsigned_number(s@) is None || unsigned_number(s@)->0 > u64::MAX,
        },
{
    let from: usize = if s.len() > 0 && s[0] == '+' {
        1
    } else {
        0
    };
    let ghost body = unsigned_body(s@);
    assert(body =~= s@.skip(from as int));
    if from == s.len() {
        return None;
    }
    let mut n: u64 = 0;
    let mut full: bool = false;
    assert(body.take(0) =~= Seq::empty());
    for i in from..s.len()
        invariant
            from <= s@.len(),
            body == unsigned_body(s@),
            body == s@.skip(from as int),
            forall|j: int| 0 <= j < i - from ==> is_digit(#[trigger] body[j]),
            full ==> digits_value(body.take(i - from)) > u64::MAX,
            !full ==> digits_value(body.take(i - from)) == n,
    {
        let c: u32 = s[i] as u32;
        assert(body[i - from] == s@[i as int]);
        if c < 48 || c > 57 {
            assert(!is_digit(body[i - from]));
            return None;
        }
        let d: u64 = (c - 48) as u64;
        assert(body.take(i - from + 1).drop_last() =~= body.take(i - from));
        if full {
        } else if n > u64::MAX / 10 || n * 10 > u64::MAX - d {
            full = true;
        } else {
            n = n * 10 + d;
        }
    }
    assert(body.take(s@.len() - from) =~= body);
    if full {
        None
    } else {
        Some(n)
    }
}

/// A number written in decimal reads back as itself.
pub proof fn lemma_decimal_reads_back(n: nat)
    ensures
        unsigned_number(decimal(n)) == Some(n),
{
    lemma_decimal_digits(n);
    let s = decimal(n);
    assert(is_digit(s[0]));
}

proof fn lemma_decimal_digits(n: nat)
    ensures
        decimal(n).len() > 0,
        forall|i: int| 0 <= i < decimal(n).len() ==> is_digit(#[trigger] decimal(n)[i]),
        digits_value(decimal(n)) == n,
    decreases n,
{
    if n >= 10 {
        lemma_decimal_digits(n / 10);
        assert(decimal(n).drop_last() =~= decimal(n / 10));
    } else {
        assert(decimal(n).drop_last() =~= Seq::empty());
        assert(digits_value(decimal(n).drop_last()) == 0);
    }
}

/// A text filled up with spaces on the right to a width.
pub open spec fn padded_right(s: Seq<char>, width: nat) -> Seq<char> {
    if s.len() >= width {
        s
    } else {
        s + Seq::new((width - s.len()) as nat, |i: int| ' ')
    }
}

/// A text filled up with spaces on the left to a width.
pub open spec fn padded_left(s: Seq<char>, width: nat) -> Seq<char> {
    if s.len() >= width {
        s
    } else {
        Seq::new((width - s.len()) as nat, |i: int| ' ') + s
    }
}

/// Writes some spaces behind a text.
fn append_spaces(r: &mut String, n: usize)
    ensures
        final(r)@ == old(r)@ + Seq::new(n as nat, |i: int| ' '),
{
    let ghost start = r@;
    for k in 0..n
        invariant
            r@ == start + Seq::new(k as nat, |i: int| ' '),
    {
        r.push(' ');
        assert(r@ =~= start + Seq::new(k as nat + 1, |i: int| ' '));
    }
    assert(r@ =~= start + Seq::new(n as nat, |i: int| ' '));
}

/// Fills a text up with spaces on the right.
pub fn pad_right(s: &str, width: usize) -> (r: String)
    ensures
        r@ == padded_right(s@, width as nat),
{
    let len: usize = char_list(s).len();
    let mut r = String::new();
    append_text(&mut r, s);
    if len < width {
        append_spaces(&mut r, width - len);
    }
    assert(r@ =~= padded_right(s@, width as nat));
    r
}

/// Fills a text up with spaces on the left.
pub fn pad_left(s: &str, width: usize) -> (r: String)
    ensures
        r@ == padded_left(s@, width as nat),
{
    let len: usize = char_list(s).len();
    let mut r = String::new();
    if len < width {
        append_spaces(&mut r, width - len);
    }
    append_text(&mut r, s);
    assert(r@ =~= padded_left(s@, width as nat));
    r
}

/// Texts one after the other, with a separator between any two.
pub open spec fn joined(items: Seq<Seq<char>>, sep: Seq<char>) -> Seq<char>
    decreases items.len(),
{
    if items.len() == 0 {
        Seq::empty()
    } else if items.len() == 1 {
        items[0]
    } else {
        joined(items.drop_last(), sep) + sep + items.last()
    }
}

/// Writes texts one after the other, with a separator between any two.
pub fn join(items: &Vec<String>, sep: &str) -> (r: String)
    ensures
        r@ == joined(texts(items@), sep@),
{
    let mut r = String::new();
    let ghost all = texts(items@);
    assert(all.take(0) =~= Seq::empty());
    for i in 0..items.len()
        invariant
            all == texts(items@),
            r@ == joined(all.take(i as int), sep@),
    {
        let ghost (head, next) = (all.take(i as int), all.take(i + 1));
        let ghost was = r@;
        if i > 0 {
            append_text(&mut r, sep);
        }
        append_text(&mut r, items[i].as_str());
        proof {
            assert(next.drop_last() =~= head);
            assert(next.last() == items@[i as int]@);
            if i == 0 {
                assert(r@ =~= next[0]);
            } else {
                assert(r@ =~= was + sep@ + next.last());
            }
        }
    }
    assert(all.take(items@.len() as int) =~= all);
    r
}

/// Trimming takes white space off both ends, all of it and nothing else.
pub proof fn lemma_trimming_takes_the_ends(s: Seq<char>) -> (r: (int, int))
    ensures
        0 <= r.0 <= r.1 <= s.len(),
        trimmed(s) == s.subrange(r.0, r.1),
        forall|i: int| 0 <= i < r.0 || r.1 <= i < s.len() ==> white_space(#[trigger] s[i]),
        r.0 < r.1 ==> !white_space(s[r.0]) && !white_space(s[r.1 - 1]),
{
    let a = lemma_trimmed_start_at(s);
    let t = s.skip(a);
    let b = lemma_trimmed_end_at(t);
    assert(t.take(b) =~= s.subrange(a, a + b));
    assert forall|i: int| 0 <= i < a || a + b <= i < s.len() implies white_space(
        #[trigger] s[i],
    ) by {
        if i >= a + b {
            assert(t[i - a] == s[i]);
        }
    }
    if b > 0 {
        assert(t[0] == s[a]);
        assert(t[b - 1] == s[a + b - 1]);
    }
    (a, a + b)
}

proof fn lemma_trimmed_start_at(s: Seq<char>) -> (a: int)
    ensures
        0 <= a <= s.len(),
        trimmed_start(s) == s.skip(a),
        forall|i: int| 0 <= i < a ==> white_space(#[trigger] s[i]),
        a < s.len() ==> !white_space(s[a]),
    decreases s.len(),
{
    if s.len() > 0 && white_space(s[0]) {
        let t = s.drop_first();
        let a = lemma_trimmed_start_at(t);
        assert(t.skip(a) =~= s.skip(a + 1));
        assert forall|i: int| 0 <= i < a + 1 implies white_space(#[trigger] s[i]) by {
            if i > 0 {
                assert(t[i - 1] == s[i]);
            }
        }
        a + 1
    } else {
        assert(s.skip(0) =~= s);
        0
    }
}

proof fn lemma_trimmed_end_at(s: Seq<char>) -> (b: int)
    ensures
        0 <= b <= s.len(),
        trimmed_end(s) == s.take(b),
        forall|i: int| b <= i < s.len() ==> white_space(#[trigger] s[i]),
        b > 0 ==> !white_space(s[b - 1]),
        s.len() > 0 && !white_space(s[0]) ==> b > 0,
    decreases s.len(),
{
    if s.len() > 0 && white_space(s.last()) {
        let t = s.drop_last();
        let b = lemma_trimmed_end_at(t);
        assert(t.take(b) =~= s.take(b));
        assert forall|i: int| b <= i < s.len() implies white_space(#[trigger] s[i]) by {
            if i < t.len() {
                assert(t[i] == s[i]);
            }
        }
        b
    } else {
        assert(s.take(s.len() as int) =~= s);
        s.len() as int
    }
}

/// White space around a text does not matter once it is trimmed.
pub proof fn lemma_white_space_around_is_dropped(s: Seq<char>, c: char)
    requires
        white_space(c),
    ensures
        trimmed(seq![c] + s) == trimmed(s),
        trimmed(s.push(c)) == trimmed(s),
{
    assert((seq![c] + s).drop_first() =~= s);
    assert(s.push(c).drop_last() =~= s);
    if trimmed_start(s).len() == 0 {
        lemma_trimmed_start_of_push(s, c);
    } else {
        lemma_trimmed_start_of_push(s, c);
        assert(trimmed_start(s).push(c).drop_last() =~= trimmed_start(s));
    }
}

proof fn lemma_trimmed_start_of_push(s: Seq<char>, c: char)
    requires
        white_space(c),
    ensures
        trimmed_start(s).len() > 0 ==> trimmed_start(s.push(c)) == trimmed_start(s).push(c),
        trimmed_start(s).len() == 0 ==> trimmed_start(s.push(c)).len() == 0,
    decreases s.len(),
{
    if s.len() == 0 {
        assert(s.push(c).drop_first().len() == 0);
        assert(trimmed_start(s.push(c)) == trimmed_start(s.push(c).drop_first()));
    } else if white_space(s[0]) {
        lemma_trimmed_start_of_push(s.drop_first(), c);
        assert(s.push(c).drop_first() =~= s.drop_first().push(c));
    }
}

/// Padding adds spaces on one side up to the width, and takes nothing away.
pub proof fn lemma_padding_adds_spaces(s: Seq<char>, width: nat, i: int)
    ensures
        ({
            let (r, l) = (padded_right(s, width), padded_left(s, width));
            let len = if s.len() < width {
                width as int
            } else {
                s.len() as int
            };
            &&& r.len() == len && l.len() == len
            &&& 0 <= i < s.len() ==> r[i] == s[i] && l[len - s.len() + i] == s[i]
            &&& s.len() <= i < len ==> r[i] == ' '
            &&& 0 <= i < len - s.len() ==> l[i] == ' '
        }),
{
}

/// Joining two lists joins what each of them joins to.
pub proof fn lemma_joining_is_associative(a: Seq<Seq<char>>, b: Seq<Seq<char>>, sep: Seq<char>)
    requires
        a.len() > 0,
        b.len() > 0,
    ensures
        joined(a + b, sep) == joined(a, sep) + sep + joined(b, sep),
        b.len() == 1 ==> joined(b, sep) == b[0],
    decreases b.len(),
{
    let all = a + b;
    assert(all.last() == b.last());
    assert(all.drop_last() =~= a + b.drop_last());
    if b.len() > 1 {
        lemma_joining_is_associative(a, b.drop_last(), sep);
        assert(joined(a, sep) + sep + joined(b.drop_last(), sep) + sep + b.last() =~= joined(a, sep)
            + sep + (joined(b.drop_last(), sep) + sep + b.last()));
    } else {
        assert(a + b.drop_last() =~= a);
    }
}

/// Lines end at newlines: a line and its newline in front of a text add one line to it, without
/// the carriage return it may end in, and no line holds a newline.
pub proof fn lemma_lines_end_at_newlines(line: Seq<char>, rest: Seq<char>)
    requires
        !line.contains('\n'),
    ensures
        lines_of(line.push('\n') + rest).len() == 1 + lines_of(rest).len(),
        lines_of(line.push('\n') + rest).skip(1) == lines_of(rest),
        line.len() == 0 || line.last() != '\r' ==> lines_of(line.push('\n') + rest)[0] == line,
        lines_of(line.push('\r').push('\n') + rest)[0] == line,
        line.len() > 0 ==> lines_of(line) == seq![line],
        lines_of(Seq::empty()).len() == 0,
{
    lemma_lines_of_first(line, rest);
    assert(lines_of(line.push('\n') + rest).skip(1) =~= lines_of(rest));
    let crlf = line.push('\r');
    assert(!crlf.contains('\n')) by {
        if crlf.contains('\n') {
            let i = choose|i: int| 0 <= i < crlf.len() && crlf[i] == '\n';
            assert(line[i] == '\n');
        }
    }
    lemma_lines_of_first(crlf, rest);
    assert(crlf.drop_last() =~= line);
    if line.len() > 0 {
        lemma_before(line, '\n', line.len() as int);
        assert(line.take(line.len() as int) =~= line);
    }
}

/// A number in decimal has no leading zero, and one digit more stands for ten times as much.
pub proof fn lemma_decimal_is_positional(n: nat, d: nat)
    requires
        d < 10,
    ensures
        n > 0 ==> decimal(10 * n + d) == decimal(n).push((48 + d) as char),
        n > 0 ==> decimal(n)[0] != '0',
        decimal(0) == seq!['0'],
        decimal(d).len() == 1,
    decreases n,
{
    assert((10 * n + d) / 10 == n);
    assert((10 * n + d) % 10 == d);
    lemma_decimal_digits(n);
    if n >= 10 {
        lemma_decimal_is_positional(n / 10, 0);
        lemma_decimal_digits(n / 10);
    }
}

/// The white space of Unicode, by code point.
pub proof fn lemma_white_space_by_code(c: char)
    ensures
        ({
            let n = c as u32;
            let codes: Seq<u32> = seq![
                0x9,
                0xa,
                0xb,
                0xc,
                0xd,
                0x20,
                0x85,
                0xa0,
                0x1680,
                0x2000,
                0x2001,
                0x2002,
                0x2003,
                0x2004,
                0x2005,
                0x2006,
                0x2007,
                0x2008,
                0x2009,
                0x200a,
                0x2028,
                0x2029,
                0x202f,
                0x205f,
                0x3000,
            ];
            &&& white_space(c) ==> exists|i: int| 0 <= i < codes.len() && codes[i] == n
            &&& forall|i: int| 0 <= i < codes.len() && #[trigger] codes[i] == n ==> white_space(c)
        }),
{
    let n = c as u32;
    let codes: Seq<u32> = seq![
        0x9,
        0xa,
        0xb,
        0xc,
        0xd,
        0x20,
        0x85,
        0xa0,
        0x1680,
        0x2000,
        0x2001,
        0x2002,
        0x2003,
        0x2004,
        0x2005,
        0x2006,
        0x2007,
        0x2008,
        0x2009,
        0x200a,
        0x2028,
        0x2029,
        0x202f,
        0x205f,
        0x3000,
    ];
    if 0x9 <= n <= 0xd {
        assert(codes[n - 0x9] == n);
    } else if 0x2000 <= n <= 0x200a {
        assert(codes[n - 0x2000 + 9] == n);
    } else if white_space(c) {
        assert(codes[5] == 0x20 && codes[6] == 0x85 && codes[7] == 0xa0 && codes[8] == 0x1680);
        assert(codes[20] == 0x2028 && codes[21] == 0x2029 && codes[22] == 0x202f && codes[23]
            == 0x205f && codes[24] == 0x3000);
    }
}

/// A number may carry a plus sign and nothing else: any other character makes it no number, and
/// so does its absence.
pub proof fn lemma_numbers_are_digits(n: nat, s: Seq<char>, i: int)
    ensures
        unsigned_number(seq!['+'] + decimal(n)) == Some(n),
        unsigned_number(Seq::empty()) is None,
        unsigned_number(seq!['+']) is None,
        0 < i < s.len() && !('0' as u32 <= s[i] as u32 <= '9' as u32) ==> unsigned_number(s) is None,
        s.len() > 0 && !('0' as u32 <= s[0] as u32 <= '9' as u32) && s[0] != '+' ==> unsigned_number(
            s,
        ) is None,
{
    lemma_decimal_reads_back(n);
    lemma_decimal_digits(n);
    let signed = seq!['+'] + decimal(n);
    assert(signed[0] == '+');
    assert(unsigned_body(signed) =~= decimal(n));
    assert(unsigned_body(decimal(n)) == decimal(n)) by {
        assert(is_digit(decimal(n)[0]));
    }
    let body = unsigned_body(s);
    if 0 < i < s.len() && !('0' as u32 <= s[i] as u32 <= '9' as u32) {
        if s[0] == '+' {
            assert(body[i - 1] == s[i]);
        } else {
            assert(body[i] == s[i]);
        }
    }
    if s.len() > 0 && s[0] != '+' {
        assert(body[0] == s[0]);
    }
}

/// Only the twenty-six capitals of ASCII change.
pub proof fn lemma_only_capitals_change(c: char)
    ensures
        'A' as u32 <= c as u32 <= 'Z' as u32 ==> ascii_lower(c) as u32 == c as u32 + ('a' as u32
            - 'A' as u32),
        !('A' as u32 <= c as u32 <= 'Z' as u32) ==> ascii_lower(c) == c,
{
}

} // verus!
