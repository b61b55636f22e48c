//! The word2vec binary format: a header line with the number of words and of dimensions, then
//! for each word its name, a space and its vector as little-endian single-precision numbers.

use vstd::prelude::*;
use vstd::slice::slice_subrange;
use vstd::utf8::{decode_utf8, valid_utf8};

use crate::bytes::{from_utf8, from_utf8_lossy, lossy, read_single, single_at};
use crate::ieee::Single;
use crate::text::{char_list, is_white_space, parse_number, slice_of, texts, unsigned_number, white_space};

verus! {

/// The dimensions that a model can have.
pub const MIN_DIM: usize = 50;

pub const MAX_DIM: usize = 2000;

/// Why a model file cannot be read.
#[derive(Clone, Copy, Debug, PartialEq, Eq, Structural)]
pub enum BinError {
    /// The header is not UTF-8.
    HeaderText,
    /// The header names no number of words.
    NoCount,
    /// The number of words is none.
    BadCount,
    /// The header names no dimension.
    NoDim,
    /// The dimension is no number.
    BadDim,
    /// The dimension is out of range.
    Dimension(usize),
    /// The file ends before word number `i`.
    TruncatedFile(usize),
    /// The file ends inside the vector of word number `i`.
    TruncatedVector(usize),
}

/// The words kept of a model file, their vectors one after the other, and the dimension.
pub struct BinModel {
    pub words: Vec<String>,
    pub vecs: Vec<Single>,
    pub dim: usize,
}

/// The first position from `i` on that holds the byte `b`, the end of the bytes if there is
/// none.
pub open spec fn byte_from(bytes: Seq<u8>, b: u8, i: int) -> int
    decreases bytes.len() - i,
{
    if i >= bytes.len() || bytes[i] == b {
        i
    } else {
        byte_from(bytes, b, i + 1)
    }
}

/// Finds the first position from `i` on that holds the byte `b`.
fn find_byte(bytes: &[u8], b: u8, i: usize) -> (r: usize)
    requires
        i <= bytes@.len(),
    ensures
        r == byte_from(bytes@, b, i as int),
        i <= r <= bytes@.len(),
{
    let mut k: usize = i;
    while k < bytes.len() && bytes[k] != b
        invariant
            i <= k <= bytes@.len(),
            byte_from(bytes@, b, i as int) == byte_from(bytes@, b, k as int),
        decreases bytes@.len() - k,
    {
        k = k + 1;
    }
    k
}

/// The end of the line that starts at the beginning of the bytes, its newline included.
pub open spec fn line_end(bytes: Seq<u8>) -> int {
    let k = byte_from(bytes, 10, 0);
    if k < bytes.len() {
        k + 1
    } else {
        k
    }
}

/// The first position from `i` on that holds white space, the end of the text if there is none.
pub open spec fn gap_from(s: Seq<char>, i: int) -> int
    decreases s.len() - i,
{
    if i >= s.len() || white_space(s[i]) {
        i
    } else {
        gap_from(s, i + 1)
    }
}

/// The first position from `i` on that holds something else, the end of the text if there is
/// none.
pub open spec fn word_from(s: Seq<char>, i: int) -> int
    decreases s.len() - i,
{
    if i >= s.len() || !white_space(s[i]) {
        i
    } else {
        word_from(s, i + 1)
    }
}

/// The white-space separated word that starts at position `i` or after it, and where it ends.
pub open spec fn next_word(s: Seq<char>, i: int) -> Option<(Seq<char>, int)> {
    let a = word_from(s, i);
    let b = gap_from(s, a);
    if a >= s.len() {
        None
    } else {
        Some((s.subrange(a, b), b))
    }
}

/// Takes the next white-space separated word of a text.
fn take_word(s: &Vec<char>, i: usize) -> (r: Option<(Vec<char>, usize)>)
    requires
        i <= s@.len(),
    ensures
        match r {
            Some((w, end)) => next_word(s@, i as int) == Some((w@, end as int)) && end <= s@.len(),
            None => next_word(s@, i as int) is None,
        },
{
    let mut a: usize = i;
    while a < s.len() && is_white_space(s[a])
        invariant
            i <= a <= s@.len(),
            word_from(s@, i as int) == word_from(s@, a as int),
        decreases s@.len() - a,
    {
        a = a + 1;
    }
    if a == s.len() {
        return None;
    }
    let mut b: usize = a;
    while b < s.len() && !is_white_space(s[b])
        invariant
            a <= b <= s@.len(),
            gap_from(s@, a as int) == gap_from(s@, b as int),
        decreases s@.len() - b,
    {
        b = b + 1;
    }
    Some((slice_of(s, a, b), b))
}

/// The number that a text stands for, if it fits in a machine word.
pub open spec fn size_of_text(s: Seq<char>) -> Option<nat> {
    match unsigned_number(s) {
        Some(n) => if n <= usize::MAX {
            Some(n)
        } else {
            None
        },
        None => None,
    }
}

/// Reads a machine-word number.
fn parse_size(s: &Vec<char>) -> (r: Option<usize>)
    ensures
        match r {
            Some(n) => size_of_text(s@) == Some(n as nat),
            None => size_of_text(s@) is None,
        },
{
    match parse_number(s) {
        Some(n) => {
            if n <= usize::MAX as u64 {
                Some(n as usize)
            } else {
                None
            }
        },
        None => None,
    }
}

/// What the header line of a model file says: the number of words and the dimension.
pub open spec fn header_of(line: Seq<u8>) -> Result<(nat, nat), BinError> {
    if !valid_utf8(line) {
        Err(BinError::HeaderText)
    } else {
        let s = decode_utf8(line);
        match next_word(s, 0) {
            None => Err(BinError::NoCount),
            Some((w, i)) => match size_of_text(w) {
                None => Err(BinError::BadCount),
                Some(n) => match next_word(s, i) {
                    None => Err(BinError::NoDim),
                    Some((v, _)) => match size_of_text(v) {
                        None => Err(BinError::BadDim),
                        Some(d) => if MIN_DIM <= d <= MAX_DIM {
                            Ok((n, d))
                        } else {
                            Err(BinError::Dimension(d as usize))
                        },
                    },
                },
            },
        }
    }
}

/// Reads the header line of a model file.
pub fn parse_header(line: &[u8]) -> (r: Result<(usize, usize), BinError>)
    ensures
        match r {
            Ok((n, d)) => header_of(line@) == Ok::<(nat, nat), BinError>((n as nat, d as nat)),
            Err(e) => header_of(line@) == Err::<(nat, nat), BinError>(e),
        },
{
    let s = match from_utf8(line) {
        Some(s) => char_list(s.as_str()),
        None => {
            return Err(BinError::HeaderText);
        },
    };
    let (count, i) = match take_word(&s, 0) {
        Some((w, i)) => (w, i),
        None => {
            return Err(BinError::NoCount);
        },
    };
    let n: usize = match parse_size(&count) {
        Some(n) => n,
        None => {
            return Err(BinError::BadCount);
        },
    };
    let width = match take_word(&s, i) {
        Some((w, _)) => w,
        None => {
            return Err(BinError::NoDim);
        },
    };
    let dim: usize = match parse_size(&width) {
        Some(d) => d,
        None => {
            return Err(BinError::BadDim);
        },
    };
    if dim < MIN_DIM || dim > MAX_DIM {
        return Err(BinError::Dimension(dim));
    }
    Ok((n, dim))
}

/// The first position from `i` on, and before `end`, that holds no newline; `end` if there is
/// none.
pub open spec fn name_from(bytes: Seq<u8>, i: int, end: int) -> int
    decreases end - i,
{
    if i >= end || bytes[i] != 10 {
        i
    } else {
        name_from(bytes, i + 1, end)
    }
}

/// Is this a single word? Phrases hold an underscore and are dropped: the server strips
/// underscores anyway.
pub open spec fn is_single_word(w: Seq<char>) -> bool {
    !w.contains('_')
}

/// The vector whose bytes start at `i`.
pub open spec fn row_at(bytes: Seq<u8>, i: int, dim: nat) -> Seq<Single> {
    Seq::new(dim, |k: int| single_at(bytes, i + 4 * k))
}

/// What the records of a model file say from position `pos` on, where word number `i` of `n`
/// stands: the single words and their vectors, behind those already read.
pub open spec fn records(
    bytes: Seq<u8>,
    pos: int,
    i: nat,
    n: nat,
    dim: nat,
    words: Seq<Seq<char>>,
    vecs: Seq<Single>,
) -> Result<(Seq<Seq<char>>, Seq<Single>), BinError>
    decreases n - i,
{
    let space = byte_from(bytes, 32, pos);
    let row = if space < bytes.len() {
        space + 1
    } else {
        space
    };
    let name = lossy(bytes.subrange(name_from(bytes, pos, space), space));
    if i >= n {
        Ok((words, vecs))
    } else if pos >= bytes.len() {
        Err(BinError::TruncatedFile(i as usize))
    } else if row + 4 * dim > bytes.len() {
        Err(BinError::TruncatedVector(i as usize))
    } else if is_single_word(name) {
        records(
            bytes,
            row + 4 * dim,
            i + 1,
            n,
            dim,
            words.push(name),
            vecs + row_at(bytes, row, dim),
        )
    } else {
        records(bytes, row + 4 * dim, i + 1, n, dim, words, vecs)
    }
}

/// Does a text hold an underscore?
fn has_underscore(s: &str) -> (r: bool)
    ensures
        r == s@.contains('_'),
{
    let v = char_list(s);
    for i in 0..v.len()
        invariant
            v@ == s@,
            forall|k: int| 0 <= k < i ==> v@[k] != '_',
    {
        if v[i] == '_' {
            assert(s@[i as int] == '_');
            return true;
        }
    }
    false
}

/// Parses a model file, keeping only single words.
pub fn parse_bin(bytes: &[u8]) -> (r: Result<BinModel, BinError>)
    ensures
        match header_of(bytes@.take(line_end(bytes@))) {
            Err(e) => r == Err::<BinModel, BinError>(e),
            Ok((n, dim)) => match records(
                bytes@,
                line_end(bytes@),
                0,
                n,
                dim,
                Seq::empty(),
                Seq::empty(),
            ) {
                Err(e) => r == Err::<BinModel, BinError>(e),
                Ok((words, vecs)) => r matches Ok(m) && texts(m.words@) == words && m.vecs@ == vecs
                    && m.dim == dim && m.vecs@.len() == m.words@.len() * m.dim,
            },
        },
{
    let newline: usize = find_byte(bytes, 10, 0);
    let start: usize = if newline < bytes.len() {
        newline + 1
    } else {
        newline
    };
    let line = slice_subrange(bytes, 0, start);
    assert(line@ =~= bytes@.take(line_end(bytes@)));
    let (n, dim) = match parse_header(line) {
        Ok((n, dim)) => (n, dim),
        Err(e) => {
            return Err(e);
        },
    };
    let mut pos: usize = start;
    let mut words: Vec<String> = Vec::new();
    let mut vecs: Vec<Single> = Vec::new();
    let ghost all = records(
        bytes@,
        start as int,
        0,
        n as nat,
        dim as nat,
        Seq::empty(),
        Seq::empty(),
    );
    assert(texts(words@) =~= Seq::empty());
    for i in 0..n
        invariant
            header_of(bytes@.take(line_end(bytes@))) == Ok::<(nat, nat), BinError>(
                (n as nat, dim as nat),
            ),
            all == records(
                bytes@,
                line_end(bytes@),
                0,
                n as nat,
                dim as nat,
                Seq::empty(),
                Seq::empty(),
            ),
            MIN_DIM <= dim <= MAX_DIM,
            pos <= bytes@.len(),
            words@.len() <= i,
            vecs@.len() == words@.len() * dim,
            all == records(
                bytes@,
                pos as int,
                i as nat,
                n as nat,
                dim as nat,
                texts(words@),
                vecs@,
            ),
    {
        if pos >= bytes.len() {
            return Err(BinError::TruncatedFile(i));
        }
        let space: usize = find_byte(bytes, 32, pos);
        let row: usize = if space < bytes.len() {
            space + 1
        } else {
            space
        };
        let mut name_start: usize = pos;
        while name_start < space && bytes[name_start] == 10
            invariant
                pos <= name_start <= space <= bytes@.len(),
                name_from(bytes@, pos as int, space as int) == name_from(
                    bytes@,
                    name_start as int,
                    space as int,
                ),
            decreases space - name_start,
        {
            name_start = name_start + 1;
        }
        if bytes.len() - row < 4 * dim {
            return Err(BinError::TruncatedVector(i));
        }
        let name = slice_subrange(bytes, name_start, space);
        let word = from_utf8_lossy(name);
        if !has_underscore(word.as_str()) {
            let ghost (old_words, old_vecs) = (texts(words@), vecs@);
            let ghost count = words@.len() as int;
            words.push(word);
            assert(texts(words@) =~= old_words.push(word@));
            for k in 0..dim
                invariant
                    row + 4 * dim <= bytes.len(),
                    dim <= MAX_DIM,
                    vecs@ == old_vecs + row_at(bytes@, row as int, dim as nat).take(k as int),
            {
                vecs.push(read_single(bytes, row + 4 * k));
                assert(vecs@ =~= old_vecs + row_at(bytes@, row as int, dim as nat).take(k + 1));
            }
            assert(row_at(bytes@, row as int, dim as nat).take(dim as int) =~= row_at(
                bytes@,
                row as int,
                dim as nat,
            ));
            assert((count + 1) * dim == count * dim + dim) by (nonlinear_arith);
        }
        pos = row + 4 * dim;
    }
    Ok(BinModel { words, vecs, dim })
}

/// The header ends with the first newline, which belongs to it; without one it is the whole file.
pub proof fn lemma_header_is_the_first_line(bytes: Seq<u8>, k: int)
    requires
        0 <= k <= bytes.len(),
        forall|j: int| 0 <= j < k ==> #[trigger] bytes[j] != 10,
    ensures
        k < bytes.len() && bytes[k] == 10 ==> line_end(bytes) == k + 1,
        k == bytes.len() ==> line_end(bytes) == k,
{
    lemma_byte_is_found(bytes, 10, 0, k);
}

proof fn lemma_byte_is_found(bytes: Seq<u8>, b: u8, i: int, k: int)
    requires
        0 <= i <= k <= bytes.len(),
        forall|j: int| i <= j < k ==> #[trigger] bytes[j] != b,
    ensures
        k == bytes.len() || bytes[k] == b ==> byte_from(bytes, b, i) == k,
    decreases k - i,
{
    if i < k {
        lemma_byte_is_found(bytes, b, i + 1, k);
    }
}

/// A header holds the number of words and the dimension, with white space between them. The
/// dimension lies between 50 and 2000.
pub proof fn lemma_header_holds_two_numbers(
    line: Seq<u8>,
    count: Seq<char>,
    gap: char,
    dim: Seq<char>,
    tail: Seq<char>,
    n: nat,
    d: nat,
)
    requires
        valid_utf8(line),
        decode_utf8(line) == count + seq![gap] + dim + tail,
        white_space(gap),
        tail.len() > 0 ==> white_space(tail[0]),
        forall|i: int| 0 <= i < count.len() ==> !white_space(#[trigger] count[i]),
        forall|i: int| 0 <= i < dim.len() ==> !white_space(#[trigger] dim[i]),
        unsigned_number(count) == Some(n),
        unsigned_number(dim) == Some(d),
        n <= usize::MAX,
        d <= usize::MAX,
    ensures
        50 <= d <= 2000 ==> header_of(line) == Ok::<(nat, nat), BinError>((n, d)),
        d < 50 || d > 2000 ==> header_of(line) == Err::<(nat, nat), BinError>(
            BinError::Dimension(d as usize),
        ),
{
    let s = decode_utf8(line);
    let (a, b) = (count.len() as int, count.len() as int + 1 + dim.len());
    assert(count.len() > 0 && dim.len() > 0);
    assert forall|i: int| 0 <= i < a implies !white_space(#[trigger] s[i]) by {
        assert(s[i] == count[i]);
    }
    assert(s[a] == gap);
    assert forall|i: int| a + 1 <= i < b implies !white_space(#[trigger] s[i]) by {
        assert(s[i] == dim[i - a - 1]);
    }
    if b < s.len() {
        assert(s[b] == tail[0]);
    }
    lemma_word_ends(s, 0, a);
    assert(s.subrange(0, a) =~= count);
    assert(word_from(s, 0) == 0);
    assert(next_word(s, 0) == Some((count, a)));
    lemma_word_ends(s, a + 1, b);
    assert(word_from(s, a + 1) == a + 1);
    assert(word_from(s, a) == a + 1);
    assert(s.subrange(a + 1, b) =~= dim);
    assert(next_word(s, a) == Some((dim, b)));
}

proof fn lemma_word_ends(s: Seq<char>, i: int, k: int)
    requires
        0 <= i <= k <= s.len(),
        forall|j: int| i <= j < k ==> !white_space(#[trigger] s[j]),
        k < s.len() ==> white_space(s[k]),
    ensures
        gap_from(s, i) == k,
    decreases k - i,
{
    if i < k {
        lemma_word_ends(s, i + 1, k);
    }
}

/// A record is its name, after any newlines, then a space and its numbers. It is kept unless
/// there is an underscore in its name: such a name is no single word.
pub proof fn lemma_record_is_read(
    bytes: Seq<u8>,
    pos: int,
    start: int,
    space: int,
    i: nat,
    n: nat,
    dim: nat,
    words: Seq<Seq<char>>,
    vecs: Seq<Single>,
)
    requires
        0 <= pos <= start <= space,
        space + 1 + 4 * dim <= bytes.len(),
        forall|j: int| pos <= j < start ==> #[trigger] bytes[j] == 10,
        start < space ==> bytes[start] != 10,
        forall|j: int| pos <= j < space ==> #[trigger] bytes[j] != 32,
        bytes[space] == 32,
        i < n,
    ensures
        ({
            let name = lossy(bytes.subrange(start, space));
            let next = space + 1 + 4 * dim;
            let row = Seq::new(
                dim,
                |k: int|
                    {
                        let at = space + 1 + 4 * k;
                        Single {
                            bits: (bytes[at] + 0x100 * bytes[at + 1] + 0x1_0000 * bytes[at + 2]
                                + 0x100_0000 * bytes[at + 3]) as u32,
                        }
                    },
            );
            records(bytes, pos, i, n, dim, words, vecs) == if name.contains('_') {
                records(bytes, next, i + 1, n, dim, words, vecs)
            } else {
                records(bytes, next, i + 1, n, dim, words.push(name), vecs + row)
            }
        }),
{
    lemma_byte_is_found(bytes, 32, pos, space);
    lemma_name_starts(bytes, pos, start, space);
    let row = Seq::new(
        dim,
        |k: int|
            {
                let at = space + 1 + 4 * k;
                Single {
                    bits: (bytes[at] + 0x100 * bytes[at + 1] + 0x1_0000 * bytes[at + 2]
                        + 0x100_0000 * bytes[at + 3]) as u32,
                }
            },
    );
    assert(row_at(bytes, space + 1, dim) =~= row);
}

proof fn lemma_name_starts(bytes: Seq<u8>, i: int, start: int, end: int)
    requires
        i <= start <= end,
        forall|j: int| i <= j < start ==> #[trigger] bytes[j] == 10,
        start < end ==> bytes[start] != 10,
    ensures
        name_from(bytes, i, end) == start,
    decreases start - i,
{
    if i < start {
        assert(bytes[i] == 10);
        lemma_name_starts(bytes, i + 1, start, end);
    }
}

/// A file that ends too early is refused, and the record at which it ends is named.
pub proof fn lemma_short_files_are_refused(
    bytes: Seq<u8>,
    pos: int,
    i: nat,
    n: nat,
    dim: nat,
    words: Seq<Seq<char>>,
    vecs: Seq<Single>,
)
    requires
        0 <= pos,
        i < n,
        i <= usize::MAX,
        bytes.len() < pos + 4 * dim,
        dim > 0,
    ensures
        records(bytes, pos, i, n, dim, words, vecs) == Err::<
            (Seq<Seq<char>>, Seq<Single>),
            BinError,
        >(
            if pos >= bytes.len() {
                BinError::TruncatedFile(i as usize)
            } else {
                BinError::TruncatedVector(i as usize)
            },
        ),
{
    lemma_byte_is_ahead(bytes, 32, pos);
}

proof fn lemma_byte_is_ahead(bytes: Seq<u8>, b: u8, i: int)
    ensures
        byte_from(bytes, b, i) >= i,
    decreases bytes.len() - i,
{
    if i < bytes.len() && bytes[i] != b {
        lemma_byte_is_ahead(bytes, b, i + 1);
    }
}

} // verus!
