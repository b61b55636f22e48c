//! Sorting. Every order used by the solver is an order on integer codes, which the standard
//! library sorts.

use vstd::prelude::*;
use vstd::relations::{sorted_by, total_ordering};
use vstd::seq_lib::lemma_sorted_unique;

use crate::ieee::{lemma_double_total_order, lemma_single_total_order, Double, Single};

verus! {

/// What is sorted: a key, and the position that decides between equal keys.
type Code = (u64, u32);

/// The order of the codes: by key, then by position.
pub open spec fn code_order() -> spec_fn((u64, u32), (u64, u32)) -> bool {
    |a: (u64, u32), b: (u64, u32)| a.0 < b.0 || (a.0 == b.0 && a.1 <= b.1)
}

/// `slice::sort_unstable` on pairs of integers: the same items, in ascending order.
#[verifier::external_body]
fn sort_unstable(v: &mut Vec<Code>)
    ensures
        final(v)@.to_multiset() == old(v)@.to_multiset(),
        sorted_by(final(v)@, code_order()),
{
    v.sort_unstable()
}

/// `slice::select_nth_unstable` on pairs of integers: the same items, reordered so that none before
/// position `k` is larger than the one at `k`, and none after it is smaller.
#[verifier::external_body]
fn select_nth_unstable(v: &mut Vec<Code>, k: usize)
    requires
        k < old(v)@.len(),
    ensures
        final(v)@.to_multiset() == old(v)@.to_multiset(),
        forall|i: int| 0 <= i < k ==> code_order()(#[trigger] final(v)@[i], final(v)@[k as int]),
        forall|i: int|
            k < i < final(v)@.len() ==> code_order()(final(v)@[k as int], #[trigger] final(v)@[i]),
{
    v.select_nth_unstable(k);
}

proof fn lemma_code_order()
    ensures
        total_ordering(code_order()),
{
}

/// Applying a function to every item of two lists that hold the same items gives two lists
/// that hold the same items.
proof fn lemma_map_keeps_items<A, B>(s: Seq<A>, t: Seq<A>, f: spec_fn(A) -> B)
    requires
        s.to_multiset() == t.to_multiset(),
    ensures
        s.map_values(f).to_multiset() == t.map_values(f).to_multiset(),
    decreases s.len(),
{
    broadcast use vstd::seq_lib::group_to_multiset_ensures;

    assert(s.len() == s.to_multiset().len());
    assert(t.len() == t.to_multiset().len());
    if s.len() == 0 {
        assert(s =~= t);
    } else {
        let x = s.last();
        assert(s.contains(x));
        assert(s.to_multiset().count(x) > 0);
        assert(t.contains(x));
        let i = choose|i: int| 0 <= i < t.len() && t[i] == x;
        let (s1, t1) = (s.drop_last(), t.remove(i));
        assert(s1.push(x) =~= s);
        assert(s1.to_multiset() =~= s1.push(x).to_multiset().remove(x));
        assert(t1.to_multiset() =~= t.to_multiset().remove(x));
        lemma_map_keeps_items(s1, t1, f);
        assert(s.map_values(f) =~= s1.map_values(f).push(f(x)));
        assert(t.map_values(f).remove(i) =~= t1.map_values(f));
        assert(t.map_values(f)[i] == f(x));
        assert(t.map_values(f).contains(f(x)));
        assert(t.map_values(f).to_multiset() =~= t1.map_values(f).to_multiset().insert(f(x)));
    }
}

/// Sorting codes and decoding them sorts the items, when the codes are in the items' order.
proof fn lemma_sort_through<A>(
    s: Seq<A>,
    leq: spec_fn(A, A) -> bool,
    enc: spec_fn(A) -> Code,
    dec: spec_fn(Code) -> A,
    codes: Seq<Code>,
)
    requires
        total_ordering(leq),
        forall|a: A| #[trigger] dec(enc(a)) == a,
        forall|a: A, b: A| #[trigger] leq(a, b) <==> code_order()(enc(a), enc(b)),
        codes.to_multiset() == s.map_values(enc).to_multiset(),
        sorted_by(codes, code_order()),
    ensures
        codes.map_values(dec) == s.sort_by(leq),
{
    broadcast use vstd::seq_lib::group_to_multiset_ensures;

    let e = s.map_values(enc);
    lemma_map_keeps_items(codes, e, dec);
    assert(e.map_values(dec) =~= s);
    s.lemma_sort_by_ensures(leq);
    let t = codes.map_values(dec);
    assert forall|i: int, j: int| 0 <= i < j < t.len() implies #[trigger] leq(t[i], t[j]) by {
        let a = lemma_code_has_source(codes, s, enc, i);
        let b = lemma_code_has_source(codes, s, enc, j);
        assert(code_order()(codes[i], codes[j]));
        assert(leq(a, b));
    }
    assert(sorted_by(t, leq));
    lemma_sorted_unique(t, s.sort_by(leq), leq);
}

/// A code that belongs to a list of codes was made from one of the items.
proof fn lemma_code_has_source<A>(codes: Seq<Code>, s: Seq<A>, enc: spec_fn(A) -> Code, i: int) -> (a: A)
    requires
        codes.to_multiset() == s.map_values(enc).to_multiset(),
        0 <= i < codes.len(),
    ensures
        codes[i] == enc(a),
{
    broadcast use vstd::seq_lib::group_to_multiset_ensures;

    let e = s.map_values(enc);
    assert(codes.contains(codes[i]));
    assert(codes.to_multiset().count(codes[i]) > 0);
    assert(e.contains(codes[i]));
    let k = choose|k: int| 0 <= k < e.len() && e[k] == codes[i];
    s[k]
}

/// Largest first, in the total order of bit patterns.
pub open spec fn largest_first() -> spec_fn(Single, Single) -> bool {
    |a: Single, b: Single| a.total() >= b.total()
}

/// Code of a similarity: the larger the similarity, the smaller the code.
spec fn single_code() -> spec_fn(Single) -> Code {
    |a: Single| ((0x7fff_ffff - a.total()) as u64, 0u32)
}

spec fn single_of_code() -> spec_fn(Code) -> Single {
    |c: Code|
        Single {
            bits: if c.0 <= 0x7fff_ffff {
                (0x7fff_ffff - c.0) as u32
            } else {
                c.0 as u32
            },
        }
}

fn encode_single(a: Single) -> (r: u64)
    ensures
        r == 0x7fff_ffff - a.total(),
{
    (0x7fff_ffffi64 - a.total_key() as i64) as u64
}

fn decode_single(c: Code) -> (r: Single)
    requires
        c.0 <= 0xffff_ffff,
    ensures
        r == single_of_code()(c),
{
    Single {
        bits: if c.0 <= 0x7fff_ffff {
            (0x7fff_ffff - c.0) as u32
        } else {
            c.0 as u32
        },
    }
}

proof fn lemma_largest_first()
    ensures
        total_ordering(largest_first()),
        forall|a: Single| #[trigger] single_of_code()(single_code()(a)) == a,
        forall|a: Single, b: Single| #[trigger]
            largest_first()(a, b) <==> code_order()(single_code()(a), single_code()(b)),
{
    assert forall|a: Single, b: Single| a.total() == b.total() implies a == b by {
        lemma_single_total_order(a, b);
    }
}

/// The `count` largest similarities of a list, largest first.
pub open spec fn largest(v: Seq<Single>, count: int) -> Seq<Single> {
    v.sort_by(largest_first()).take(count)
}

/// [`largest`] holds `count` similarities of the list, largest first.
pub proof fn lemma_largest(v: Seq<Single>, count: int)
    requires
        0 <= count <= v.len(),
    ensures
        largest(v, count).len() == count,
        forall|i: int, j: int|
            0 <= i <= j < count ==> #[trigger] largest(v, count)[i].total() >= #[trigger] largest(
                v,
                count,
            )[j].total(),
        forall|i: int| 0 <= i < count ==> v.contains(#[trigger] largest(v, count)[i]),
        count == v.len() ==> largest(v, count).to_multiset() == v.to_multiset(),
{
    lemma_largest_first();
    v.lemma_sort_by_ensures(largest_first());
    let s = v.sort_by(largest_first());
    s.to_multiset_ensures();
    v.to_multiset_ensures();
    assert(s.len() == v.len());
    assert(s.take(s.len() as int) =~= s);
    assert forall|i: int, j: int| 0 <= i <= j < count implies s[i].total() >= s[j].total() by {
        if i < j {
            assert(largest_first()(s[i], s[j]));
        }
    }
    assert forall|i: int| 0 <= i < count implies v.contains(#[trigger] s[i]) by {
        assert(s.contains(s[i]));
        assert(s.to_multiset().count(s[i]) > 0);
    }
}

/// Picks the `count` largest similarities, largest first.
pub fn select_largest(v: &Vec<Single>, count: usize) -> (r: Vec<Single>)
    requires
        0 < count <= v@.len(),
    ensures
        r@ == largest(v@, count as int),
{
    let mut codes: Vec<Code> = Vec::new();
    let ghost enc = single_code();
    for i in 0..v.len()
        invariant
            enc == single_code(),
            codes@ == v@.take(i as int).map_values(enc),
    {
        codes.push((encode_single(v[i]), 0));
        assert(codes@ =~= v@.take(i + 1).map_values(enc));
    }
    assert(v@.take(v@.len() as int) =~= v@);
    let ghost all = codes@;
    let last: usize = count - 1;
    select_nth_unstable(&mut codes, last);
    let ghost cut = codes@;
    proof {
        broadcast use vstd::seq_lib::group_to_multiset_ensures;

        assert(cut.to_multiset().len() == all.to_multiset().len());
        assert(cut.len() == all.len());
    }
    codes.truncate(count);
    assert(codes@ =~= cut.take(count as int));
    sort_unstable(&mut codes);
    proof {
        lemma_head_is_sorted(v@, cut, codes@, count as int);
    }
    let mut r: Vec<Single> = Vec::new();
    let ghost dec = single_of_code();
    for i in 0..codes.len()
        invariant
            dec == single_of_code(),
            r@ == codes@.take(i as int).map_values(dec),
            forall|k: int| 0 <= k < codes@.len() ==> (#[trigger] codes@[k]).0 <= 0xffff_ffff,
    {
        r.push(decode_single(codes[i]));
        assert(r@ =~= codes@.take(i + 1).map_values(dec));
    }
    assert(codes@.take(codes@.len() as int) =~= codes@);
    r
}

/// The sorted head of a list of codes that was split at `count` decodes to the `count`
/// largest items.
proof fn lemma_head_is_sorted(v: Seq<Single>, cut: Seq<Code>, head: Seq<Code>, count: int)
    requires
        0 < count <= v.len(),
        cut.to_multiset() == v.map_values(single_code()).to_multiset(),
        forall|i: int| 0 <= i < count - 1 ==> code_order()(#[trigger] cut[i], cut[count - 1]),
        forall|i: int| count <= i < cut.len() ==> code_order()(cut[count - 1], #[trigger] cut[i]),
        head.to_multiset() == cut.take(count).to_multiset(),
        sorted_by(head, code_order()),
    ensures
        head.len() == count,
        head.map_values(single_of_code()) == largest(v, count),
        forall|k: int| 0 <= k < head.len() ==> (#[trigger] head[k]).0 <= 0xffff_ffff,
{
    broadcast use vstd::seq_lib::group_to_multiset_ensures;

    let enc = single_code();
    let dec = single_of_code();
    assert(cut.len() == cut.to_multiset().len());
    assert(v.map_values(enc).len() == v.map_values(enc).to_multiset().len());
    assert(head.len() == cut.take(count).to_multiset().len());
    let tail = cut.skip(count);
    let sorted_tail = tail.sort_by(code_order());
    lemma_code_order();
    tail.lemma_sort_by_ensures(code_order());
    let whole = head + sorted_tail;
    assert(whole.to_multiset() =~= cut.to_multiset()) by {
        vstd::seq_lib::lemma_multiset_commutative(head, sorted_tail);
        vstd::seq_lib::lemma_multiset_commutative(cut.take(count), tail);
        assert(cut.take(count) + tail =~= cut);
    }
    let pivot = cut[count - 1];
    assert forall|i: int| 0 <= i < head.len() implies code_order()(#[trigger] head[i], pivot) by {
        assert(head.to_multiset().count(head[i]) > 0) by {
            assert(head.contains(head[i]));
        }
        assert(cut.take(count).contains(head[i]));
        let k = choose|k: int| 0 <= k < count && cut.take(count)[k] == head[i];
        assert(cut[k] == head[i]);
    }
    assert forall|i: int| 0 <= i < sorted_tail.len() implies code_order()(
        pivot,
        #[trigger] sorted_tail[i],
    ) by {
        assert(sorted_tail.to_multiset().count(sorted_tail[i]) > 0) by {
            assert(sorted_tail.contains(sorted_tail[i]));
        }
        assert(tail.contains(sorted_tail[i]));
        let k = choose|k: int| 0 <= k < tail.len() && tail[k] == sorted_tail[i];
        assert(cut[k + count] == sorted_tail[i]);
    }
    assert forall|i: int, j: int| 0 <= i < j < whole.len() implies #[trigger] code_order()(
        whole[i],
        whole[j],
    ) by {
        if j < head.len() {
            assert(code_order()(head[i], head[j]));
        } else if i >= head.len() {
            assert(code_order()(sorted_tail[i - head.len()], sorted_tail[j - head.len()]));
        } else {
            assert(code_order()(head[i], pivot));
            assert(code_order()(pivot, sorted_tail[j - head.len()]));
        }
    }
    lemma_largest_first();
    lemma_sort_through(v, largest_first(), enc, dec, whole);
    assert(head.map_values(dec) =~= whole.map_values(dec).take(count));
    assert forall|k: int| 0 <= k < head.len() implies (#[trigger] head[k]).0 <= 0xffff_ffff by {
        let a = lemma_code_has_source(whole, v, enc, k);
        assert(whole[k] == head[k]);
    }
}

/// The order of positions by key, and among equal keys the earlier first.
pub open spec fn by_key(keys: Seq<u64>) -> spec_fn(u32, u32) -> bool {
    |a: u32, b: u32|
        keys[a as int] < keys[b as int] || (keys[a as int] == keys[b as int] && a <= b)
}

/// The positions `0, 1, ..` of a list of that length.
pub open spec fn positions(n: nat) -> Seq<u32> {
    Seq::new(n, |i: int| i as u32)
}

/// The positions of a list of keys, smallest key first.
pub open spec fn ranked(keys: Seq<u64>) -> Seq<u32> {
    positions(keys.len()).sort_by(by_key(keys))
}

proof fn lemma_by_key(keys: Seq<u64>)
    ensures
        total_ordering(by_key(keys)),
{
}

/// Sorts the positions of a list of keys, smallest key first.
pub fn rank_by(keys: &Vec<u64>) -> (r: Vec<u32>)
    requires
        keys@.len() <= u32::MAX,
    ensures
        r@ == ranked(keys@),
{
    let mut codes: Vec<Code> = Vec::new();
    let ghost enc = |a: u32| (keys@[a as int], a);
    for i in 0..keys.len()
        invariant
            keys@.len() <= u32::MAX,
            enc == (|a: u32| (keys@[a as int], a)),
            codes@ == positions(i as nat).map_values(enc),
    {
        codes.push((keys[i], i as u32));
        assert(codes@ =~= positions(i as nat + 1).map_values(enc));
    }
    sort_unstable(&mut codes);
    let ghost dec = |c: Code| c.1;
    let mut r: Vec<u32> = Vec::new();
    for i in 0..codes.len()
        invariant
            dec == (|c: Code| c.1),
            r@ == codes@.take(i as int).map_values(dec),
    {
        r.push(codes[i].1);
        assert(r@ =~= codes@.take(i + 1).map_values(dec));
    }
    proof {
        assert(codes@.take(codes@.len() as int) =~= codes@);
        lemma_by_key(keys@);
        lemma_sort_through(positions(keys@.len()), by_key(keys@), enc, dec, codes@);
    }
    r
}

/// [`ranked`] holds every position once, in order.
pub proof fn lemma_ranked(keys: Seq<u64>)
    requires
        keys.len() <= u32::MAX,
    ensures
        ranked(keys).len() == keys.len(),
        ranked(keys).no_duplicates(),
        forall|k: int| 0 <= k < ranked(keys).len() ==> (#[trigger] ranked(keys)[k]) < keys.len(),
        forall|x: u32| x < keys.len() ==> #[trigger] ranked(keys).contains(x),
        sorted_by(ranked(keys), by_key(keys)),
{
    lemma_by_key(keys);
    lemma_positions_sorted(keys.len(), by_key(keys));
}

/// Sorting the positions of a list keeps each of them, once.
proof fn lemma_positions_sorted(n: nat, leq: spec_fn(u32, u32) -> bool)
    requires
        n <= u32::MAX,
        total_ordering(leq),
    ensures
        ({
            let r = positions(n).sort_by(leq);
            &&& r.len() == n
            &&& r.no_duplicates()
            &&& forall|k: int| 0 <= k < r.len() ==> (#[trigger] r[k]) < n
            &&& forall|x: u32| x < n ==> #[trigger] r.contains(x)
            &&& sorted_by(r, leq)
        }),
{
    broadcast use vstd::seq_lib::group_to_multiset_ensures;

    let p = positions(n);
    let r = p.sort_by(leq);
    p.lemma_sort_by_ensures(leq);
    assert(r.to_multiset().len() == p.to_multiset().len());
    assert(p.no_duplicates());
    p.lemma_multiset_has_no_duplicates();
    r.lemma_multiset_has_no_duplicates_conv();
    assert forall|k: int| 0 <= k < r.len() implies (#[trigger] r[k]) < n by {
        assert(r.contains(r[k]));
        assert(p.contains(r[k]));
    }
    assert forall|x: u32| x < n implies #[trigger] r.contains(x) by {
        assert(p[x as int] == x);
        assert(p.contains(x));
        assert(p.to_multiset().count(x) > 0);
    }
}

/// The order of words by similarity, the most similar first and the more frequent first among
/// equals.
pub open spec fn nearer(sims: Seq<Single>) -> spec_fn(u32, u32) -> bool {
    |a: u32, b: u32|
        sims[a as int].total() > sims[b as int].total() || (sims[a as int].total()
            == sims[b as int].total() && a <= b)
}

/// Words by similarity, the most similar first.
pub open spec fn nearest_first(sims: Seq<Single>) -> Seq<u32> {
    positions(sims.len()).sort_by(nearer(sims))
}

/// Sorts words by similarity, the most similar first.
pub fn order_by_similarity(sims: &Vec<Single>) -> (r: Vec<u32>)
    requires
        sims@.len() <= u32::MAX,
    ensures
        r@ == nearest_first(sims@),
{
    let mut codes: Vec<Code> = Vec::new();
    let ghost enc = |a: u32| ((0x7fff_ffff - sims@[a as int].total()) as u64, a);
    for i in 0..sims.len()
        invariant
            sims@.len() <= u32::MAX,
            enc == (|a: u32| ((0x7fff_ffff - sims@[a as int].total()) as u64, a)),
            codes@ == positions(i as nat).map_values(enc),
    {
        codes.push((encode_single(sims[i]), i as u32));
        assert(codes@ =~= positions(i as nat + 1).map_values(enc));
    }
    sort_unstable(&mut codes);
    let ghost dec = |c: Code| c.1;
    let mut r: Vec<u32> = Vec::new();
    for i in 0..codes.len()
        invariant
            dec == (|c: Code| c.1),
            r@ == codes@.take(i as int).map_values(dec),
    {
        r.push(codes[i].1);
        assert(r@ =~= codes@.take(i + 1).map_values(dec));
    }
    proof {
        assert(codes@.take(codes@.len() as int) =~= codes@);
        lemma_sort_through(positions(sims@.len()), nearer(sims@), enc, dec, codes@);
    }
    r
}

/// [`nearest_first`] holds every word once, in order.
pub proof fn lemma_nearest_first(sims: Seq<Single>)
    requires
        sims.len() <= u32::MAX,
    ensures
        nearest_first(sims).len() == sims.len(),
        nearest_first(sims).no_duplicates(),
        forall|k: int|
            0 <= k < nearest_first(sims).len() ==> (#[trigger] nearest_first(sims)[k])
                < sims.len(),
        forall|x: u32| x < sims.len() ==> #[trigger] nearest_first(sims).contains(x),
        sorted_by(nearest_first(sims), nearer(sims)),
{
    assert(total_ordering(nearer(sims)));
    lemma_positions_sorted(sims.len(), nearer(sims));
}

/// Sorting similarities gives the similarities of the words sorted by them.
pub proof fn lemma_sorted_by_position(v: Seq<Single>)
    requires
        v.len() <= u32::MAX,
    ensures
        v.sort_by(largest_first()) == nearest_first(v).map_values(|x: u32| v[x as int]),
{
    broadcast use vstd::seq_lib::group_to_multiset_ensures;

    let f = |x: u32| v[x as int];
    let p = positions(v.len());
    let order = nearest_first(v);
    let t = order.map_values(f);
    lemma_largest_first();
    lemma_nearest_first(v);
    assert(total_ordering(nearer(v)));
    p.lemma_sort_by_ensures(nearer(v));
    lemma_map_keeps_items(p, order, f);
    assert(p.map_values(f) =~= v);
    v.lemma_sort_by_ensures(largest_first());
    assert forall|i: int, j: int| 0 <= i < j < t.len() implies #[trigger] largest_first()(
        t[i],
        t[j],
    ) by {
        assert(nearer(v)(order[i], order[j]));
    }
    lemma_sorted_unique(t, v.sort_by(largest_first()), largest_first());
}

/// Smallest first, in the total order of bit patterns.
pub open spec fn smallest_first() -> spec_fn(Double, Double) -> bool {
    |a: Double, b: Double| a.total() <= b.total()
}

spec fn double_code() -> spec_fn(Double) -> Code {
    |a: Double| ((a.total() + 0x8000_0000_0000_0000) as u64, 0u32)
}

spec fn double_of_code() -> spec_fn(Code) -> Double {
    |c: Code|
        Double {
            bits: if c.0 >= 0x8000_0000_0000_0000 {
                (c.0 - 0x8000_0000_0000_0000) as u64
            } else {
                (0xffff_ffff_ffff_ffff - c.0) as u64
            },
        }
}

/// The order of the numbers by size is a total one.
pub proof fn lemma_smallest_first()
    ensures
        total_ordering(smallest_first()),
{
    assert forall|a: Double, b: Double| a.total() == b.total() implies a == b by {
        lemma_double_total_order(a, b);
    }
}

/// Sorts numbers, smallest first.
pub fn sort_doubles(v: &Vec<Double>) -> (r: Vec<Double>)
    ensures
        r@ == v@.sort_by(smallest_first()),
{
    let mut codes: Vec<Code> = Vec::new();
    let ghost enc = double_code();
    for i in 0..v.len()
        invariant
            enc == double_code(),
            codes@ == v@.take(i as int).map_values(enc),
    {
        let b: u64 = v[i].bits;
        let key: u64 = if b >= 0x8000_0000_0000_0000 {
            0xffff_ffff_ffff_ffff - b
        } else {
            b + 0x8000_0000_0000_0000
        };
        codes.push((key, 0));
        assert(codes@ =~= v@.take(i + 1).map_values(enc));
    }
    assert(v@.take(v@.len() as int) =~= v@);
    sort_unstable(&mut codes);
    let mut r: Vec<Double> = Vec::new();
    let ghost dec = double_of_code();
    for i in 0..codes.len()
        invariant
            dec == double_of_code(),
            r@ == codes@.take(i as int).map_values(dec),
    {
        let key: u64 = codes[i].0;
        let bits: u64 = if key >= 0x8000_0000_0000_0000 {
            key - 0x8000_0000_0000_0000
        } else {
            0xffff_ffff_ffff_ffff - key
        };
        r.push(Double { bits });
        assert(r@ =~= codes@.take(i + 1).map_values(dec));
    }
    proof {
        assert(codes@.take(codes@.len() as int) =~= codes@);
        assert forall|a: Double, b: Double| a.total() == b.total() implies a == b by {
            lemma_double_total_order(a, b);
        }
        lemma_sort_through(v@, smallest_first(), enc, dec, codes@);
    }
    r
}

/// Ascending order of integers.
pub open spec fn ascending() -> spec_fn(i32, i32) -> bool {
    |a: i32, b: i32| a <= b
}

/// Sorts integers, smallest first.
pub fn sort_ints(v: &Vec<i32>) -> (r: Vec<i32>)
    ensures
        r@ == v@.sort_by(ascending()),
{
    let mut codes: Vec<Code> = Vec::new();
    let ghost enc = |a: i32| ((a + 0x8000_0000) as u64, 0u32);
    for i in 0..v.len()
        invariant
            enc == (|a: i32| ((a + 0x8000_0000) as u64, 0u32)),
            codes@ == v@.take(i as int).map_values(enc),
    {
        codes.push(((v[i] as i64 + 0x8000_0000) as u64, 0));
        assert(codes@ =~= v@.take(i + 1).map_values(enc));
    }
    assert(v@.take(v@.len() as int) =~= v@);
    sort_unstable(&mut codes);
    proof {
        assert forall|k: int| 0 <= k < codes@.len() implies (#[trigger] codes@[k]).0
            < 0x1_0000_0000 by {
            let a = lemma_code_has_source(codes@, v@, enc, k);
        }
    }
    let mut r: Vec<i32> = Vec::new();
    let ghost dec = |c: Code| (c.0 - 0x8000_0000) as i32;
    for i in 0..codes.len()
        invariant
            dec == (|c: Code| (c.0 - 0x8000_0000) as i32),
            r@ == codes@.take(i as int).map_values(dec),
            forall|k: int| 0 <= k < codes@.len() ==> (#[trigger] codes@[k]).0 < 0x1_0000_0000,
    {
        r.push((codes[i].0 as i64 - 0x8000_0000) as i32);
        assert(r@ =~= codes@.take(i + 1).map_values(dec));
    }
    proof {
        assert(codes@.take(codes@.len() as int) =~= codes@);
        lemma_sort_through(v@, ascending(), enc, dec, codes@);
    }
    r
}

/// The most similar come first, and among equals the first in the list.
pub proof fn lemma_nearest_come_first(sims: Seq<Single>, i: int, j: int)
    requires
        sims.len() <= u32::MAX,
        0 <= i < j < sims.len(),
    ensures
        ({
            let (a, b) = (nearest_first(sims)[i], nearest_first(sims)[j]);
            &&& a < sims.len() && b < sims.len() && a != b
            &&& sims[a as int].total() > sims[b as int].total() || (sims[a as int].total()
                == sims[b as int].total() && a < b)
        }),
{
    lemma_nearest_first(sims);
    let (a, b) = (nearest_first(sims)[i], nearest_first(sims)[j]);
    assert(nearer(sims)(a, b));
}

/// Sorted numbers go up.
pub proof fn lemma_sorted_numbers_go_up(v: Seq<Double>, i: int, j: int)
    requires
        0 <= i <= j < v.len(),
    ensures
        v.sort_by(smallest_first()).len() == v.len(),
        v.sort_by(smallest_first()).to_multiset() == v.to_multiset(),
        v.sort_by(smallest_first())[i].total() <= v.sort_by(smallest_first())[j].total(),
{
    lemma_smallest_first();
    v.lemma_sort_by_ensures(smallest_first());
    let s = v.sort_by(smallest_first());
    s.to_multiset_ensures();
    v.to_multiset_ensures();
    if i < j {
        assert(smallest_first()(s[i], s[j]));
    }
}

} // verus!
