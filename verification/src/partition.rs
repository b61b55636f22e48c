//! How a guess splits the candidates: the partition that its possible answers induce, and the
//! information that partition is worth.

use vstd::prelude::*;

use crate::ieee::Double;
use crate::order::{ascending, sort_ints};

verus! {

/// One billionth as a bit pattern: entropies closer than that are equal.
pub const CLOSE_ENTROPY: u64 = 0x3e11_2e0b_e826_d695;

/// An entropy in bits, and what another must exceed to be the larger: one billionth more.
#[derive(Clone, Copy, Debug)]
pub struct Entropy {
    pub bits: Double,
    pub bar: Double,
}

/// What a guess is worth: its entropy, and how many answers it can get.
#[derive(Clone, Copy, Debug)]
pub struct Weight {
    pub entropy: Entropy,
    pub buckets: usize,
}

/// Where a guess stands among the neighbours of a target: its rank, and the geometric slot
/// that the rank falls in.
#[derive(Clone, Copy, Debug)]
pub struct RankSlot {
    pub rank: Double,
    pub slot: i32,
}

/// The lengths of the runs of equal items.
pub open spec fn run_lengths(s: Seq<i32>) -> Seq<usize>
    decreases s.len(),
{
    if s.len() == 0 {
        Seq::empty()
    } else {
        let runs = run_lengths(s.drop_last());
        if s.len() > 1 && s[s.len() - 2] == s.last() {
            runs.drop_last().push((runs.last() + 1) as usize)
        } else {
            runs.push(1)
        }
    }
}

/// The first item of each run.
pub open spec fn run_keys(s: Seq<i32>) -> Seq<i32>
    decreases s.len(),
{
    if s.len() == 0 {
        Seq::empty()
    } else if s.len() > 1 && s[s.len() - 2] == s.last() {
        run_keys(s.drop_last())
    } else {
        run_keys(s.drop_last()).push(s.last())
    }
}

/// The sizes of the buckets that a list of keys falls into, in ascending order of the keys.
pub open spec fn bucket_sizes(keys: Seq<i32>) -> Seq<usize> {
    run_lengths(keys.sort_by(ascending()))
}

/// Runs and their keys go together, and the last run is the one of the last item.
proof fn lemma_runs(s: Seq<i32>)
    ensures
        run_lengths(s).len() == run_keys(s).len(),
        s.len() > 0 ==> run_keys(s).len() > 0 && run_keys(s).last() == s.last(),
        run_keys(s).len() <= s.len(),
    decreases s.len(),
{
    if s.len() > 0 {
        lemma_runs(s.drop_last());
        if s.len() > 1 {
            assert(s.drop_last().last() == s[s.len() - 2]);
        }
    }
}

/// Sums a list of sizes.
pub open spec fn total(sizes: Seq<usize>) -> nat
    decreases sizes.len(),
{
    if sizes.len() == 0 {
        0
    } else {
        total(sizes.drop_last()) + sizes.last() as nat
    }
}

/// The runs cover the list, none is empty, and none overflows.
proof fn lemma_runs_cover(s: Seq<i32>)
    requires
        s.len() <= usize::MAX,
    ensures
        total(run_lengths(s)) == s.len(),
        forall|i: int| 0 <= i < run_lengths(s).len() ==> 0 < #[trigger] run_lengths(s)[i] <= s.len(),
    decreases s.len(),
{
    lemma_runs(s);
    if s.len() > 0 {
        let head = s.drop_last();
        lemma_runs_cover(head);
        lemma_runs(head);
        let (a, b) = (run_lengths(head), run_lengths(s));
        if s.len() > 1 && s[s.len() - 2] == s.last() {
            assert(b.drop_last() =~= a.drop_last());
            assert(total(a) == total(a.drop_last()) + a.last() as nat);
            assert(a[a.len() - 1] <= head.len());
            assert forall|i: int| 0 <= i < b.len() implies 0 < #[trigger] b[i] <= s.len() by {
                if i < b.len() - 1 {
                    assert(b[i] == a[i]);
                }
            }
        } else {
            assert(b.drop_last() =~= a);
            assert forall|i: int| 0 <= i < b.len() implies 0 < #[trigger] b[i] <= s.len() by {
                if i < b.len() - 1 {
                    assert(b[i] == a[i]);
                }
            }
        }
    }
}

/// In a sorted list the keys of the runs ascend, every item is one of them, and a run is as
/// long as its key occurs often.
proof fn lemma_runs_of_sorted(s: Seq<i32>)
    requires
        s.len() <= usize::MAX,
        vstd::relations::sorted_by(s, ascending()),
    ensures
        forall|i: int, j: int|
            0 <= i < j < run_keys(s).len() ==> #[trigger] run_keys(s)[i] < #[trigger] run_keys(s)[j],
        forall|x: i32| #[trigger] run_keys(s).contains(x) <==> s.contains(x),
        forall|i: int|
            0 <= i < run_keys(s).len() ==> #[trigger] run_lengths(s)[i] == s.to_multiset().count(
                run_keys(s)[i],
            ),
    decreases s.len(),
{
    broadcast use vstd::seq_lib::group_to_multiset_ensures;
    broadcast use vstd::multiset::group_multiset_axioms;

    lemma_runs(s);
    if s.len() > 0 {
        let head = s.drop_last();
        let x = s.last();
        assert forall|i: int, j: int| 0 <= i < j < head.len() implies #[trigger] ascending()(
            head[i],
            head[j],
        ) by {
            assert(ascending()(s[i], s[j]));
        }
        lemma_runs_of_sorted(head);
        lemma_runs(head);
        lemma_runs_cover(head);
        assert(head.push(x) =~= s);
        assert(s.to_multiset() =~= head.to_multiset().insert(x));
        let (ks, hs) = (run_keys(s), run_keys(head));
        if head.len() > 0 {
            assert forall|i: int| 0 <= i < head.len() implies head[i] <= x by {
                assert(ascending()(s[i], s[s.len() - 1]));
            }
        }
        assert forall|i: int| 0 <= i < hs.len() implies #[trigger] hs[i] <= head.last() by {
            assert(hs.contains(hs[i]));
            if i < hs.len() - 1 {
                assert(hs[i] < hs[hs.len() - 1]);
            }
        }
        assert forall|y: i32| #[trigger] ks.contains(y) <==> s.contains(y) by {
            if ks.contains(y) {
                if hs.contains(y) {
                    assert(head.contains(y));
                    let i = choose|i: int| 0 <= i < head.len() && head[i] == y;
                    assert(s[i] == y);
                } else {
                    let i = choose|i: int| 0 <= i < ks.len() && ks[i] == y;
                    if i < hs.len() {
                        assert(hs[i] == y);
                    }
                    assert(y == x);
                    assert(s[s.len() - 1] == y);
                }
            }
            if s.contains(y) {
                let i = choose|i: int| 0 <= i < s.len() && s[i] == y;
                if i < head.len() {
                    assert(head[i] == y);
                    assert(hs.contains(y));
                    let k = choose|k: int| 0 <= k < hs.len() && hs[k] == y;
                    assert(ks[k] == y);
                } else {
                    assert(ks[ks.len() - 1] == y);
                }
            }
        }
        if s.len() > 1 && s[s.len() - 2] == x {
            assert(ks == hs);
            assert forall|i: int| 0 <= i < ks.len() implies #[trigger] run_lengths(s)[i]
                == s.to_multiset().count(ks[i]) by {
                assert(run_lengths(head)[i] == head.to_multiset().count(hs[i]));
                if i < ks.len() - 1 {
                    assert(hs[i] < hs[hs.len() - 1]);
                    assert(run_lengths(s)[i] == run_lengths(head)[i]);
                } else {
                    assert(0 < run_lengths(head)[i] <= head.len());
                }
            }
        } else {
            assert(!head.contains(x)) by {
                if head.contains(x) {
                    let i = choose|i: int| 0 <= i < head.len() && head[i] == x;
                    assert(ascending()(s[i], s[s.len() - 2]) || i == s.len() - 2);
                    assert(ascending()(s[s.len() - 2], s[s.len() - 1]));
                }
            }
            assert(!hs.contains(x));
            assert forall|i: int, j: int| 0 <= i < j < ks.len() implies #[trigger] ks[i]
                < #[trigger] ks[j] by {
                if j < hs.len() {
                    assert(hs[i] < hs[j]);
                } else {
                    assert(hs[i] <= head.last());
                    assert(hs.contains(hs[i]));
                }
            }
            assert forall|i: int| 0 <= i < ks.len() implies #[trigger] run_lengths(s)[i]
                == s.to_multiset().count(ks[i]) by {
                if i < hs.len() {
                    assert(run_lengths(s)[i] == run_lengths(head)[i]);
                    assert(run_lengths(head)[i] == head.to_multiset().count(hs[i]));
                    assert(hs.contains(hs[i]));
                } else {
                    assert(head.to_multiset().count(x) == 0);
                }
            }
        }
    }
}

/// The buckets are a partition: together they are as large as the list of keys; there is one
/// for each key that occurs, in ascending order; and it is as large as the key occurs often.
pub proof fn lemma_buckets_partition(keys: Seq<i32>) -> (ks: Seq<i32>)
    requires
        keys.len() <= usize::MAX,
    ensures
        total(bucket_sizes(keys)) == keys.len(),
        ks.len() == bucket_sizes(keys).len(),
        forall|i: int, j: int| 0 <= i < j < ks.len() ==> #[trigger] ks[i] < #[trigger] ks[j],
        forall|x: i32| #[trigger] ks.contains(x) <==> keys.contains(x),
        forall|i: int|
            0 <= i < ks.len() ==> #[trigger] bucket_sizes(keys)[i] == keys.to_multiset().count(
                ks[i],
            ),
{
    broadcast use vstd::seq_lib::group_to_multiset_ensures;

    let s = keys.sort_by(ascending());
    keys.lemma_sort_by_ensures(ascending());
    assert(s.len() == s.to_multiset().len());
    assert(keys.len() == keys.to_multiset().len());
    lemma_runs(s);
    lemma_runs_cover(s);
    lemma_runs_of_sorted(s);
    assert forall|x: i32| s.contains(x) <==> keys.contains(x) by {
        assert(s.to_multiset().count(x) == keys.to_multiset().count(x));
    }
    run_keys(s)
}

/// Counts the buckets that a list of keys falls into.
pub fn count_buckets(keys: &Vec<i32>) -> (r: Vec<usize>)
    ensures
        r@ == bucket_sizes(keys@),
{
    let sorted = sort_ints(keys);
    proof {
        broadcast use vstd::seq_lib::group_to_multiset_ensures;

        keys@.lemma_sort_by_ensures(ascending());
        assert(sorted@.take(0) =~= Seq::empty());
    }
    let mut r: Vec<usize> = Vec::new();
    for i in 0..sorted.len()
        invariant
            r@ == run_lengths(sorted@.take(i as int)),
            r.len() <= i,
    {
        let ghost (head, next) = (sorted@.take(i as int), sorted@.take(i + 1));
        proof {
            assert(next.drop_last() =~= head);
            lemma_runs(head);
            lemma_runs_cover(head);
        }
        if i > 0 && sorted[i - 1] == sorted[i] {
            let last: usize = r.len() - 1;
            assert(r@[last as int] <= i);
            let ghost was = r@;
            r.set(last, r[last] + 1);
            assert(r@ =~= was.drop_last().push((was.last() + 1) as usize));
        } else {
            r.push(1);
        }
    }
    assert(sorted@.take(sorted@.len() as int) =~= sorted@);
    r
}

/// `bits` gives the answer `e` for buckets of these sizes.
pub open spec fn answers<H: Fn(&Vec<usize>) -> Entropy>(bits: H, sizes: Seq<usize>, e: Entropy) -> bool {
    exists|v: Vec<usize>| v@ == sizes && #[trigger] call_ensures(bits, (&v,), e)
}

/// Entropy of the partition that a list of keys makes of its targets, and its bucket count.
/// `bits` computes the Shannon entropy from the bucket sizes.
pub open spec fn weighs<H: Fn(&Vec<usize>) -> Entropy>(bits: H, keys: Seq<i32>, w: Weight) -> bool {
    w.buckets == bucket_sizes(keys).len() && answers(bits, bucket_sizes(keys), w.entropy)
}

/// Shannon entropy (bits) and bucket count of the partition given by its keys.
fn entropy_of_keys<H: Fn(&Vec<usize>) -> Entropy>(keys: &Vec<i32>, bits: &H) -> (w: Weight)
    requires
        forall|v: &Vec<usize>| call_requires(*bits, (v,)),
    ensures
        weighs(*bits, keys@, w),
{
    let sizes = count_buckets(keys);
    let entropy = bits(&sizes);
    Weight { entropy, buckets: sizes.len() }
}

/// `slot` answers for the probe `p` and every target, `keys` being the answers.
pub open spec fn slots<S: Fn(u32, u32) -> i32>(slot: S, p: u32, targets: Seq<u32>, keys: Seq<i32>) -> bool {
    keys.len() == targets.len() && forall|i: int|
        0 <= i < targets.len() ==> call_ensures(slot, (p, targets[i]), #[trigger] keys[i])
}

/// Entropy (bits) of the rounded-cosine partition induced by probe `p` over `targets`. `slot`
/// gives the rounded cosine of the probe and a target, in rounding steps.
pub fn partition_entropy<S: Fn(u32, u32) -> i32, H: Fn(&Vec<usize>) -> Entropy>(
    p: u32,
    targets: &Vec<u32>,
    slot: &S,
    bits: &H,
) -> (w: Weight)
    requires
        forall|i: int| 0 <= i < targets@.len() ==> call_requires(*slot, (p, #[trigger] targets@[i])),
        forall|v: &Vec<usize>| call_requires(*bits, (v,)),
    ensures
        exists|keys: Seq<i32>| #[trigger]
            slots(*slot, p, targets@, keys) && weighs(*bits, keys, w),
{
    let mut keys: Vec<i32> = Vec::new();
    for i in 0..targets.len()
        invariant
            forall|i: int|
                0 <= i < targets@.len() ==> call_requires(*slot, (p, #[trigger] targets@[i])),
            slots(*slot, p, targets@.take(i as int), keys@),
    {
        assert(call_requires(*slot, (p, targets@[i as int])));
        let ghost before = keys@;
        keys.push(slot(p, targets[i]));
        assert forall|k: int| 0 <= k < i + 1 implies call_ensures(
            *slot,
            (p, targets@.take(i + 1)[k]),
            #[trigger] keys@[k],
        ) by {
            if k < i {
                assert(call_ensures(*slot, (p, targets@.take(i as int)[k]), before[k]));
            }
        }
    }
    assert(targets@.take(targets@.len() as int) =~= targets@);
    entropy_of_keys(&keys, bits)
}

/// The bucket of a target in the rank partition: the target that is the probe gets its own
/// (the game ends there), every target whose answer would be floored falls in one (they are
/// indistinguishable), and the others are told apart by their slots.
pub open spec fn rank_key(p: u32, t: u32, place: Option<RankSlot>, far: Double) -> i32 {
    if t == p {
        i32::MIN
    } else if place is Some && place->0.rank.below(far) {
        place->0.slot
    } else {
        i32::MAX
    }
}

/// `key` is the bucket of target `t`, `place` answering where it is not the probe itself.
pub open spec fn rank_slot<R: Fn(u32, u32) -> Option<RankSlot>>(
    place: R,
    p: u32,
    t: u32,
    far: Double,
    key: i32,
) -> bool {
    if t == p {
        key == i32::MIN
    } else {
        exists|r: Option<RankSlot>| #[trigger]
            call_ensures(place, (p, t), r) && key == rank_key(p, t, r, far)
    }
}

/// The keys of the rank partition.
pub open spec fn rank_slots<R: Fn(u32, u32) -> Option<RankSlot>>(
    place: R,
    p: u32,
    targets: Seq<u32>,
    far: Double,
    keys: Seq<i32>,
) -> bool {
    keys.len() == targets.len() && forall|i: int|
        0 <= i < targets.len() ==> rank_slot(place, p, targets[i], far, #[trigger] keys[i])
}

/// Entropy (bits) of the rank partition induced by probe `p` over `targets`.
///
/// Buckets are geometric in rank, one window wide: that is the resolution a rank constraint
/// actually has, so counting finer would overstate the information.
pub fn rank_partition_entropy<R: Fn(u32, u32) -> Option<RankSlot>, H: Fn(&Vec<usize>) -> Entropy>(
    p: u32,
    targets: &Vec<u32>,
    far: Double,
    place: &R,
    bits: &H,
) -> (w: Weight)
    requires
        forall|i: int|
            0 <= i < targets@.len() ==> call_requires(*place, (p, #[trigger] targets@[i])),
        forall|v: &Vec<usize>| call_requires(*bits, (v,)),
    ensures
        exists|keys: Seq<i32>| #[trigger]
            rank_slots(*place, p, targets@, far, keys) && weighs(*bits, keys, w),
{
    let mut keys: Vec<i32> = Vec::new();
    for i in 0..targets.len()
        invariant
            forall|i: int|
                0 <= i < targets@.len() ==> call_requires(*place, (p, #[trigger] targets@[i])),
            rank_slots(*place, p, targets@.take(i as int), far, keys@),
    {
        assert(call_requires(*place, (p, targets@[i as int])));
        let ghost before = keys@;
        let t: u32 = targets[i];
        if t == p {
            keys.push(i32::MIN);
        } else {
            match place(p, t) {
                Some(r) => {
                    if r.rank.lt(far) {
                        keys.push(r.slot);
                    } else {
                        keys.push(i32::MAX);
                    }
                },
                None => {
                    keys.push(i32::MAX);
                },
            }
        }
        let ghost next = targets@.take(i + 1);
        assert(rank_slot(*place, p, t, far, keys@[i as int]));
        assert forall|k: int| 0 <= k < next.len() implies rank_slot(
            *place,
            p,
            next[k],
            far,
            #[trigger] keys@[k],
        ) by {
            if k < i {
                assert(rank_slot(*place, p, targets@.take(i as int)[k], far, before[k]));
            }
        }
    }
    assert(targets@.take(targets@.len() as int) =~= targets@);
    entropy_of_keys(&keys, bits)
}

/// The buckets of a list of keys: one for each key that occurs, as large as the key occurs often.
/// The information of the list is what `bits` makes of their sizes.
pub open spec fn counts<H: Fn(&Vec<usize>) -> Entropy>(bits: H, keys: Seq<i32>, w: Weight) -> bool {
    &&& w.buckets == keys.to_set().len()
    &&& exists|v: Vec<usize>, ks: Seq<i32>|
        {
            &&& #[trigger] ks.len() == #[trigger] v@.len()
            &&& call_ensures(bits, (&v,), w.entropy)
            &&& ks.no_duplicates()
            &&& ks.to_set() == keys.to_set()
            &&& forall|i: int|
                0 <= i < ks.len() ==> v@[i] == keys.to_multiset().count(#[trigger] ks[i])
        }
}

proof fn lemma_weight_counts<H: Fn(&Vec<usize>) -> Entropy>(bits: H, keys: Seq<i32>, w: Weight)
    requires
        keys.len() <= usize::MAX,
        weighs(bits, keys, w),
    ensures
        counts(bits, keys, w),
{
    let ks = lemma_buckets_partition(keys);
    ks.unique_seq_to_set();
    assert forall|x: i32| ks.to_set().contains(x) == keys.to_set().contains(x) by {
        assert(ks.contains(x) <==> keys.contains(x));
    }
    assert(ks.to_set() =~= keys.to_set());
    let v = choose|v: Vec<usize>|
        v@ == bucket_sizes(keys) && #[trigger] call_ensures(bits, (&v,), w.entropy);
    assert(ks.len() == v@.len());
}

/// Two targets fall in the same bucket of a cosine game exactly when the rounded score of the
/// probe is the same for both, whatever its sign.
pub proof fn lemma_same_score_same_bucket<S: Fn(u32, u32) -> i32>(
    slot: S,
    p: u32,
    targets: Seq<u32>,
    keys: Seq<i32>,
    i: int,
    j: int,
    x: i32,
    y: i32,
)
    requires
        slots(slot, p, targets, keys),
        forall|t: u32, x: i32, y: i32| #[trigger]
            call_ensures(slot, (p, t), x) && #[trigger] call_ensures(slot, (p, t), y) ==> x == y,
        0 <= i < targets.len(),
        0 <= j < targets.len(),
        call_ensures(slot, (p, targets[i]), x),
        call_ensures(slot, (p, targets[j]), y),
    ensures
        keys.len() == targets.len(),
        keys[i] == keys[j] <==> x == y,
{
    assert(call_ensures(slot, (p, targets[i]), keys[i]));
    assert(call_ensures(slot, (p, targets[j]), keys[j]));
}

/// What a guess is worth in a cosine game: one bucket for each rounded score that the targets
/// can answer with, as large as that score occurs often.
pub proof fn lemma_cosine_weight_counts_the_scores<
    S: Fn(u32, u32) -> i32,
    H: Fn(&Vec<usize>) -> Entropy,
>(slot: S, bits: H, p: u32, targets: Seq<u32>, score: spec_fn(u32) -> i32, keys: Seq<i32>, w: Weight)
    requires
        targets.len() <= usize::MAX,
        forall|t: u32, x: i32| #[trigger] call_ensures(slot, (p, t), x) ==> x == score(t),
        slots(slot, p, targets, keys),
        weighs(bits, keys, w),
    ensures
        counts(bits, targets.map_values(score), w),
{
    assert forall|i: int| 0 <= i < targets.len() implies keys[i] == score(targets[i]) by {
        assert(call_ensures(slot, (p, targets[i]), keys[i]));
    }
    assert(keys =~= targets.map_values(score));
    lemma_weight_counts(bits, keys, w);
}

/// Keys that tell the answers of a rank game apart: two targets share one exactly when both are
/// the probe, when both answer from afar, or when both answer from the same slot.
pub open spec fn told_apart(
    p: u32,
    targets: Seq<u32>,
    at: spec_fn(u32) -> Option<RankSlot>,
    far: Double,
    keys: Seq<i32>,
) -> bool {
    let near = |t: u32| at(t) is Some && at(t)->0.rank.below(far);
    &&& keys.len() == targets.len()
    &&& forall|i: int, j: int|
        #![trigger keys[i], keys[j]]
        0 <= i < targets.len() && 0 <= j < targets.len() ==> (keys[i] == keys[j] <==> {
            let (t, u) = (targets[i], targets[j]);
            ||| t == p && u == p
            ||| t != p && u != p && !near(t) && !near(u)
            ||| t != p && u != p && near(t) && near(u) && at(t)->0.slot == at(u)->0.slot
        })
}

/// What a guess is worth in a rank game: a bucket of its own for the probe, one for all the
/// targets that would answer from afar, and one for each slot of the others. The slots at the two
/// ends of the integers, which no rank falls in, are left out.
pub proof fn lemma_rank_weight_counts_the_slots<
    R: Fn(u32, u32) -> Option<RankSlot>,
    H: Fn(&Vec<usize>) -> Entropy,
>(
    place: R,
    bits: H,
    p: u32,
    targets: Seq<u32>,
    at: spec_fn(u32) -> Option<RankSlot>,
    far: Double,
    keys: Seq<i32>,
    w: Weight,
)
    requires
        targets.len() <= usize::MAX,
        forall|t: u32, x: Option<RankSlot>| #[trigger]
            call_ensures(place, (p, t), x) ==> x == at(t),
        forall|t: u32|
            (#[trigger] at(t)) matches Some(s) ==> i32::MIN < s.slot < i32::MAX,
        rank_slots(place, p, targets, far, keys),
        weighs(bits, keys, w),
    ensures
        told_apart(p, targets, at, far, keys),
        counts(bits, keys, w),
{
    assert forall|i: int| 0 <= i < targets.len() implies #[trigger] keys[i] == (if targets[i] == p {
        i32::MIN
    } else if at(targets[i]) is Some && at(targets[i])->0.rank.below(far) {
        at(targets[i])->0.slot
    } else {
        i32::MAX
    }) by {
        assert(rank_slot(place, p, targets[i], far, keys[i]));
    }
    lemma_weight_counts(bits, keys, w);
}

/// Two targets that are not the probe, and whose ranks both lie under the floor, get the same key
/// exactly when their slots are equal; the probe and the far targets get keys of their own.
pub proof fn lemma_rank_key_tells_the_slot(
    p: u32,
    t: u32,
    u: u32,
    a: Option<RankSlot>,
    b: Option<RankSlot>,
    far: Double,
)
    requires
        t != p,
        u != p,
        a matches Some(s) ==> i32::MIN < s.slot < i32::MAX,
        b matches Some(s) ==> i32::MIN < s.slot < i32::MAX,
    ensures
        a is Some && a->0.rank.below(far) && b is Some && b->0.rank.below(far) ==> (rank_key(
            p,
            t,
            a,
            far,
        ) == rank_key(p, u, b, far) <==> a->0.slot == b->0.slot),
        a is Some && a->0.rank.below(far) && (b is None || !b->0.rank.below(far)) ==> rank_key(
            p,
            t,
            a,
            far,
        ) != rank_key(p, u, b, far),
        (a is None || !a->0.rank.below(far)) && (b is None || !b->0.rank.below(far)) ==> rank_key(
            p,
            t,
            a,
            far,
        ) == rank_key(p, u, b, far),
        rank_key(p, p, a, far) != rank_key(p, t, a, far),
        rank_key(p, p, a, far) == rank_key(p, p, b, far),
{
}

} // verus!
