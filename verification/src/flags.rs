//! Sets of words kept as one flag per word.

use vstd::prelude::*;

verus! {

/// The positions whose flag is set, in ascending order.
pub open spec fn set_positions(flags: Seq<bool>) -> Seq<u32>
    decreases flags.len(),
{
    if flags.len() == 0 {
        Seq::empty()
    } else {
        let rest = set_positions(flags.drop_last());
        if flags.last() {
            rest.push((flags.len() - 1) as u32)
        } else {
            rest
        }
    }
}

/// How many flags are set.
pub open spec fn set_count(flags: Seq<bool>) -> nat {
    set_positions(flags).len()
}

/// [`set_positions`] holds the set positions and no others, each once, in ascending order.
pub proof fn lemma_set_positions(flags: Seq<bool>)
    requires
        flags.len() <= u32::MAX,
    ensures
        set_count(flags) <= flags.len(),
        forall|k: int|
            0 <= k < set_positions(flags).len() ==> (#[trigger] set_positions(flags)[k])
                < flags.len() && flags[set_positions(flags)[k] as int],
        forall|j: int|
            #![trigger flags[j]]
            0 <= j < flags.len() && flags[j] ==> set_positions(flags).contains(j as u32),
        forall|k: int, m: int|
            0 <= k < m < set_positions(flags).len() ==> #[trigger] set_positions(flags)[k]
                < #[trigger] set_positions(flags)[m],
    decreases flags.len(),
{
    if flags.len() > 0 {
        let head = flags.drop_last();
        lemma_set_positions(head);
        let (r, s) = (set_positions(flags), set_positions(head));
        assert forall|j: int|
            #![trigger flags[j]]
            0 <= j < flags.len() && flags[j] implies r.contains(j as u32) by {
            if j == flags.len() - 1 {
                assert(r.last() == j as u32);
                assert(r[r.len() - 1] == j as u32);
            } else {
                assert(head[j]);
                let k = choose|k: int| 0 <= k < s.len() && s[k] == j as u32;
                assert(r[k] == j as u32);
            }
        }
        assert forall|k: int| 0 <= k < r.len() implies (#[trigger] r[k]) < flags.len()
            && flags[r[k] as int] by {
            if k < s.len() {
                assert(r[k] == s[k]);
                assert(head[s[k] as int]);
            }
        }
        assert forall|k: int, m: int| 0 <= k < m < r.len() implies #[trigger] r[k]
            < #[trigger] r[m] by {
            if m < s.len() {
                assert(s[k] < s[m]);
            } else {
                assert(r[k] == s[k]);
            }
        }
    }
}

/// No flag is set exactly when the count is zero.
pub proof fn lemma_none_set(flags: Seq<bool>)
    requires
        flags.len() <= u32::MAX,
    ensures
        set_count(flags) == 0 <==> forall|j: int| 0 <= j < flags.len() ==> !#[trigger] flags[j],
{
    lemma_set_positions(flags);
    if set_count(flags) == 0 {
        assert forall|j: int| 0 <= j < flags.len() implies !#[trigger] flags[j] by {
            if flags[j] {
                assert(set_positions(flags).contains(j as u32));
            }
        }
    } else {
        assert(flags[set_positions(flags)[0] as int]);
    }
}

/// Clearing a flag that was set takes one off the count.
pub proof fn lemma_clear_one(flags: Seq<bool>, i: int)
    requires
        0 <= i < flags.len(),
        flags[i],
    ensures
        set_count(flags.update(i, false)) == set_count(flags) - 1,
    decreases flags.len(),
{
    if i == flags.len() - 1 {
        assert(flags.update(i, false).drop_last() =~= flags.drop_last());
    } else {
        lemma_clear_one(flags.drop_last(), i);
        assert(flags.update(i, false).drop_last() =~= flags.drop_last().update(i, false));
    }
}

/// Fewer flags set means a smaller count.
pub proof fn lemma_subset_count(a: Seq<bool>, b: Seq<bool>)
    requires
        a.len() == b.len(),
        forall|j: int| 0 <= j < a.len() && #[trigger] a[j] ==> b[j],
    ensures
        set_count(a) <= set_count(b),
    decreases a.len(),
{
    if a.len() > 0 {
        assert forall|j: int| 0 <= j < a.len() - 1 && #[trigger] a.drop_last()[j] implies b.drop_last()[j] by {
            assert(a[j]);
        }
        lemma_subset_count(a.drop_last(), b.drop_last());
        assert(a[a.len() - 1] ==> b[b.len() - 1]);
    }
}

/// The set positions of a list of flags.
pub fn collect_set(flags: &Vec<bool>) -> (r: Vec<u32>)
    requires
        flags@.len() <= u32::MAX,
    ensures
        r@ == set_positions(flags@),
{
    let mut r: Vec<u32> = Vec::new();
    assert(flags@.take(0) =~= Seq::empty());
    for i in 0..flags.len()
        invariant
            flags@.len() <= u32::MAX,
            r@ == set_positions(flags@.take(i as int)),
    {
        assert(flags@.take(i + 1).drop_last() =~= flags@.take(i as int));
        if flags[i] {
            r.push(i as u32);
        }
    }
    assert(flags@.take(flags@.len() as int) =~= flags@);
    r
}

/// The first `k` set positions.
pub fn collect_first(flags: &Vec<bool>, k: usize) -> (r: Vec<u32>)
    requires
        flags@.len() <= u32::MAX,
    ensures
        r@ == set_positions(flags@).take(
            if k <= set_count(flags@) {
                k as int
            } else {
                set_count(flags@) as int
            },
        ),
{
    let mut r: Vec<u32> = Vec::new();
    let mut i: usize = 0;
    assert(flags@.take(0) =~= Seq::empty());
    assert(flags@.take(flags@.len() as int) =~= flags@);
    while i < flags.len() && r.len() < k
        invariant
            flags@.len() <= u32::MAX,
            i <= flags@.len(),
            r@.len() <= k,
            r@ == set_positions(flags@.take(i as int)),
        decreases flags@.len() - i,
    {
        assert(flags@.take(i + 1).drop_last() =~= flags@.take(i as int));
        if flags[i] {
            r.push(i as u32);
        }
        i = i + 1;
    }
    proof {
        lemma_prefix(flags@, i as int);
        let all = set_positions(flags@);
        assert(all.take(r@.len() as int) =~= r@);
        if i == flags@.len() {
            assert(all.take(all.len() as int) =~= all);
        }
    }
    r
}

/// The set positions of a prefix come first.
pub proof fn lemma_prefix(flags: Seq<bool>, i: int)
    requires
        0 <= i <= flags.len(),
    ensures
        set_positions(flags.take(i)).len() <= set_positions(flags).len(),
        set_positions(flags).take(set_positions(flags.take(i)).len() as int) == set_positions(
            flags.take(i),
        ),
    decreases flags.len() - i,
{
    let (s, all) = (set_positions(flags.take(i)), set_positions(flags));
    if i == flags.len() {
        assert(flags.take(i) =~= flags);
        assert(all.take(s.len() as int) =~= s);
    } else {
        lemma_prefix(flags, i + 1);
        assert(flags.take(i + 1).drop_last() =~= flags.take(i));
        let t = set_positions(flags.take(i + 1));
        assert(all.take(s.len() as int) =~= all.take(t.len() as int).take(s.len() as int));
        assert(t.take(s.len() as int) =~= s);
    }
}

/// How many flags are set.
pub fn count_set(flags: &Vec<bool>) -> (r: usize)
    ensures
        r == set_count(flags@),
{
    let mut r: usize = 0;
    assert(flags@.take(0) =~= Seq::empty());
    for i in 0..flags.len()
        invariant
            r <= i,
            r == set_count(flags@.take(i as int)),
    {
        assert(flags@.take(i + 1).drop_last() =~= flags@.take(i as int));
        if flags[i] {
            r = r + 1;
        }
    }
    assert(flags@.take(flags@.len() as int) =~= flags@);
    r
}

} // verus!
