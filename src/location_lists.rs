use std::collections::HashMap;
use vstd::prelude::*;
use vstd::seq_lib::group_to_multiset_ensures;

verus! {

broadcast use vstd::std_specs::hash::group_hash_axioms;

/// The entries of `s` stand in ascending order.
pub open spec fn ascending(s: Seq<u32>) -> bool {
    forall|i: int, j: int| 0 <= i < j < s.len() ==> #[trigger] s[i] <= #[trigger] s[j]
}

/// The distance between two location ids.
pub open spec fn gap(a: u32, b: u32) -> int {
    if a <= b {
        b - a
    } else {
        a - b
    }
}

/// The sum of the distances between the entries of `a` and `b` at the same position, over the
/// first `n` positions.
pub open spec fn paired_gaps(a: Seq<u32>, b: Seq<u32>, n: int) -> int
    decreases n,
{
    if n <= 0 {
        0
    } else {
        paired_gaps(a, b, n - 1) + gap(a[n - 1], b[n - 1])
    }
}

/// The sum, over the entries `x` of `a`, of `x` times the number of times `x` occurs in `b`.
pub open spec fn similarity(a: Seq<u32>, b: Seq<u32>) -> int
    decreases a.len(),
{
    if a.len() == 0 {
        0
    } else {
        similarity(a.drop_last(), b) + a.last() * b.to_multiset().count(a.last())
    }
}

/// Relies on `slice::sort_unstable`: it leaves the same entries in ascending order.
#[verifier::external_body]
fn sort_ascending(v: &mut Vec<u32>)
    ensures
        final(v)@.to_multiset() == old(v)@.to_multiset(),
        ascending(final(v)@),
{
    v.sort_unstable()
}

/// Sorts both lists and adds up the distances between the entries that then stand side by
/// side, as far as the shorter list goes.
pub fn part1(firsts: &Vec<u32>, seconds: &Vec<u32>) -> (r: u64)
    requires
        firsts.len() <= u32::MAX,
    ensures
        exists|a: Seq<u32>, b: Seq<u32>|
            {
                &&& a.to_multiset() == firsts@.to_multiset()
                &&& ascending(a)
                &&& b.to_multiset() == seconds@.to_multiset()
                &&& ascending(b)
                &&& a.len() == firsts.len()
                &&& b.len() == seconds.len()
                &&& r == paired_gaps(
                    a,
                    b,
                    if a.len() <= b.len() {
                        a.len() as int
                    } else {
                        b.len() as int
                    },
                )
            },
{
    let mut a = firsts.clone();
    let mut b = seconds.clone();
    sort_ascending(&mut a);
    sort_ascending(&mut b);
    proof {
        broadcast use group_to_multiset_ensures;

        firsts@.to_multiset_ensures();
        seconds@.to_multiset_ensures();
        a@.to_multiset_ensures();
        b@.to_multiset_ensures();
    }
    let n = if a.len() <= b.len() {
        a.len()
    } else {
        b.len()
    };
    let mut sum: u64 = 0;
    let mut i: usize = 0;
    while i < n
        invariant
            n <= a.len(),
            n <= b.len(),
            n <= u32::MAX,
            i <= n,
            sum == paired_gaps(a@, b@, i as int),
            sum <= i * 0x1_0000_0000,
        decreases n - i,
    {
        let x = a[i];
        let y = b[i];
        let d = if x <= y {
            y - x
        } else {
            x - y
        };
        sum = sum + d as u64;
        i += 1;
    }
    sum
}

/// For each entry of `firsts`, multiplies it by how often it occurs in `seconds`, and adds
/// the products up.
pub fn part2(firsts: &Vec<u32>, seconds: &Vec<u32>) -> (r: u128)
    requires
        firsts.len() <= u32::MAX,
        seconds.len() <= u32::MAX,
    ensures
        r == similarity(firsts@, seconds@),
{
    broadcast use group_to_multiset_ensures;

    let mut occurrences: HashMap<u32, u64> = HashMap::new();
    let mut i: usize = 0;
    while i < seconds.len()
        invariant
            i <= seconds.len(),
            seconds.len() <= u32::MAX,
            forall|k: u32|
                #[trigger] occurrences@.contains_key(k) ==> occurrences@[k]
                    == seconds@.subrange(0, i as int).to_multiset().count(k),
            forall|k: u32|
                !#[trigger] occurrences@.contains_key(k) ==> seconds@.subrange(
                    0,
                    i as int,
                ).to_multiset().count(k) == 0,
        decreases seconds.len() - i,
    {
        let num = seconds[i];
        let seen: u64 = match occurrences.get(&num) {
            Some(c) => *c,
            None => 0,
        };
        let ghost done = seconds@.subrange(0, i as int);
        assert(seconds@.subrange(0, i + 1) == done.push(num));
        assert(done.to_multiset().count(num) <= done.len()) by {
            lemma_count_at_most_len(done, num);
        }
        occurrences.insert(num, seen + 1);
        proof {
            broadcast use vstd::multiset::group_multiset_axioms;

            vstd::seq_lib::to_multiset_build(done, num);
            assert(seconds@.subrange(0, i + 1).to_multiset() == done.to_multiset().insert(num));
        }
        i += 1;
    }
    assert(seconds@.subrange(0, seconds.len() as int) == seconds@);
    let mut sum: u128 = 0;
    let mut j: usize = 0;
    while j < firsts.len()
        invariant
            j <= firsts.len(),
            firsts.len() <= u32::MAX,
            seconds.len() <= u32::MAX,
            forall|k: u32|
                #[trigger] occurrences@.contains_key(k) ==> occurrences@[k]
                    == seconds@.to_multiset().count(k),
            forall|k: u32|
                !#[trigger] occurrences@.contains_key(k) ==> seconds@.to_multiset().count(k) == 0,
            sum == similarity(firsts@.subrange(0, j as int), seconds@),
            sum <= j * 0x1_0000_0000_0000_0000,
        decreases firsts.len() - j,
    {
        let num = firsts[j];
        let count: u64 = match occurrences.get(&num) {
            Some(c) => *c,
            None => 0,
        };
        assert(count <= seconds.len()) by {
            lemma_count_at_most_len(seconds@, num);
        }
        assert(num * count <= 0x1_0000_0000_0000_0000) by (nonlinear_arith)
            requires
                num <= u32::MAX,
                count <= u32::MAX,
        ;
        let ghost next = firsts@.subrange(0, j + 1);
        assert(next.drop_last() == firsts@.subrange(0, j as int));
        sum = sum + num as u128 * count as u128;
        j += 1;
    }
    assert(firsts@.subrange(0, firsts.len() as int) == firsts@);
    sum
}

/// No value occurs in `s` more often than `s` has entries.
proof fn lemma_count_at_most_len(s: Seq<u32>, x: u32)
    ensures
        s.to_multiset().count(x) <= s.len(),
    decreases s.len(),
{
    broadcast use group_to_multiset_ensures;

    if s.len() > 0 {
        assert(s == s.drop_last().push(s.last()));
        lemma_count_at_most_len(s.drop_last(), x);
    } else {
        assert(s.to_multiset().len() == 0);
    }
}

} // verus!
