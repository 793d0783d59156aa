//! Execution counters: the per-address profile and the jump-pair counter
//! that drives loop detection.

use std::collections::{BTreeMap, HashMap};
use vstd::prelude::*;
use vstd::std_specs::iter::IteratorSpec;

verus! {

broadcast use {
    vstd::std_specs::hash::group_hash_axioms,
    vstd::std_specs::btree::group_btree_axioms,
};

/// A mapping from program-counter address to execution count.
pub type Profile = HashMap<usize, usize>;

/// A counter after one more observation. A counter that has reached the
/// largest representable value stays there.
pub open spec fn bump(c: usize) -> usize {
    if c < usize::MAX {
        (c + 1) as usize
    } else {
        c
    }
}

/// The count recorded for `address`; an address never seen counts zero.
pub open spec fn count_of(profile: Map<usize, usize>, address: usize) -> usize {
    if profile.contains_key(address) {
        profile[address]
    } else {
        0
    }
}

/// The profile after one more execution at `address`.
pub open spec fn visited(profile: Map<usize, usize>, address: usize) -> Map<usize, usize> {
    profile.insert(address, bump(count_of(profile, address)))
}

/// The sum of two profiles, address by address, each sum saturating.
pub open spec fn merged(into: Map<usize, usize>, from: Map<usize, usize>) -> Map<usize, usize> {
    Map::new(
        |a: usize| into.contains_key(a) || from.contains_key(a),
        |a: usize| saturating_sum(count_of(into, a), count_of(from, a)),
    )
}

/// `a + b`, or the largest representable count where that does not fit.
pub open spec fn saturating_sum(a: usize, b: usize) -> usize {
    if a + b > usize::MAX {
        usize::MAX
    } else {
        (a + b) as usize
    }
}

pub fn bump_count(c: usize) -> (r: usize)
    ensures
        r == bump(c),
{
    if c < usize::MAX {
        c + 1
    } else {
        c
    }
}

/// Reads the count recorded for `address`.
pub fn lookup(profile: &Profile, address: usize) -> (n: usize)
    ensures
        n == count_of(profile@, address),
{
    match profile.get(&address) {
        Some(n) => *n,
        None => 0,
    }
}

/// Records one more execution at `address` and returns the new count.
pub fn record_visit(profile: &mut Profile, address: usize) -> (n: usize)
    ensures
        final(profile)@ == visited(old(profile)@, address),
        n == bump(count_of(old(profile)@, address)),
{
    let n: usize = bump_count(lookup(profile, address));
    profile.insert(address, n);
    n
}

/// Adds the count that `from` holds for `address` to the one in `into`.
pub fn merge_entry(into: &mut Profile, address: usize, count: usize)
    ensures
        final(into)@ == old(into)@.insert(
            address,
            saturating_sum(count_of(old(into)@, address), count),
        ),
{
    let have: usize = lookup(into, address);
    let sum: usize = if count > usize::MAX - have {
        usize::MAX
    } else {
        have + count
    };
    into.insert(address, sum);
}

/// Whether one of the first `n` entries is for `address`.
pub open spec fn listed(entries: Seq<(usize, usize)>, n: int, address: usize) -> bool {
    exists|i: int| 0 <= i < n && (#[trigger] entries[i]).0 == address
}

/// The entries list the profile: each entry is an address of the profile
/// with its count, no address comes twice, and every address is there.
pub open spec fn enumerates(entries: Seq<(usize, usize)>, profile: Map<usize, usize>) -> bool {
    &&& forall|i: int|
        0 <= i < entries.len() ==> profile.contains_key(#[trigger] entries[i].0)
            && profile[entries[i].0] == entries[i].1
    &&& forall|i: int, j: int| 0 <= i < j < entries.len() ==> entries[i].0 != entries[j].0
    &&& forall|a: usize|
        profile.contains_key(a) ==> exists|i: int| 0 <= i < entries.len() && entries[i].0 == a
}

/// The first `n` entries list what the entries before the last of them
/// list, and the address of that last one.
pub proof fn lemma_listed_next(entries: Seq<(usize, usize)>, n: int)
    requires
        0 < n <= entries.len(),
    ensures
        forall|a: usize|
            #[trigger] listed(entries, n, a) <==> listed(entries, n - 1, a) || a == entries[n
                - 1].0,
{
    assert forall|a: usize| #[trigger] listed(entries, n, a) <==> listed(entries, n - 1, a) || a
        == entries[n - 1].0 by {
        if listed(entries, n, a) {
            let j = choose|j: int| 0 <= j < n && (#[trigger] entries[j]).0 == a;
            if j < n - 1 {
                assert(listed(entries, n - 1, a));
            }
        }
        if listed(entries, n - 1, a) {
            let j = choose|j: int| 0 <= j < n - 1 && (#[trigger] entries[j]).0 == a;
            assert(0 <= j < n && entries[j].0 == a);
        }
        if a == entries[n - 1].0 {
            assert(0 <= n - 1 < n && entries[n - 1].0 == a);
        }
    }
}

/// All entries together list exactly the addresses of the profile.
pub proof fn lemma_listed_all(entries: Seq<(usize, usize)>, profile: Map<usize, usize>)
    requires
        enumerates(entries, profile),
    ensures
        forall|a: usize| listed(entries, entries.len() as int, a) <==> profile.contains_key(a),
{
    assert forall|a: usize| listed(entries, entries.len() as int, a) <==> profile.contains_key(
        a,
    ) by {
        if profile.contains_key(a) {
            let j = choose|j: int| 0 <= j < entries.len() && entries[j].0 == a;
            assert(entries[j].0 == a);
        }
        if listed(entries, entries.len() as int, a) {
            let j = choose|j: int| 0 <= j < entries.len() && (#[trigger] entries[j]).0 == a;
            assert(profile.contains_key(entries[j].0));
        }
    }
}

/// The entries of a profile, each address once, in no particular order.
pub fn entries_of(profile: &Profile) -> (out: Vec<(usize, usize)>)
    ensures
        out@.len() == profile@.dom().len(),
        enumerates(out@, profile@),
{
    let mut out: Vec<(usize, usize)> = Vec::new();
    let iter = profile.iter();
    for pair in it: iter
        invariant
            it.seq() == vstd::std_specs::hash::spec_hash_map_iter(profile).remaining(),
            it.seq().no_duplicates(),
            out@.len() == it.index(),
            forall|i: int|
                0 <= i < out@.len() ==> out@[i].0 == *(#[trigger] it.seq()[i]).0 && out@[i].1
                    == *it.seq()[i].1,
    {
        let (address, count) = pair;
        out.push((*address, *count));
    }
    proof {
        vstd::std_specs::hash::axiom_spec_hash_map_iter(profile);
        let v = vstd::std_specs::hash::spec_hash_map_iter(profile).remaining();
        assert forall|i: int| 0 <= i < out@.len() implies profile@.contains_key(
            #[trigger] out@[i].0,
        ) && profile@[out@[i].0] == out@[i].1 by {
            assert(profile@.contains_key(*v[i].0));
        }
        assert forall|i: int, j: int| 0 <= i < j < out@.len() implies out@[i].0
            != out@[j].0 by {
            assert(profile@.contains_key(*v[i].0));
            assert(profile@.contains_key(*v[j].0));
            if out@[i].0 == out@[j].0 {
                assert(v[i] == v[j]);
            }
        }
    }
    out
}

/// The profile `into` after the first `n` entries of `from` were merged
/// into it.
pub open spec fn partly_merged(
    into: Map<usize, usize>,
    from: Map<usize, usize>,
    entries: Seq<(usize, usize)>,
    n: int,
) -> Map<usize, usize> {
    Map::new(
        |a: usize| into.contains_key(a) || listed(entries, n, a),
        |a: usize|
            if listed(entries, n, a) {
                saturating_sum(count_of(into, a), count_of(from, a))
            } else {
                into[a]
            },
    )
}

/// Merges the profile `from` into `into`: the counts of each address are
/// added. Nothing that `into` holds is overwritten.
pub fn merge_into(into: &mut Profile, from: &Profile)
    ensures
        final(into)@ == merged(old(into)@, from@),
{
    let entries: Vec<(usize, usize)> = entries_of(from);
    let mut i: usize = 0;
    assert(into@ =~= partly_merged(old(into)@, from@, entries@, 0));
    while i < entries.len()
        invariant
            i <= entries.len(),
            enumerates(entries@, from@),
            into@ == partly_merged(old(into)@, from@, entries@, i as int),
        decreases entries.len() - i,
    {
        let (address, count) = entries[i];
        proof {
            assert(!listed(entries@, i as int, address));
            assert(entries@[i as int].0 == address);
        }
        merge_entry(into, address, count);
        proof {
            lemma_listed_next(entries@, i + 1);
            assert(into@ =~= partly_merged(old(into)@, from@, entries@, i + 1));
        }
        i = i + 1;
    }
    proof {
        lemma_listed_all(entries@, from@);
        assert(into@ =~= merged(old(into)@, from@));
    }
}

/// What a profile holds for the addresses of the first `n` entries.
pub open spec fn first_entries(
    profile: Map<usize, usize>,
    entries: Seq<(usize, usize)>,
    n: int,
) -> Map<usize, usize> {
    Map::new(|a: usize| listed(entries, n, a), |a: usize| profile[a])
}

/// The profile in a map that keeps its addresses in ascending order.
pub fn ordered(profile: &Profile) -> (out: BTreeMap<usize, usize>)
    ensures
        out@ == profile@,
{
    let entries: Vec<(usize, usize)> = entries_of(profile);
    let mut out: BTreeMap<usize, usize> = BTreeMap::new();
    let mut i: usize = 0;
    assert(out@ =~= first_entries(profile@, entries@, 0));
    while i < entries.len()
        invariant
            i <= entries.len(),
            enumerates(entries@, profile@),
            out@ == first_entries(profile@, entries@, i as int),
        decreases entries.len() - i,
    {
        let (address, count) = entries[i];
        proof {
            assert(entries@[i as int].0 == address);
        }
        out.insert(address, count);
        proof {
            lemma_listed_next(entries@, i + 1);
            assert(out@ =~= first_entries(profile@, entries@, i + 1));
        }
        i = i + 1;
    }
    proof {
        lemma_listed_all(entries@, profile@);
        assert(out@ =~= profile@);
    }
    out
}

/// The sum of all counts of a profile.
pub open spec fn total_of(profile: Map<usize, usize>) -> nat {
    profile.dom().fold(0nat, |sum: nat, address: usize| (sum + profile[address]) as nat)
}

/// The addresses of the first `n` entries.
pub open spec fn listed_addresses(entries: Seq<(usize, usize)>, n: int) -> Set<usize>
    decreases n,
{
    if n <= 0 {
        Set::empty()
    } else {
        listed_addresses(entries, n - 1).insert(entries[n - 1].0)
    }
}

proof fn lemma_listed_addresses(entries: Seq<(usize, usize)>, n: int)
    requires
        0 <= n <= entries.len(),
    ensures
        listed_addresses(entries, n).finite(),
        forall|a: usize| listed_addresses(entries, n).contains(a) <==> listed(entries, n, a),
    decreases n,
{
    if n > 0 {
        lemma_listed_addresses(entries, n - 1);
        lemma_listed_next(entries, n);
    }
}

/// The product of two 64-bit numbers fits into 128 bits, with room to
/// spare.
pub proof fn lemma_product_fits(a: nat, b: nat)
    requires
        a <= 0xffff_ffff_ffff_ffff,
        b <= 0xffff_ffff_ffff_ffff,
    ensures
        a * b <= 0xffff_ffff_ffff_fffe_0000_0000_0000_0001,
{
    assert(a * b <= 0xffff_ffff_ffff_ffff * 0xffff_ffff_ffff_ffff) by (nonlinear_arith)
        requires
            a <= 0xffff_ffff_ffff_ffff,
            b <= 0xffff_ffff_ffff_ffff,
    ;
    assert(0xffff_ffff_ffff_ffff * 0xffff_ffff_ffff_ffff
        == 0xffff_ffff_ffff_fffe_0000_0000_0000_0001) by (nonlinear_arith);
}

/// Sums all counts of a profile.
pub fn total(profile: &Profile) -> (sum: u128)
    ensures
        sum == total_of(profile@),
        sum < u128::MAX,
{
    let entries: Vec<(usize, usize)> = entries_of(profile);
    let ghost add = |sum: nat, address: usize| (sum + profile@[address]) as nat;
    let mut sum: u128 = 0;
    let mut i: usize = 0;
    proof {
        vstd::set::fold::lemma_fold_empty(0nat, add);
    }
    while i < entries.len()
        invariant
            i <= entries.len(),
            add == |sum: nat, address: usize| (sum + profile@[address]) as nat,
            enumerates(entries@, profile@),
            sum == listed_addresses(entries@, i as int).fold(0nat, add),
            sum <= i * usize::MAX,
        decreases entries.len() - i,
    {
        let (address, count) = entries[i];
        proof {
            lemma_listed_addresses(entries@, i as int);
            assert(!listed(entries@, i as int, address));
            assert(vstd::set::fold::is_fun_commutative(add));
            vstd::set::fold::lemma_fold_insert(
                listed_addresses(entries@, i as int),
                0nat,
                add,
                address,
            );
            assert((i + 1) * usize::MAX == i * usize::MAX + usize::MAX) by (nonlinear_arith);
            lemma_product_fits(i as nat, usize::MAX as nat);
        }
        sum = sum + count as u128;
        i = i + 1;
    }
    proof {
        lemma_listed_addresses(entries@, i as int);
        lemma_listed_all(entries@, profile@);
        assert(listed_addresses(entries@, i as int) =~= profile@.dom());
        lemma_product_fits(i as nat, usize::MAX as nat);
    }
    sum
}

/// The key under which the pair `(prev, cur)` is stored: `prev` in the high
/// 64 bits, `cur` in the low 64 bits.
pub open spec fn pair_key(prev: usize, cur: usize) -> u128 {
    (prev * 0x1_0000_0000_0000_0000 + cur) as u128
}

/// Distinct pairs have distinct keys.
pub proof fn lemma_pair_key_injective(a: (usize, usize), b: (usize, usize))
    ensures
        pair_key(a.0, a.1) == pair_key(b.0, b.1) <==> a == b,
{
}

/// How often each ordered pair (previous address, current address) has been
/// observed.
pub struct JumpPairCounter {
    pub counts: HashMap<u128, usize>,
}

impl View for JumpPairCounter {
    type V = Map<(usize, usize), usize>;

    open spec fn view(&self) -> Map<(usize, usize), usize> {
        Map::new(
            |p: (usize, usize)| self.counts@.contains_key(pair_key(p.0, p.1)),
            |p: (usize, usize)| self.counts@[pair_key(p.0, p.1)],
        )
    }
}

/// The count recorded for the pair; a pair never observed counts zero.
pub open spec fn pair_count(pairs: Map<(usize, usize), usize>, prev: usize, cur: usize) -> usize {
    if pairs.contains_key((prev, cur)) {
        pairs[(prev, cur)]
    } else {
        0
    }
}

/// The pair counts after one more observation of `(prev, cur)`.
pub open spec fn observed(pairs: Map<(usize, usize), usize>, prev: usize, cur: usize) -> Map<
    (usize, usize),
    usize,
> {
    pairs.insert((prev, cur), bump(pair_count(pairs, prev, cur)))
}

impl JumpPairCounter {
    pub fn new() -> (c: Self)
        ensures
            c@ == Map::<(usize, usize), usize>::empty(),
    {
        let c = JumpPairCounter { counts: HashMap::new() };
        assert(c@ =~= Map::<(usize, usize), usize>::empty());
        c
    }

    fn key(prev: usize, cur: usize) -> (k: u128)
        ensures
            k == pair_key(prev, cur),
    {
        let high: u128 = prev as u128;
        let low: u128 = cur as u128;
        high * 0x1_0000_0000_0000_0000u128 + low
    }

    /// How often the pair has been observed.
    pub fn get(&self, prev: usize, cur: usize) -> (n: usize)
        ensures
            n == pair_count(self@, prev, cur),
    {
        let k: u128 = Self::key(prev, cur);
        match self.counts.get(&k) {
            Some(n) => *n,
            None => 0,
        }
    }

    /// Records one more observation of the pair and returns its new count.
    pub fn observe(&mut self, prev: usize, cur: usize) -> (n: usize)
        ensures
            final(self)@ == observed(old(self)@, prev, cur),
            n == bump(pair_count(old(self)@, prev, cur)),
    {
        let n: usize = bump_count(self.get(prev, cur));
        let k: u128 = Self::key(prev, cur);
        self.counts.insert(k, n);
        proof {
            assert forall|p: (usize, usize)| p != (prev, cur) implies pair_key(p.0, p.1)
                != k by {
                lemma_pair_key_injective(p, (prev, cur));
            }
            assert(self@ =~= observed(old(self)@, prev, cur));
        }
        n
    }
}

} // verus!
