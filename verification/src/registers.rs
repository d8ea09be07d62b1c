//! Lists of classical registers: all of them, a list in ascending order,
//! and whether two lists agree.

use vstd::prelude::*;
use vstd::relations::{sorted_by, total_ordering};
use vstd::seq_lib::{lemma_sorted_unique, to_multiset_build, to_multiset_insert};

verus! {

/// No register is followed by a smaller one.
pub open spec fn ascending(s: Seq<i32>) -> bool {
    forall|i: int, j: int| 0 <= i < j < s.len() ==> s[i] <= s[j]
}

/// Two lists agree where they hold the same register at every position that
/// both have.
pub open spec fn agree(expected: Seq<i32>, got: Seq<i32>) -> bool {
    forall|k: int| 0 <= k < expected.len() && k < got.len() ==> expected[k] == got[k]
}

/// All registers of a bitstring of `n` characters, from zero upwards.
pub open spec fn every_register(n: int) -> Seq<i32> {
    Seq::new(
        if n < 0 {
            0nat
        } else {
            n as nat
        },
        |k: int| k as i32,
    )
}

/// There is one way to put registers in ascending order: two ascending
/// lists of the same registers, each as often as in the other, are the same
/// list.
pub proof fn lemma_ascending_unique(x: Seq<i32>, y: Seq<i32>)
    requires
        ascending(x),
        ascending(y),
        x.to_multiset() == y.to_multiset(),
    ensures
        x == y,
{
    let leq = |a: i32, b: i32| a <= b;
    assert(sorted_by(x, leq));
    assert(sorted_by(y, leq));
    assert(total_ordering(leq));
    lemma_sorted_unique(x, y, leq);
}

/// The given registers in ascending order, each as often as it is given.
pub open spec fn in_order(registers: Seq<i32>) -> Seq<i32> {
    choose|sorted: Seq<i32>| ascending(sorted) && sorted.to_multiset() == registers.to_multiset()
}

/// An ascending list of the given registers, each as often as it is given,
/// is the list of [`in_order`].
pub proof fn lemma_in_order(registers: Seq<i32>, sorted: Seq<i32>)
    requires
        ascending(sorted),
        sorted.to_multiset() == registers.to_multiset(),
    ensures
        in_order(registers) == sorted,
{
    lemma_ascending_unique(in_order(registers), sorted);
}

/// The registers from zero to `n - 1`; none for an `n` that is not positive.
pub fn all_registers(n: i32) -> (all: Vec<i32>)
    ensures
        all@ == every_register(n as int),
{
    let mut all: Vec<i32> = Vec::new();
    let mut k: i32 = 0;
    while k < n
        invariant
            0 <= k,
            k <= n || k == 0,
            all@.len() == k,
            forall|j: int| 0 <= j < k ==> all@[j] == j,
        decreases n - k,
    {
        all.push(k);
        k = k + 1;
    }
    assert(all@ =~= every_register(n as int));
    all
}

/// The given registers in ascending order.
pub fn sorted_registers(registers: &Vec<i32>) -> (sorted: Vec<i32>)
    ensures
        ascending(sorted@),
        sorted@.to_multiset() == registers@.to_multiset(),
        sorted@.len() == registers@.len(),
{
    let mut sorted: Vec<i32> = Vec::new();
    let mut i: usize = 0;
    assert(registers@.take(0) =~= Seq::<i32>::empty());
    while i < registers.len()
        invariant
            i <= registers.len(),
            ascending(sorted@),
            sorted@.len() == i,
            sorted@.to_multiset() == registers@.take(i as int).to_multiset(),
        decreases registers.len() - i,
    {
        let register: i32 = registers[i];
        let mut at: usize = 0;
        while at < sorted.len() && sorted[at] <= register
            invariant
                at <= sorted.len(),
                forall|j: int| 0 <= j < at ==> sorted@[j] <= register,
            decreases sorted.len() - at,
        {
            at = at + 1;
        }
        let ghost before = sorted@;
        sorted.insert(at, register);
        proof {
            to_multiset_insert(before, at as int, register);
            to_multiset_build(registers@.take(i as int), register);
            assert(registers@.take(i + 1) =~= registers@.take(i as int).push(register));
            assert forall|a: int, b: int| 0 <= a < b < sorted@.len() implies sorted@[a]
                <= sorted@[b] by {
                if a < at && b > at {
                    assert(sorted@[a] == before[a]);
                    assert(sorted@[b] == before[b - 1]);
                    assert(before[at as int] <= before[b - 1] || at == b - 1);
                } else if a == at {
                    assert(sorted@[b] == before[b - 1]);
                    assert(before[at as int] <= before[b - 1] || at == b - 1);
                } else if b == at {
                    assert(sorted@[a] == before[a]);
                } else if b < at {
                    assert(sorted@[a] == before[a]);
                    assert(sorted@[b] == before[b]);
                } else {
                    assert(sorted@[a] == before[a - 1]);
                    assert(sorted@[b] == before[b - 1]);
                }
            }
        }
        i = i + 1;
    }
    assert(registers@.take(i as int) =~= registers@);
    sorted
}

/// Whether two lists of registers agree.
pub fn registers_agree(expected: &Vec<i32>, got: &Vec<i32>) -> (same: bool)
    ensures
        same == agree(expected@, got@),
{
    let mut k: usize = 0;
    while k < expected.len() && k < got.len()
        invariant
            forall|j: int| 0 <= j < k ==> expected@[j] == got@[j],
        decreases expected.len() - k,
    {
        if expected[k] != got[k] {
            return false;
        }
        k = k + 1;
    }
    true
}

} // verus!
