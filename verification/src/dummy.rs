//! Bitstrings made up for trying the estimates out.

use vstd::prelude::*;
use vstd::string::*;
use vstd::arithmetic::power2::{
    lemma2_to64,
    lemma_pow2_pos,
    lemma_pow2_strictly_increases,
    lemma_pow2_unfold,
    pow2,
};
use vstd::seq_lib::{to_multiset_contains, to_multiset_len};
use dashmap::DashMap;
use rand::seq::SliceRandom;
use rand::Rng;
use crate::error::EstimatorError;

verus! {

/// The character for the lowest binary digit of `i`.
pub open spec fn bit_char(i: nat) -> char {
    if i % 2 == 1 {
        '1'
    } else {
        '0'
    }
}

/// The lowest `n` binary digits of `i` as a bitstring, the lowest first.
pub open spec fn bits_of(i: nat, n: nat) -> Seq<char>
    decreases n,
{
    if n == 0 {
        Seq::empty()
    } else {
        seq![bit_char(i)] + bits_of(i / 2, (n - 1) as nat)
    }
}

/// All bitstrings of `n` characters: at position `i` the lowest `n` binary
/// digits of `i`.
pub open spec fn every_bitstring(n: nat) -> Seq<Seq<char>> {
    Seq::new(pow2(n), |i: int| bits_of(i as nat, n))
}

/// A bitstring holds no character but `0` and `1`.
pub open spec fn binary(s: Seq<char>) -> bool {
    forall|p: int| 0 <= p < s.len() ==> s[p] == '0' || s[p] == '1'
}

/// The strings of a list as sequences of characters.
pub open spec fn views(list: Seq<String>) -> Seq<Seq<char>> {
    Seq::new(list.len(), |i: int| list[i]@)
}

/// The digits of a number make a bitstring of as many characters as were
/// asked for.
pub proof fn lemma_bits_of(i: nat, n: nat)
    ensures
        bits_of(i, n).len() == n,
        binary(bits_of(i, n)),
    decreases n,
{
    if n > 0 {
        lemma_bits_of(i / 2, (n - 1) as nat);
    }
}

/// All bitstrings of `num` characters, in the order of the numbers whose
/// binary digits they are, lowest digit first.
pub fn make_two_bit_str_unlimit(num: usize) -> (bits: Vec<String>)
    ensures
        views(bits@) == every_bitstring(num as nat),
{
    let mut bits: Vec<String> = Vec::new();
    bits.push(String::new());
    proof {
        lemma2_to64();
        assert(views(bits@) =~= every_bitstring(0));
    }
    let mut round: usize = 0;
    while round < num
        invariant
            round <= num,
            views(bits@) == every_bitstring(round as nat),
        decreases num - round,
    {
        let mut longer: Vec<String> = Vec::new();
        let mut j: usize = 0;
        while j < bits.len()
            invariant
                j <= bits.len(),
                views(bits@) == every_bitstring(round as nat),
                longer@.len() == 2 * j,
                forall|k: int|
                    0 <= k < 2 * j ==> (#[trigger] longer@[k])@ == bits_of(
                        k as nat,
                        (round + 1) as nat,
                    ),
            decreases bits.len() - j,
        {
            proof {
                reveal_strlit("0");
                reveal_strlit("1");
                assert(views(bits@).len() == bits@.len());
                assert(every_bitstring(round as nat).len() == pow2(round as nat));
                assert(every_bitstring(round as nat)[j as int] == bits_of(j as nat, round as nat));
                assert(views(bits@)[j as int] == bits@[j as int]@);
                assert("0"@ =~= seq!['0']);
                assert("1"@ =~= seq!['1']);
            }
            let mut zero = String::from_str("0");
            zero.append(bits[j].as_str());
            let mut one = String::from_str("1");
            one.append(bits[j].as_str());
            longer.push(zero);
            longer.push(one);
            j = j + 1;
        }
        proof {
            lemma_pow2_unfold((round + 1) as nat);
            assert(views(bits@).len() == pow2(round as nat));
            assert(views(longer@) =~= every_bitstring((round + 1) as nat));
        }
        bits = longer;
        round = round + 1;
    }
    bits
}

/// `Rng::gen` for `bool` on the generator of the thread: a coin, of which
/// nothing is known before it has fallen.
#[verifier::external_body]
fn random_bool() -> (coin: bool) {
    rand::thread_rng().gen::<bool>()
}

/// `Rng::gen_range` on the generator of the thread, for the range from zero
/// up to `n`, which it does not include: a number of that range. An empty
/// range makes it panic, so `n` is not zero here.
#[verifier::external_body]
fn random_below(n: usize) -> (drawn: usize)
    requires
        n > 0,
    ensures
        drawn < n,
{
    rand::thread_rng().gen_range(0..n)
}

/// `SliceRandom::shuffle` with the generator of the thread: it swaps the
/// strings of the list among themselves, so that the list holds the same
/// strings as before, each as often as before.
#[verifier::external_body]
fn shuffle_strings(list: &mut Vec<String>)
    ensures
        views(final(list)@).to_multiset() == views(old(list)@).to_multiset(),
{
    list.shuffle(&mut rand::thread_rng());
}

/// Every string of the list is a bitstring of `len` characters.
pub open spec fn bitstrings_of_len(list: Seq<String>, len: nat) -> bool {
    forall|i: int| 0 <= i < list.len() ==> (#[trigger] list[i])@.len() == len && binary(list[i]@)
}

/// The whole part of the binary logarithm of `n`; zero for zero.
pub open spec fn floor_log2(n: nat) -> nat
    decreases n,
{
    if n < 2 {
        0
    } else {
        1 + floor_log2(n / 2)
    }
}

/// The most binary digits that are enumerated in full.
pub const MOST_DIGITS: usize = 31;

/// The number of binary digits that are enumerated in full for a request:
/// all 31 where no number of bitstrings is named, four for fewer than 16
/// bitstrings, else the whole part of the binary logarithm of their number.
pub open spec fn enumerated_digits(num: Option<usize>) -> nat {
    match num {
        None => 31,
        Some(n) => if n < 16 {
            4
        } else {
            floor_log2(n as nat)
        },
    }
}

/// The request names more bitstrings than are ever made.
pub open spec fn too_many(num: Option<usize>) -> bool {
    num matches Some(n) && n > 0x8000_0000
}

/// The request names fewer than 16 bitstrings.
pub open spec fn few(num: Option<usize>) -> bool {
    num matches Some(n) && n < 16
}

/// The number of bitstrings that a request gives: the number named where it
/// is less than 16; else all bitstrings where they are short enough to be
/// enumerated in full; else the number named, or `2^31` where none is.
pub open spec fn made(bitlen: usize, num: Option<usize>) -> nat {
    match num {
        Some(n) => if n < 16 {
            n as nat
        } else if bitlen <= floor_log2(n as nat) {
            pow2(bitlen as nat)
        } else {
            n as nat
        },
        None => if bitlen <= 31 {
            pow2(bitlen as nat)
        } else {
            pow2(31)
        },
    }
}

/// The request has an answer: fewer than 16 bitstrings of at most four
/// characters are no more than there are of that length.
pub open spec fn makeable(bitlen: usize, num: Option<usize>) -> bool {
    num matches Some(n) ==> (n < 16 && bitlen <= 4 ==> n <= pow2(bitlen as nat))
}

/// Executable form of [`makeable`].
pub fn is_makeable(bitlen: usize, num: Option<usize>) -> (answer: bool)
    ensures
        answer == makeable(bitlen, num),
{
    proof {
        lemma2_to64();
    }
    match num {
        Some(n) => {
            if n < 16 && bitlen <= 4 {
                let all: usize = if bitlen == 0 {
                    1
                } else if bitlen == 1 {
                    2
                } else if bitlen == 2 {
                    4
                } else if bitlen == 3 {
                    8
                } else {
                    16
                };
                n <= all
            } else {
                true
            }
        },
        None => true,
    }
}

proof fn lemma_floor_log2(n: nat)
    requires
        n >= 1,
    ensures
        pow2(floor_log2(n)) <= n < 2 * pow2(floor_log2(n)),
    decreases n,
{
    if n < 2 {
        lemma2_to64();
    } else {
        lemma_floor_log2(n / 2);
        lemma_pow2_unfold(floor_log2(n));
    }
}

fn floor_log2_of(n: usize) -> (l: usize)
    requires
        1 <= n <= 0x8000_0000,
    ensures
        l == floor_log2(n as nat),
        l <= 31,
        pow2(l as nat) <= n < 2 * pow2(l as nat),
{
    let mut l: usize = 0;
    let mut m: usize = n;
    proof {
        lemma_floor_log2_bound(n as nat);
    }
    while m >= 2
        invariant
            1 <= m <= n <= 0x8000_0000,
            l <= 31,
            floor_log2(n as nat) == l + floor_log2(m as nat),
            l + floor_log2(m as nat) <= 31,
        decreases m,
    {
        m = m / 2;
        l = l + 1;
    }
    proof {
        lemma_floor_log2(n as nat);
    }
    l
}

proof fn lemma_floor_log2_bound(n: nat)
    requires
        n <= 0x8000_0000,
    ensures
        floor_log2(n) <= 31,
{
    if n >= 1 {
        lemma_floor_log2(n);
        lemma2_to64();
        if floor_log2(n) > 31 {
            lemma_pow2_strictly_increases(31, floor_log2(n));
        }
    }
}

/// One string put before or behind another, as a coin falls.
fn filler_h_or_e(ff: &str, item: &str) -> (joined: String)
    ensures
        joined@ == ff@ + item@ || joined@ == item@ + ff@,
{
    if random_bool() {
        let mut joined = String::from_str(ff);
        joined.append(item);
        joined
    } else {
        let mut joined = String::from_str(item);
        joined.append(ff);
        joined
    }
}

proof fn lemma_binary_joined(a: Seq<char>, b: Seq<char>)
    requires
        binary(a),
        binary(b),
    ensures
        binary(a + b),
        (a + b).len() == a.len() + b.len(),
{
    assert forall|p: int| 0 <= p < (a + b).len() implies (a + b)[p] == '0' || (a + b)[p] == '1' by {
        if p < a.len() {
            assert((a + b)[p] == a[p]);
        } else {
            assert((a + b)[p] == b[p - a.len()]);
        }
    }
}

/// The first `count` strings of `raw`, each with `ff` put before or behind
/// it as a coin falls, added to the end of `content`.
fn add_filled(content: &mut Vec<String>, raw: &Vec<String>, count: usize, ff: &str, Ghost(len): Ghost<nat>)
    requires
        count <= raw@.len(),
        bitstrings_of_len(raw@, len),
        bitstrings_of_len(old(content)@, len + 1),
        ff@.len() == 1,
        binary(ff@),
    ensures
        final(content)@.len() == old(content)@.len() + count,
        bitstrings_of_len(final(content)@, len + 1),
{
    let mut k: usize = 0;
    while k < count
        invariant
            k <= count <= raw@.len(),
            bitstrings_of_len(raw@, len),
            content@.len() == old(content)@.len() + k,
            bitstrings_of_len(content@, len + 1),
            ff@.len() == 1,
            binary(ff@),
        decreases count - k,
    {
        let joined = filler_h_or_e(ff, raw[k].as_str());
        proof {
            lemma_binary_joined(ff@, raw@[k as int]@);
            lemma_binary_joined(raw@[k as int]@, ff@);
        }
        let ghost before = content@;
        content.push(joined);
        assert forall|i: int| 0 <= i < content@.len() implies (#[trigger] content@[i])@.len() == len
            + 1 && binary(content@[i]@) by {
            if i < before.len() {
                assert(content@[i] == before[i]);
            }
        }
        k = k + 1;
    }
}

/// Every string of `content` with a string of `fillers`, drawn at random,
/// put before or behind it as a coin falls.
fn lengthened(
    content: &Vec<String>,
    fillers: &Vec<String>,
    Ghost(len): Ghost<nat>,
    Ghost(more): Ghost<nat>,
) -> (longer: Vec<String>)
    requires
        fillers@.len() > 0,
        bitstrings_of_len(content@, len),
        bitstrings_of_len(fillers@, more),
    ensures
        longer@.len() == content@.len(),
        bitstrings_of_len(longer@, len + more),
{
    let mut longer: Vec<String> = Vec::new();
    let mut k: usize = 0;
    while k < content.len()
        invariant
            k <= content@.len(),
            fillers@.len() > 0,
            bitstrings_of_len(content@, len),
            bitstrings_of_len(fillers@, more),
            longer@.len() == k,
            bitstrings_of_len(longer@, len + more),
        decreases content@.len() - k,
    {
        let drawn = random_below(fillers.len());
        let joined = filler_h_or_e(fillers[drawn].as_str(), content[k].as_str());
        proof {
            lemma_binary_joined(fillers@[drawn as int]@, content@[k as int]@);
            lemma_binary_joined(content@[k as int]@, fillers@[drawn as int]@);
        }
        let ghost before = longer@;
        longer.push(joined);
        assert forall|i: int| 0 <= i < longer@.len() implies (#[trigger] longer@[i])@.len() == len
            + more && binary(longer@[i]@) by {
            if i < before.len() {
                assert(longer@[i] == before[i]);
            }
        }
        k = k + 1;
    }
    longer
}

/// All bitstrings of one length are bitstrings of that length.
pub proof fn lemma_every_bitstring(list: Seq<String>, n: nat)
    requires
        views(list) == every_bitstring(n),
    ensures
        list.len() == pow2(n),
        bitstrings_of_len(list, n),
{
    assert(views(list).len() == list.len());
    assert forall|i: int| 0 <= i < list.len() implies (#[trigger] list[i])@.len() == n && binary(
        list[i]@,
    ) by {
        assert(views(list)[i] == list[i]@);
        assert(every_bitstring(n)[i] == bits_of(i as nat, n));
        lemma_bits_of(i as nat, n);
    }
}

/// Different numbers below `2^n` have different lowest `n` digits.
pub proof fn lemma_bits_differ(i: nat, j: nat, n: nat)
    requires
        i < pow2(n),
        j < pow2(n),
        bits_of(i, n) == bits_of(j, n),
    ensures
        i == j,
    decreases n,
{
    if n == 0 {
        lemma2_to64();
    } else {
        lemma_pow2_unfold(n);
        let a = bits_of(i, n);
        let b = bits_of(j, n);
        assert(a[0] == bit_char(i));
        assert(b[0] == bit_char(j));
        assert(a.skip(1) =~= bits_of(i / 2, (n - 1) as nat));
        assert(b.skip(1) =~= bits_of(j / 2, (n - 1) as nat));
        lemma_bits_differ(i / 2, j / 2, (n - 1) as nat);
    }
}

/// No bitstring comes twice among all bitstrings of one length.
pub proof fn lemma_every_bitstring_once(n: nat)
    ensures
        every_bitstring(n).no_duplicates(),
{
    let all = every_bitstring(n);
    assert forall|i: int, j: int| 0 <= i < all.len() && 0 <= j < all.len() && i != j implies all[i]
        != all[j] by {
        if all[i] == all[j] {
            lemma_bits_differ(i as nat, j as nat, n);
        }
    }
}

/// A list that holds the same bitstrings as another, each as often, is as
/// long, holds bitstrings of the same length, and holds none twice where
/// the other holds none twice.
proof fn lemma_same_strings(list: Seq<String>, other: Seq<String>, len: nat)
    requires
        views(list).to_multiset() == views(other).to_multiset(),
        bitstrings_of_len(other, len),
    ensures
        list.len() == other.len(),
        bitstrings_of_len(list, len),
        views(other).no_duplicates() ==> views(list).no_duplicates(),
{
    let a = views(list);
    let b = views(other);
    to_multiset_len(a);
    to_multiset_len(b);
    assert forall|i: int| 0 <= i < list.len() implies (#[trigger] list[i])@.len() == len && binary(
        list[i]@,
    ) by {
        assert(a[i] == list[i]@);
        to_multiset_contains(a, a[i]);
        to_multiset_contains(b, a[i]);
        assert(a.contains(a[i]));
        let j = choose|j: int| 0 <= j < b.len() && b[j] == a[i];
        assert(b[j] == other[j]@);
    }
    if b.no_duplicates() {
        b.lemma_multiset_has_no_duplicates();
        a.lemma_multiset_has_no_duplicates_conv();
    }
}

/// Bitstrings of `bitlen` characters, as many as [`made`] says.
///
/// More than `2^31` bitstrings are refused. Bitstrings that are short enough
/// are enumerated in full, in the order of [`make_two_bit_str_unlimit`];
/// of these, fewer than 16 are drawn at random, none twice. Longer ones
/// are put together at random from shorter ones, and may come twice.
pub fn make_two_bit_str_32(bitlen: usize, num: Option<usize>) -> (res: Result<
    Vec<String>,
    EstimatorError,
>)
    requires
        makeable(bitlen, num),
    ensures
        too_many(num) ==> res is Err && res->Err_0 == EstimatorError::OutOfRange,
        !too_many(num) ==> {
            &&& res is Ok
            &&& res->Ok_0@.len() == made(bitlen, num)
            &&& bitstrings_of_len(res->Ok_0@, bitlen as nat)
            &&& !few(num) && bitlen <= enumerated_digits(num) ==> views(res->Ok_0@)
                == every_bitstring(bitlen as nat)
            &&& few(num) && bitlen <= 4 ==> views(res->Ok_0@).no_duplicates()
        },
{
    proof {
        lemma2_to64();
    }
    let is_less_than_16: bool = match num {
        Some(n) => n < 16,
        None => false,
    };
    let less_slice: usize = match num {
        Some(n) => if n < 16 {
            n
        } else {
            0
        },
        None => 0,
    };
    let (logged_num, real_num): (usize, usize) = match num {
        None => (MOST_DIGITS, 0x8000_0000),
        Some(n) => {
            if n < 16 {
                (4, 16)
            } else if n > 0x8000_0000 {
                return Err(EstimatorError::OutOfRange);
            } else {
                (floor_log2_of(n), n)
            }
        },
    };
    assert(logged_num == enumerated_digits(num));
    assert(pow2(logged_num as nat) <= real_num < 2 * pow2(logged_num as nat));

    if bitlen <= logged_num {
        let mut result = make_two_bit_str_unlimit(bitlen);
        proof {
            lemma_every_bitstring(result@, bitlen as nat);
            lemma_every_bitstring_once(bitlen as nat);
        }
        if is_less_than_16 {
            let ghost all = result@;
            shuffle_strings(&mut result);
            let ghost mixed = result@;
            proof {
                lemma_same_strings(mixed, all, bitlen as nat);
            }
            result.truncate(less_slice);
            proof {
                assert forall|i: int| 0 <= i < result@.len() implies #[trigger] result@[i]
                    == mixed[i] by {}
                assert forall|i: int, j: int|
                    0 <= i < result@.len() && 0 <= j < result@.len() && i != j implies views(
                    result@,
                )[i] != views(result@)[j] by {
                    assert(views(mixed)[i] == mixed[i]@);
                    assert(views(mixed)[j] == mixed[j]@);
                }
            }
            return Ok(result);
        }
        return Ok(result);
    }
    let raw_content = make_two_bit_str_unlimit(logged_num);
    let len_raw_content: usize = raw_content.len();
    proof {
        lemma_every_bitstring(raw_content@, logged_num as nat);
        lemma_pow2_pos(logged_num as nat);
    }
    let zero_first: bool = random_bool();
    proof {
        reveal_strlit("0");
        reveal_strlit("1");
    }
    let first_filler: &str = if zero_first {
        "0"
    } else {
        "1"
    };
    let second_filler: &str = if zero_first {
        "1"
    } else {
        "0"
    };
    let mut num_fulfill_content: Vec<String> = Vec::new();
    add_filled(
        &mut num_fulfill_content,
        &raw_content,
        len_raw_content,
        first_filler,
        Ghost(logged_num as nat),
    );
    add_filled(
        &mut num_fulfill_content,
        &raw_content,
        real_num - len_raw_content,
        second_filler,
        Ghost(logged_num as nat),
    );
    let mut less_bitlen: usize = bitlen - logged_num - 1;
    let ghost mut reached: nat = (logged_num + 1) as nat;
    while less_bitlen >= logged_num
        invariant
            logged_num >= 4,
            raw_content@.len() > 0,
            bitstrings_of_len(raw_content@, logged_num as nat),
            num_fulfill_content@.len() == real_num,
            bitstrings_of_len(num_fulfill_content@, reached),
            reached + less_bitlen == bitlen,
        decreases less_bitlen,
    {
        num_fulfill_content = lengthened(
            &num_fulfill_content,
            &raw_content,
            Ghost(reached),
            Ghost(logged_num as nat),
        );
        less_bitlen = less_bitlen - logged_num;
        proof {
            reached = reached + logged_num as nat;
        }
    }
    if less_bitlen == 0 {
        if is_less_than_16 {
            let ghost whole = num_fulfill_content@;
            num_fulfill_content.truncate(less_slice);
            assert forall|i: int| 0 <= i < num_fulfill_content@.len() implies (
            #[trigger] num_fulfill_content@[i])@.len() == bitlen && binary(
                num_fulfill_content@[i]@,
            ) by {
                assert(num_fulfill_content@[i] == whole[i]);
            }
        }
        return Ok(num_fulfill_content);
    }
    let remain_fillers = make_two_bit_str_unlimit(less_bitlen);
    proof {
        lemma_every_bitstring(remain_fillers@, less_bitlen as nat);
        lemma_pow2_pos(less_bitlen as nat);
    }
    let mut result = lengthened(
        &num_fulfill_content,
        &remain_fillers,
        Ghost(reached),
        Ghost(less_bitlen as nat),
    );
    if is_less_than_16 {
        let ghost joined = result@;
        shuffle_strings(&mut result);
        let ghost mixed = result@;
        proof {
            lemma_same_strings(mixed, joined, bitlen as nat);
        }
        result.truncate(less_slice);
        assert forall|i: int| 0 <= i < result@.len() implies (#[trigger] result@[i])@.len()
            == bitlen && binary(result@[i]@) by {
            assert(result@[i] == mixed[i]);
        }
    }
    Ok(result)
}

/// The concurrent map of the `dashmap` crate.
#[verifier::external_type_specification]
#[verifier::external_body]
#[verifier::reject_recursive_types(K)]
#[verifier::reject_recursive_types(V)]
#[verifier::reject_recursive_types(S)]
pub struct ExDashMap<K, V, S>(DashMap<K, V, S>);

/// What a map from strings to counts holds: the count under each string
/// that is a key of it.
pub uninterp spec fn held(map: DashMap<String, usize>) -> Map<Seq<char>, usize>;

/// The map without keys.
pub open spec fn no_cases() -> Map<Seq<char>, usize> {
    Map::empty()
}

/// The string `key` stands among the first `k` strings of the list.
pub open spec fn among(list: Seq<String>, k: int, key: Seq<char>) -> bool {
    exists|i: int| 0 <= i < k && (#[trigger] list[i])@ == key
}

/// The string `key` stands in the list of cases.
pub open spec fn lists(cases: Seq<(String, usize)>, key: Seq<char>) -> bool {
    exists|i: int| 0 <= i < cases.len() && (#[trigger] cases[i]).0@ == key
}

/// `DashMap::new`: a map that holds nothing.
#[verifier::external_body]
fn new_cases() -> (fresh: DashMap<String, usize>)
    ensures
        held(fresh) == no_cases(),
{
    DashMap::new()
}

/// `DashMap::insert`: the value stands under the key afterwards, in place
/// of what stood there before, and all other keys keep what they had.
#[verifier::external_body]
fn insert_case(map: &mut DashMap<String, usize>, key: String, value: usize)
    ensures
        held(*final(map)) == held(*old(map)).insert(key@, value),
{
    map.insert(key, value);
}

/// `IntoIterator::into_iter` of `DashMap`, collected: every key that the
/// map holds comes once, with its value, in an order that is not stated.
#[verifier::external_body]
fn into_cases(map: DashMap<String, usize>) -> (cases: Vec<(String, usize)>)
    ensures
        cases@.len() == held(map).dom().len(),
        forall|i: int|
            0 <= i < cases@.len() ==> held(map).contains_key((#[trigger] cases@[i]).0@) && held(
                map,
            )[cases@[i].0@] == cases@[i].1,
        forall|i: int, j: int|
            0 <= i < j < cases@.len() ==> (#[trigger] cases@[i]).0@ != (#[trigger] cases@[j]).0@,
        forall|key: Seq<char>| held(map).contains_key(key) ==> #[trigger] lists(cases@, key),
{
    map.into_iter().collect()
}

/// Made-up counts: every bitstring that [`make_two_bit_str_32`] makes, once,
/// with `shot_per_case` as its count, in an order that is not stated.
pub fn make_dummy_case_32(n_a: usize, shot_per_case: usize, bitstring_num: Option<usize>) -> (res:
    Result<Vec<(String, usize)>, EstimatorError>)
    requires
        makeable(n_a, bitstring_num),
    ensures
        too_many(bitstring_num) ==> res is Err && res->Err_0 == EstimatorError::OutOfRange,
        !too_many(bitstring_num) ==> {
            &&& res is Ok
            &&& res->Ok_0@.len() <= made(n_a, bitstring_num)
            &&& made(n_a, bitstring_num) > 0 ==> res->Ok_0@.len() > 0
            &&& forall|i: int|
                0 <= i < res->Ok_0@.len() ==> {
                    &&& (#[trigger] res->Ok_0@[i]).0@.len() == n_a
                    &&& binary(res->Ok_0@[i].0@)
                    &&& res->Ok_0@[i].1 == shot_per_case
                }
            &&& forall|i: int, j: int|
                0 <= i < j < res->Ok_0@.len() ==> (#[trigger] res->Ok_0@[i]).0@ != (
                #[trigger] res->Ok_0@[j]).0@
            &&& !few(bitstring_num) && n_a <= enumerated_digits(bitstring_num) ==> {
                &&& res->Ok_0@.len() == pow2(n_a as nat)
                &&& forall|k: int|
                    0 <= k < pow2(n_a as nat) ==> lists(
                        res->Ok_0@,
                        #[trigger] bits_of(k as nat, n_a as nat),
                    )
            }
        },
{
    let bitstring_cases = match make_two_bit_str_32(n_a, bitstring_num) {
        Ok(cases) => cases,
        Err(e) => {
            return Err(e);
        },
    };
    let mut result = new_cases();
    let mut k: usize = 0;
    while k < bitstring_cases.len()
        invariant
            k <= bitstring_cases@.len(),
            held(result).dom().finite(),
            held(result).dom().len() <= k,
            k > 0 ==> held(result).dom().len() > 0,
            forall|key: Seq<char>| #[trigger]
                held(result).contains_key(key) ==> held(result)[key] == shot_per_case && among(
                    bitstring_cases@,
                    k as int,
                    key,
                ),
            forall|i: int|
                0 <= i < k ==> held(result).contains_key((#[trigger] bitstring_cases@[i])@),
            views(bitstring_cases@).no_duplicates() ==> held(result).dom().len() == k,
        decreases bitstring_cases@.len() - k,
    {
        let case = bitstring_cases[k].clone();
        let ghost before = held(result);
        let ghost key = bitstring_cases@[k as int]@;
        insert_case(&mut result, case, shot_per_case);
        proof {
            let after = held(result);
            assert(after == before.insert(key, shot_per_case));
            assert(after.dom() =~= before.dom().insert(key));
            assert forall|other: Seq<char>| #[trigger] after.contains_key(other) implies after[other]
                == shot_per_case && among(bitstring_cases@, k + 1, other) by {
                if other == key {
                    assert(bitstring_cases@[k as int]@ == other);
                } else {
                    assert(before.contains_key(other));
                    assert(among(bitstring_cases@, k as int, other));
                    let i = choose|i: int|
                        0 <= i < k && (#[trigger] bitstring_cases@[i])@ == other;
                    assert(bitstring_cases@[i]@ == other);
                }
            }
            assert forall|i: int| 0 <= i < k + 1 implies after.contains_key(
                (#[trigger] bitstring_cases@[i])@,
            ) by {
                if i < k {
                    assert(before.contains_key(bitstring_cases@[i]@));
                }
            }
            if views(bitstring_cases@).no_duplicates() && before.contains_key(key) {
                assert(among(bitstring_cases@, k as int, key));
                let i = choose|i: int| 0 <= i < k && (#[trigger] bitstring_cases@[i])@ == key;
                assert(views(bitstring_cases@)[i] == bitstring_cases@[i]@);
                assert(views(bitstring_cases@)[k as int] == bitstring_cases@[k as int]@);
            }
        }
        k = k + 1;
    }
    let ghost filled = held(result);
    let cases = into_cases(result);
    proof {
        assert forall|i: int| 0 <= i < cases@.len() implies {
            &&& (#[trigger] cases@[i]).0@.len() == n_a
            &&& binary(cases@[i].0@)
            &&& cases@[i].1 == shot_per_case
        } by {
            let key = cases@[i].0@;
            assert(filled.contains_key(key));
            assert(among(bitstring_cases@, bitstring_cases@.len() as int, key));
            let j = choose|j: int|
                0 <= j < bitstring_cases@.len() && (#[trigger] bitstring_cases@[j])@ == key;
            assert(bitstring_cases@[j]@ == key);
        }
        if !few(bitstring_num) && n_a <= enumerated_digits(bitstring_num) {
            lemma_every_bitstring_once(n_a as nat);
            lemma_every_bitstring(bitstring_cases@, n_a as nat);
            assert forall|n: int| 0 <= n < pow2(n_a as nat) implies lists(
                cases@,
                #[trigger] bits_of(n as nat, n_a as nat),
            ) by {
                assert(views(bitstring_cases@)[n] == bitstring_cases@[n]@);
                assert(every_bitstring(n_a as nat)[n] == bits_of(n as nat, n_a as nat));
                assert(filled.contains_key(bitstring_cases@[n]@));
            }
        }
    }
    Ok(cases)
}

} // verus!
