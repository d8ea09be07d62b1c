//! Histograms of measurement outcomes: how often each bitstring was seen.

use vstd::prelude::*;
use vstd::string::*;
use crate::bits::{chars_of, same_bits, string_of};
use crate::error::EstimatorError;
use crate::selection::{SelectionView, Selection};

verus! {

/// What a histogram holds: its outcomes in the order in which they were
/// given, each a bitstring with the number of times it was seen.
pub type Tally = Seq<(Seq<char>, int)>;

/// The number of shots: the sum of all counts.
pub open spec fn total(h: Tally) -> int
    decreases h.len(),
{
    if h.len() == 0 {
        0
    } else {
        total(h.drop_last()) + h.last().1
    }
}

/// No bitstring occurs twice.
pub open spec fn distinct_keys(h: Tally) -> bool {
    forall|i: int, j: int| 0 <= i < j < h.len() ==> (#[trigger] h[i]).0 != (#[trigger] h[j]).0
}

/// The length of the bitstrings of a histogram; zero for an empty one.
pub open spec fn key_len(h: Tally) -> int {
    if h.len() == 0 {
        0
    } else {
        h[0].0.len() as int
    }
}

/// All bitstrings have the same length.
pub open spec fn uniform_keys(h: Tally) -> bool {
    forall|i: int| 0 <= i < h.len() ==> (#[trigger] h[i]).0.len() == key_len(h)
}

/// No count is negative.
pub open spec fn counted(h: Tally) -> bool {
    forall|i: int| 0 <= i < h.len() ==> (#[trigger] h[i]).1 >= 0
}

/// What makes a sequence of outcomes a histogram: each bitstring occurs
/// once, all have one length, no count is negative, and both the number of
/// shots and the length of a bitstring can be told in 32 bits.
pub open spec fn valid_tally(h: Tally) -> bool {
    &&& distinct_keys(h)
    &&& uniform_keys(h)
    &&& counted(h)
    &&& total(h) <= i32::MAX
    &&& key_len(h) <= i32::MAX
}

/// The first position at which `key` stands in `h`, or the length of `h`
/// where it stands nowhere.
pub open spec fn position_of(h: Tally, key: Seq<char>) -> int
    decreases h.len(),
{
    if h.len() == 0 {
        0
    } else if h[0].0 == key {
        0
    } else {
        1 + position_of(h.drop_first(), key)
    }
}

/// How often `key` was seen: the sum of the counts of the outcomes that
/// carry it.
pub open spec fn count_of(h: Tally, key: Seq<char>) -> int
    decreases h.len(),
{
    if h.len() == 0 {
        0
    } else {
        count_of(h.drop_last(), key) + if h.last().0 == key {
            h.last().1
        } else {
            0
        }
    }
}

/// The histogram after `key` was seen `count` more times: added to the
/// outcome that carries `key`, or put behind all others as a new outcome.
pub open spec fn tallied(h: Tally, key: Seq<char>, count: int) -> Tally {
    let p = position_of(h, key);
    if p < h.len() {
        h.update(p, (key, h[p].1 + count))
    } else {
        h.push((key, count))
    }
}

/// The outcomes given as pairs of a string and a count.
pub open spec fn tally_of(pairs: Seq<(String, i32)>) -> Tally {
    Seq::new(pairs.len(), |i: int| (pairs[i].0@, pairs[i].1 as int))
}

/// `position_of` is the one position below which `key` does not stand and
/// at which, unless it is the length, `key` stands.
pub proof fn lemma_position_of(h: Tally, key: Seq<char>, p: int)
    requires
        0 <= p <= h.len(),
        forall|j: int| 0 <= j < p ==> (#[trigger] h[j]).0 != key,
        p < h.len() ==> h[p].0 == key,
    ensures
        position_of(h, key) == p,
    decreases h.len(),
{
    if h.len() > 0 && p > 0 {
        assert(h[0].0 != key);
        let rest = h.drop_first();
        assert forall|j: int| 0 <= j < p - 1 implies (#[trigger] rest[j]).0 != key by {
            assert(rest[j] == h[j + 1]);
        }
        lemma_position_of(rest, key, p - 1);
    }
}

/// What `position_of` finds.
pub proof fn lemma_position_found(h: Tally, key: Seq<char>)
    ensures
        0 <= position_of(h, key) <= h.len(),
        forall|j: int| 0 <= j < position_of(h, key) ==> (#[trigger] h[j]).0 != key,
        position_of(h, key) < h.len() ==> h[position_of(h, key)].0 == key,
    decreases h.len(),
{
    if h.len() > 0 && h[0].0 != key {
        let rest = h.drop_first();
        lemma_position_found(rest, key);
        let p = position_of(rest, key);
        assert forall|j: int| 0 <= j < p + 1 implies (#[trigger] h[j]).0 != key by {
            if j > 0 {
                assert(rest[j - 1] == h[j]);
            }
        }
        if p < rest.len() {
            assert(rest[p] == h[p + 1]);
        }
    }
}

/// Taking one more outcome adds its count to the shots.
pub proof fn lemma_total_step(h: Tally, n: int)
    requires
        0 <= n < h.len(),
    ensures
        total(h.take(n + 1)) == total(h.take(n)) + h[n].1,
{
    assert(h.take(n + 1).drop_last() == h.take(n));
    assert(h.take(n + 1).last() == h[n]);
}

/// Where no count is negative, the shots are not negative.
pub proof fn lemma_total_nonnegative(h: Tally)
    requires
        counted(h),
    ensures
        0 <= total(h),
    decreases h.len(),
{
    if h.len() > 0 {
        assert(h.last() == h[h.len() - 1]);
        assert forall|i: int| 0 <= i < h.drop_last().len() implies (#[trigger] h.drop_last()[i]).1
            >= 0 by {
            assert(h.drop_last()[i] == h[i]);
        }
        lemma_total_nonnegative(h.drop_last());
    }
}

/// The shots of the first `n` outcomes, where no count is negative, are
/// between zero and the shots of all.
pub proof fn lemma_total_prefix(h: Tally, n: int)
    requires
        counted(h),
        0 <= n <= h.len(),
    ensures
        0 <= total(h.take(n)) <= total(h),
    decreases h.len() - n,
{
    assert forall|i: int| 0 <= i < h.take(n).len() implies (#[trigger] h.take(n)[i]).1 >= 0 by {
        assert(h.take(n)[i] == h[i]);
    }
    lemma_total_nonnegative(h.take(n));
    if n < h.len() {
        lemma_total_step(h, n);
        lemma_total_prefix(h, n + 1);
    } else {
        assert(h.take(n) == h);
    }
}

/// No count exceeds the shots, where no count is negative.
pub proof fn lemma_count_within_total(h: Tally, p: int)
    requires
        counted(h),
        0 <= p < h.len(),
    ensures
        h[p].1 <= total(h),
    decreases h.len(),
{
    let front = h.drop_last();
    assert forall|i: int| 0 <= i < front.len() implies (#[trigger] front[i]).1 >= 0 by {
        assert(front[i] == h[i]);
    }
    lemma_total_nonnegative(front);
    assert(h.last() == h[h.len() - 1]);
    if p < h.len() - 1 {
        lemma_count_within_total(front, p);
        assert(front[p] == h[p]);
    }
}

/// Raising the count of one outcome raises the shots, and what was seen of
/// its bitstring, by as much.
pub proof fn lemma_update_count(h: Tally, p: int, delta: int, key: Seq<char>)
    requires
        0 <= p < h.len(),
    ensures
        total(h.update(p, (h[p].0, h[p].1 + delta))) == total(h) + delta,
        count_of(h.update(p, (h[p].0, h[p].1 + delta)), key) == count_of(h, key) + if h[p].0
            == key {
            delta
        } else {
            0
        },
    decreases h.len(),
{
    let raised = h.update(p, (h[p].0, h[p].1 + delta));
    if p == h.len() - 1 {
        assert(raised.drop_last() == h.drop_last());
    } else {
        lemma_update_count(h.drop_last(), p, delta, key);
        assert(h.drop_last()[p] == h[p]);
        assert(raised.drop_last() == h.drop_last().update(p, (h[p].0, h[p].1 + delta)));
        assert(raised.last() == h.last());
    }
}

/// What one more tally does to a histogram: the shots and what was seen of
/// the bitstring grow by the count, what was seen of any other bitstring
/// stays, and the histogram stays one.
pub proof fn lemma_tallied(h: Tally, key: Seq<char>, count: int, other: Seq<char>)
    ensures
        total(tallied(h, key, count)) == total(h) + count,
        count_of(tallied(h, key, count), other) == count_of(h, other) + if key == other {
            count
        } else {
            0
        },
        distinct_keys(h) ==> distinct_keys(tallied(h, key, count)),
        counted(h) && count >= 0 ==> counted(tallied(h, key, count)),
        uniform_keys(h) && (h.len() > 0 ==> key.len() == key_len(h)) ==> uniform_keys(
            tallied(h, key, count),
        ) && key_len(tallied(h, key, count)) == key.len(),
        h.len() <= tallied(h, key, count).len() <= h.len() + 1,
        tallied(h, key, count).len() > 0,
{
    let p = position_of(h, key);
    let t = tallied(h, key, count);
    lemma_position_found(h, key);
    if p < h.len() {
        lemma_update_count(h, p, count, other);
        assert(t == h.update(p, (h[p].0, h[p].1 + count)));
        assert forall|i: int, j: int| 0 <= i < j < t.len() && distinct_keys(h) implies (
        #[trigger] t[i]).0 != (#[trigger] t[j]).0 by {
            assert(t[i].0 == h[i].0);
            assert(t[j].0 == h[j].0);
        }
        assert forall|i: int| 0 <= i < t.len() && counted(h) && count >= 0 implies (
        #[trigger] t[i]).1 >= 0 by {
            assert(h[i].1 >= 0);
        }
        assert forall|i: int|
            0 <= i < t.len() && uniform_keys(h) && key.len() == key_len(h) implies (
        #[trigger] t[i]).0.len() == key_len(t) by {
            assert(h[i].0.len() == key_len(h));
            assert(t[0].0 == h[0].0);
        }
    } else {
        assert(t.drop_last() == h);
        assert(t.last() == (key, count));
        assert forall|i: int, j: int| 0 <= i < j < t.len() && distinct_keys(h) implies (
        #[trigger] t[i]).0 != (#[trigger] t[j]).0 by {
            if j < h.len() {
                assert(t[i] == h[i]);
                assert(t[j] == h[j]);
            } else {
                assert(t[i] == h[i]);
            }
        }
        assert forall|i: int| 0 <= i < t.len() && counted(h) && count >= 0 implies (
        #[trigger] t[i]).1 >= 0 by {
            if i < h.len() {
                assert(t[i] == h[i]);
            }
        }
        assert forall|i: int|
            0 <= i < t.len() && uniform_keys(h) && (h.len() > 0 ==> key.len() == key_len(
                h,
            )) implies (#[trigger] t[i]).0.len() == key_len(t) by {
            if i < h.len() {
                assert(t[i] == h[i]);
                assert(t[0] == h[0]);
            }
        }
    }
}

/// The histogram reduced to a subsystem: outcome by outcome, the count is
/// tallied under the part of the bitstring that the selection keeps.
pub open spec fn reduced(h: Tally, selection: SelectionView) -> Tally
    decreases h.len(),
{
    if h.len() == 0 {
        Seq::empty()
    } else {
        tallied(
            reduced(h.drop_last(), selection),
            selection.substring(h.last().0),
            h.last().1,
        )
    }
}

/// The sum of the counts of the outcomes of which the selection keeps `key`.
pub open spec fn count_kept(h: Tally, selection: SelectionView, key: Seq<char>) -> int
    decreases h.len(),
{
    if h.len() == 0 {
        0
    } else {
        count_kept(h.drop_last(), selection, key) + if selection.substring(h.last().0) == key {
            h.last().1
        } else {
            0
        }
    }
}

/// Reducing one more outcome tallies its count under the part kept of it.
pub proof fn lemma_reduced_step(h: Tally, selection: SelectionView, n: int)
    requires
        0 <= n < h.len(),
    ensures
        reduced(h.take(n + 1), selection) == tallied(
            reduced(h.take(n), selection),
            selection.substring(h[n].0),
            h[n].1,
        ),
{
    assert(h.take(n + 1).drop_last() == h.take(n));
    assert(h.take(n + 1).last() == h[n]);
}

/// All but the last outcome of a histogram make a histogram with bitstrings
/// of the same length.
pub proof fn lemma_front_valid(h: Tally)
    requires
        h.len() > 0,
        distinct_keys(h),
        uniform_keys(h),
        counted(h),
    ensures
        distinct_keys(h.drop_last()),
        uniform_keys(h.drop_last()),
        counted(h.drop_last()),
        h.len() > 1 ==> key_len(h.drop_last()) == key_len(h),
        h.last().0.len() == key_len(h),
        h.last().1 >= 0,
        forall|i: int| 0 <= i < h.len() - 1 ==> (#[trigger] h.drop_last()[i]).0 != h.last().0,
{
    let front = h.drop_last();
    assert(h.last() == h[h.len() - 1]);
    assert forall|i: int| 0 <= i < front.len() implies #[trigger] front[i] == h[i] by {}
    assert forall|i: int, j: int| 0 <= i < j < front.len() implies (#[trigger] front[i]).0 != (
    #[trigger] front[j]).0 by {
        assert(front[i] == h[i]);
        assert(front[j] == h[j]);
    }
    assert forall|i: int| 0 <= i < front.len() implies (#[trigger] front[i]).0.len() == key_len(
        front,
    ) by {
        assert(front[i] == h[i]);
        assert(front[0] == h[0]);
    }
    assert forall|i: int| 0 <= i < front.len() implies (#[trigger] front[i]).1 >= 0 by {
        assert(front[i] == h[i]);
    }
    assert forall|i: int| 0 <= i < h.len() - 1 implies (#[trigger] front[i]).0 != h.last().0 by {
        assert(front[i] == h[i]);
    }
}

/// Reducing a histogram gives a histogram again. It has the same shots; each
/// of its bitstrings is as long as the selection is wide; and what it has
/// seen of a bitstring is the sum of the counts of the outcomes of which
/// that bitstring is kept.
pub proof fn lemma_reduced(h: Tally, selection: SelectionView, key: Seq<char>)
    requires
        valid_tally(h),
        h.len() > 0 ==> selection.applies_to(key_len(h)) && !selection.refused(key_len(h)),
    ensures
        valid_tally(reduced(h, selection)),
        total(reduced(h, selection)) == total(h),
        count_of(reduced(h, selection), key) == count_kept(h, selection, key),
        reduced(h, selection).len() <= h.len(),
        h.len() > 0 ==> reduced(h, selection).len() > 0 && key_len(reduced(h, selection))
            == selection.width(key_len(h)),
    decreases h.len(),
{
    if h.len() > 0 {
        let front = h.drop_last();
        let part = selection.substring(h.last().0);
        lemma_front_valid(h);
        lemma_total_nonnegative(front);
        lemma_reduced(front, selection, key);
        selection.lemma_width(h.last().0);
        lemma_tallied(reduced(front, selection), part, h.last().1, key);
    }
}

/// A selection that keeps every bitstring of a histogram whole leaves the
/// histogram as it is.
pub proof fn lemma_reduced_whole(h: Tally, selection: SelectionView)
    requires
        distinct_keys(h),
        forall|i: int| 0 <= i < h.len() ==> selection.substring((#[trigger] h[i]).0) == h[i].0,
    ensures
        reduced(h, selection) == h,
    decreases h.len(),
{
    if h.len() > 0 {
        let front = h.drop_last();
        assert(h.last() == h[h.len() - 1]);
        assert forall|i: int| 0 <= i < front.len() implies #[trigger] front[i] == h[i] by {}
        assert forall|i: int, j: int| 0 <= i < j < front.len() implies (#[trigger] front[i]).0 != (
        #[trigger] front[j]).0 by {
            assert(front[i] == h[i]);
            assert(front[j] == h[j]);
        }
        assert forall|i: int| 0 <= i < front.len() implies selection.substring(
            (#[trigger] front[i]).0,
        ) == front[i].0 by {
            assert(front[i] == h[i]);
        }
        lemma_reduced_whole(front, selection);
        assert forall|j: int| 0 <= j < front.len() implies (#[trigger] front[j]).0 != h.last().0 by {
            assert(front[j] == h[j]);
        }
        lemma_position_of(front, h.last().0, front.len() as int);
        assert(front.push(h.last()) == h);
    }
}

/// Reducing a histogram whose bitstrings already have the size of the
/// subsystem, by a range that is cut out directly and selects as many
/// positions as that size, gives the histogram unchanged.
pub proof fn lemma_reduce_idempotent(h: Tally, range: (i32, i32), subsystem_size: i32)
    requires
        distinct_keys(h),
        uniform_keys(h),
        (SelectionView::Range { range, subsystem_size }).keeps_whole(key_len(h)),
    ensures
        reduced(h, SelectionView::Range { range, subsystem_size }) == h,
{
    let selection = SelectionView::Range { range, subsystem_size };
    assert forall|i: int| 0 <= i < h.len() implies selection.substring((#[trigger] h[i]).0)
        == h[i].0 by {
        assert(h[i].0.len() == subsystem_size);
        assert(h[i].0.subrange(0, subsystem_size as int) =~= h[i].0);
    }
    lemma_reduced_whole(h, selection);
}

/// One outcome: a bitstring and the number of times it was seen.
#[derive(Debug)]
pub struct Outcome {
    bits: Vec<char>,
    count: i32,
}

impl View for Outcome {
    type V = (Seq<char>, int);

    closed spec fn view(&self) -> (Seq<char>, int) {
        (self.bits@, self.count as int)
    }
}

/// A histogram of measurement outcomes.
#[derive(Debug)]
pub struct Histogram {
    entries: Vec<Outcome>,
}

impl View for Histogram {
    type V = Tally;

    closed spec fn view(&self) -> Tally {
        Seq::new(self.entries@.len(), |i: int| self.entries@[i]@)
    }
}

impl Histogram {
    /// The histogram holds what [`valid_tally`] asks for.
    pub open spec fn wf(&self) -> bool {
        valid_tally(self@)
    }

    /// The histogram without outcomes.
    pub fn new() -> (h: Histogram)
        ensures
            h.wf(),
            h@.len() == 0,
    {
        Histogram { entries: Vec::new() }
    }

    /// The number of distinct outcomes.
    pub fn len(&self) -> (n: usize)
        ensures
            n == self@.len(),
    {
        self.entries.len()
    }

    /// The bitstring of the outcome at position `i`.
    pub fn bits(&self, i: usize) -> (bits: &Vec<char>)
        requires
            i < self@.len(),
        ensures
            bits@ == self@[i as int].0,
    {
        &self.entries[i].bits
    }

    /// The count of the outcome at position `i`.
    pub fn count(&self, i: usize) -> (count: i32)
        requires
            i < self@.len(),
        ensures
            count == self@[i as int].1,
    {
        self.entries[i].count
    }

    /// The length of the bitstrings; zero for an empty histogram.
    pub fn key_len(&self) -> (n: usize)
        ensures
            n == key_len(self@),
    {
        if self.entries.len() == 0 {
            0
        } else {
            self.entries[0].bits.len()
        }
    }

    /// The number of shots.
    pub fn shots(&self) -> (shots: i32)
        requires
            self.wf(),
        ensures
            shots == total(self@),
    {
        let mut shots: i32 = 0;
        let mut i: usize = 0;
        while i < self.entries.len()
            invariant
                i <= self.entries.len(),
                self.entries@.len() == self@.len(),
                self.wf(),
                shots == total(self@.take(i as int)),
            decreases self.entries.len() - i,
        {
            proof {
                lemma_total_step(self@, i as int);
                lemma_total_prefix(self@, i as int);
                lemma_total_prefix(self@, i + 1);
            }
            shots = shots + self.entries[i].count;
            i = i + 1;
        }
        assert(self@.take(i as int) == self@);
        shots
    }

    /// The position at which `key` stands, or the number of outcomes where
    /// it stands nowhere.
    pub fn position(&self, key: &Vec<char>) -> (p: usize)
        ensures
            p == position_of(self@, key@),
            p <= self@.len(),
    {
        let mut i: usize = 0;
        while i < self.entries.len()
            invariant
                i <= self.entries.len(),
                self.entries@.len() == self@.len(),
                forall|j: int| 0 <= j < i ==> (#[trigger] self@[j]).0 != key@,
            decreases self.entries.len() - i,
        {
            if same_bits(&self.entries[i].bits, key) {
                proof {
                    lemma_position_of(self@, key@, i as int);
                }
                return i;
            }
            i = i + 1;
        }
        proof {
            lemma_position_of(self@, key@, i as int);
        }
        i
    }

    /// Counts `count` more sightings of the bitstring `key`.
    fn tally(&mut self, key: Vec<char>, count: i32)
        requires
            old(self).wf(),
            count >= 0,
            total(old(self)@) + count <= i32::MAX,
            key@.len() <= i32::MAX,
            old(self)@.len() > 0 ==> key@.len() == key_len(old(self)@),
        ensures
            final(self)@ == tallied(old(self)@, key@, count as int),
            final(self).wf(),
    {
        let p = self.position(&key);
        proof {
            lemma_tallied(self@, key@, count as int, key@);
            lemma_position_found(self@, key@);
        }
        if p < self.entries.len() {
            let seen: i32 = self.entries[p].count;
            proof {
                lemma_count_within_total(self@, p as int);
            }
            self.entries.set(p, Outcome { bits: key, count: seen + count });
        } else {
            self.entries.push(Outcome { bits: key, count });
        }
        assert(self@ =~= tallied(old(self)@, key@, count as int));
    }

    /// The histogram of the given outcomes, in their order, if they make
    /// one: no bitstring twice, all of one length, no negative count, and no
    /// more shots in all than 32 bits can tell.
    pub fn from_pairs(pairs: Vec<(String, i32)>) -> (res: Option<Histogram>)
        ensures
            res is Some <==> valid_tally(tally_of(pairs@)),
            res matches Some(h) ==> h@ == tally_of(pairs@),
    {
        let ghost all = tally_of(pairs@);
        let mut h = Histogram::new();
        let mut shots: i32 = 0;
        let mut i: usize = 0;
        while i < pairs.len()
            invariant
                i <= pairs.len(),
                all == tally_of(pairs@),
                h@ == all.take(i as int),
                h.wf(),
                0 <= shots == total(h@),
            decreases pairs.len() - i,
        {
            let key = chars_of(pairs[i].0.as_str());
            let count: i32 = pairs[i].1;
            assert(all[i as int] == (key@, count as int));
            if count < 0 {
                return None;
            }
            if key.len() > 0x7fff_ffff || (i > 0 && key.len() != h.key_len()) {
                if i > 0 {
                    assert(all[0] == all.take(i as int)[0]);
                }
                return None;
            }
            let p = h.position(&key);
            if p < i {
                proof {
                    lemma_position_found(h@, key@);
                    assert(all.take(i as int)[p as int] == all[p as int]);
                }
                return None;
            }
            if count > 0x7fff_ffff - shots {
                proof {
                    if counted(all) {
                        lemma_total_step(all, i as int);
                        lemma_total_prefix(all, i + 1);
                    }
                }
                return None;
            }
            proof {
                lemma_tallied(h@, key@, count as int, key@);
            }
            h.tally(key, count);
            shots = shots + count;
            assert(h@ =~= all.take(i + 1));
            i = i + 1;
        }
        assert(all.take(i as int) == all);
        Some(h)
    }

    /// The outcomes as pairs of a string and a count, in their order.
    pub fn to_pairs(&self) -> (pairs: Vec<(String, i32)>)
        ensures
            tally_of(pairs@) == self@,
    {
        let mut pairs: Vec<(String, i32)> = Vec::new();
        let mut i: usize = 0;
        while i < self.entries.len()
            invariant
                i <= self.entries.len(),
                self.entries@.len() == self@.len(),
                pairs@.len() == i,
                tally_of(pairs@) == self@.take(i as int),
            decreases self.entries.len() - i,
        {
            let key = string_of(&self.entries[i].bits);
            let ghost before = pairs@;
            pairs.push((key, self.entries[i].count));
            assert forall|j: int| 0 <= j < i + 1 implies #[trigger] tally_of(pairs@)[j]
                == self@.take(i + 1)[j] by {
                if j < i {
                    assert(pairs@[j] == before[j]);
                    assert(tally_of(before)[j] == self@.take(i as int)[j]);
                }
            }
            assert(tally_of(pairs@) =~= self@.take(i + 1));
            i = i + 1;
        }
        assert(self@.take(i as int) == self@);
        pairs
    }

    /// Reduces the histogram to a subsystem: of every bitstring the selected
    /// part is kept, and the counts of the bitstrings that keep the same
    /// part are added up. The selection is refused for all outcomes or for
    /// none; an empty histogram stays empty.
    pub fn reduce(&self, selection: &Selection) -> (res: Result<Histogram, EstimatorError>)
        requires
            self.wf(),
            self@.len() > 0 ==> selection@.applies_to(key_len(self@)),
        ensures
            self@.len() > 0 && selection@.refused(key_len(self@)) ==> res is Err && res->Err_0
                == EstimatorError::OutOfRange,
            !(self@.len() > 0 && selection@.refused(key_len(self@))) ==> res is Ok && res->Ok_0@
                == reduced(self@, selection@) && res->Ok_0.wf(),
            selection@.keeps_whole(key_len(self@)) ==> res is Ok && res->Ok_0@ == self@,
    {
        let mut out = Histogram::new();
        let mut i: usize = 0;
        while i < self.entries.len()
            invariant
                i <= self.entries.len(),
                self.entries@.len() == self@.len(),
                self.wf(),
                self@.len() > 0 ==> selection@.applies_to(key_len(self@)),
                i > 0 ==> !selection@.refused(key_len(self@)),
                out@ == reduced(self@.take(i as int), selection@),
                out.wf(),
                total(out@) == total(self@.take(i as int)),
                out@.len() > 0 ==> key_len(out@) == selection@.width(key_len(self@)),
            decreases self.entries.len() - i,
        {
            let ghost key = self@[i as int].0;
            let count: i32 = self.entries[i].count;
            assert(key.len() == key_len(self@));
            let kept = match selection.pick(&self.entries[i].bits) {
                Ok(kept) => kept,
                Err(e) => {
                    return Err(e);
                },
            };
            proof {
                selection@.lemma_width(key);
                lemma_total_step(self@, i as int);
                lemma_total_prefix(self@, i + 1);
                lemma_reduced_step(self@, selection@, i as int);
                lemma_tallied(out@, kept@, count as int, kept@);
            }
            out.tally(kept, count);
            i = i + 1;
        }
        assert(self@.take(i as int) == self@);
        proof {
            if selection@.keeps_whole(key_len(self@)) {
                lemma_reduce_idempotent(self@, selection@->range, selection@->subsystem_size);
            }
        }
        Ok(out)
    }
}

} // verus!
