//! The two ways of naming the part of a bitstring that an estimate is about.

use vstd::prelude::*;
use crate::construct::{
    assembled,
    assembled_len,
    cyclic_slice,
    lemma_assembled_len,
    lemma_strided_by_one,
    slice_chars,
    slice_defined,
    slice_out_of_range,
};
use crate::error::EstimatorError;

verus! {

/// The part of every bitstring that is kept when a histogram is reduced to a
/// subsystem.
#[derive(Debug)]
pub enum Selection {
    /// The positions of a range `[a, b)`, with the size of the subsystem.
    /// A range that starts at or after position zero and ends at or before
    /// the size is cut out directly; any other goes through the cyclic slice
    /// with step one.
    Range { range: (i32, i32), subsystem_size: i32 },
    /// Registers by their numbers, in the order given. Register `i` of a
    /// bitstring of `n` characters is the character at position `n - i - 1`.
    Registers(Vec<i32>),
}

/// What a [`Selection`] says, with the list of registers as a sequence.
pub enum SelectionView {
    /// The positions of a range `[a, b)`, with the size of the subsystem.
    Range { range: (i32, i32), subsystem_size: i32 },
    /// Registers by their numbers, in the order given.
    Registers(Seq<i32>),
}

impl View for Selection {
    type V = SelectionView;

    open spec fn view(&self) -> SelectionView {
        match self {
            Selection::Range { range, subsystem_size } => SelectionView::Range {
                range: *range,
                subsystem_size: *subsystem_size,
            },
            Selection::Registers(registers) => SelectionView::Registers(registers@),
        }
    }
}

/// Whether every register is one of a bitstring of `len` characters.
fn registers_within(registers: &Vec<i32>, len: usize) -> (within: bool)
    ensures
        within == forall|k: int| 0 <= k < registers@.len() ==> 0 <= #[trigger] registers@[k] < len,
{
    let mut k: usize = 0;
    while k < registers.len()
        invariant
            k <= registers.len(),
            forall|j: int| 0 <= j < k ==> 0 <= #[trigger] registers@[j] < len,
        decreases registers.len() - k,
    {
        if registers[k] < 0 || registers[k] as u64 >= len as u64 {
            assert(!(0 <= registers@[k as int] < len));
            return false;
        }
        k = k + 1;
    }
    true
}

impl SelectionView {
    /// A range that is cut out directly.
    pub open spec fn direct(range: (i32, i32), subsystem_size: i32) -> bool {
        0 <= range.0 && range.1 <= subsystem_size
    }

    /// The part of the bitstring `key` that is kept.
    pub open spec fn substring(self, key: Seq<char>) -> Seq<char> {
        match self {
            SelectionView::Range { range, subsystem_size } => {
                if Self::direct(range, subsystem_size) {
                    key.subrange(range.0 as int, range.1 as int)
                } else {
                    cyclic_slice(key, range.0 as int, range.1 as int, 1)
                }
            },
            SelectionView::Registers(registers) => Seq::new(
                registers.len(),
                |k: int| key[key.len() - registers[k] - 1],
            ),
        }
    }

    /// The number of characters kept of a bitstring of `len` characters.
    pub open spec fn width(self, len: int) -> int {
        match self {
            SelectionView::Range { range, subsystem_size } => {
                if Self::direct(range, subsystem_size) {
                    range.1 - range.0
                } else if len == 0 {
                    0
                } else {
                    assembled_len(len, range.0 as int, range.1 as int)
                }
            },
            SelectionView::Registers(registers) => registers.len() as int,
        }
    }

    /// The size of the subsystem that the estimate is about.
    pub open spec fn size(self) -> int {
        match self {
            SelectionView::Range { range, subsystem_size } => subsystem_size as int,
            SelectionView::Registers(registers) => registers.len() as int,
        }
    }

    /// The selection is a range that is cut out directly and selects as many
    /// positions as the subsystem has, for bitstrings that are `len`
    /// characters long and so have the size of the subsystem already.
    pub open spec fn keeps_whole(self, len: int) -> bool {
        self matches SelectionView::Range { range, subsystem_size } && Self::direct(
            range,
            subsystem_size,
        ) && range.1 - range.0 == subsystem_size && subsystem_size == len
    }

    /// The selection is refused for bitstrings of `len` characters: a range
    /// that is not cut out directly and reaches outside `[-len, len]`.
    pub open spec fn refused(self, len: int) -> bool {
        match self {
            SelectionView::Range { range, subsystem_size } => !Self::direct(range, subsystem_size)
                && slice_out_of_range(len, range.0 as int, range.1 as int),
            SelectionView::Registers(registers) => false,
        }
    }

    /// The selection has an answer for bitstrings of `len` characters. A
    /// range that is cut out directly lies in order within the bitstring;
    /// any other is a slice request that has an answer. Every register is
    /// one of the bitstring. What is kept is no longer than 32 bits can
    /// tell.
    pub open spec fn applies_to(self, len: int) -> bool {
        match self {
            SelectionView::Range { range, subsystem_size } => {
                if Self::direct(range, subsystem_size) {
                    range.0 <= range.1 <= len
                } else {
                    &&& slice_defined(len, range.0 as int, range.1 as int, 1)
                    &&& !slice_out_of_range(len, range.0 as int, range.1 as int) ==> self.width(
                        len,
                    ) <= i32::MAX
                }
            },
            SelectionView::Registers(registers) => {
                &&& registers.len() <= i32::MAX
                &&& len <= i32::MAX
                &&& forall|k: int| 0 <= k < registers.len() ==> 0 <= #[trigger] registers[k] < len
            },
        }
    }

    /// As many characters are kept as [`Self::width`] says: the number
    /// depends on the length of the bitstring alone.
    pub proof fn lemma_width(self, key: Seq<char>)
        requires
            self.applies_to(key.len() as int),
            !self.refused(key.len() as int),
        ensures
            self.substring(key).len() == self.width(key.len() as int),
            0 <= self.width(key.len() as int) <= i32::MAX,
    {
        match self {
            SelectionView::Range { range, subsystem_size } => {
                if !Self::direct(range, subsystem_size) && key.len() > 0 {
                    lemma_assembled_len(key, range.0 as int, range.1 as int);
                    lemma_strided_by_one(assembled(key, range.0 as int, range.1 as int));
                }
            },
            SelectionView::Registers(registers) => {},
        }
    }
}

impl Selection {
    /// Whether the selection has an answer for bitstrings of `len`
    /// characters.
    pub fn is_applicable(&self, len: usize) -> (applies: bool)
        ensures
            applies == self@.applies_to(len as int),
    {
        match self {
            Selection::Range { range, subsystem_size } => {
                if 0 <= range.0 && range.1 <= *subsystem_size {
                    range.0 <= range.1 && range.1 as u64 <= len as u64
                } else {
                    if len > 0x7fff_ffff {
                        return false;
                    }
                    let n: i64 = len as i64;
                    let a: i64 = range.0 as i64;
                    let b: i64 = range.1 as i64;
                    if a < -n || b > n || n == 0 {
                        return true;
                    }
                    let in_order: bool = if a >= 0 && b >= 0 {
                        a <= b
                    } else if a < 0 && b >= 0 {
                        true
                    } else if a >= 0 && b < 0 {
                        a <= b + n
                    } else {
                        a <= b
                    };
                    let kept: i64 = if a >= 0 && b < 0 {
                        b + n - a
                    } else {
                        b - a
                    };
                    in_order && kept <= 0x7fff_ffff
                }
            },
            Selection::Registers(registers) => {
                if registers.len() > 0x7fff_ffff || len > 0x7fff_ffff {
                    return false;
                }
                registers_within(registers, len)
            },
        }
    }

    /// The size of the subsystem that the estimate is about.
    pub fn subsystem_size(&self) -> (size: i32)
        requires
            self@.size() <= i32::MAX,
        ensures
            size == self@.size(),
    {
        match self {
            Selection::Range { range, subsystem_size } => *subsystem_size,
            Selection::Registers(registers) => registers.len() as i32,
        }
    }

    /// Cuts the kept part out of the bitstring `key`.
    pub fn pick(&self, key: &Vec<char>) -> (res: Result<Vec<char>, EstimatorError>)
        requires
            self@.applies_to(key@.len() as int),
        ensures
            self@.refused(key@.len() as int) ==> res == Err::<Vec<char>, EstimatorError>(
                EstimatorError::OutOfRange,
            ),
            !self@.refused(key@.len() as int) ==> res is Ok && res->Ok_0@ == self@.substring(key@),
    {
        match self {
            Selection::Range { range, subsystem_size } => {
                if 0 <= range.0 && range.1 <= *subsystem_size {
                    let mut kept: Vec<char> = Vec::new();
                    let mut i: usize = range.0 as usize;
                    let end: usize = range.1 as usize;
                    while i < end
                        invariant
                            range.0 <= i <= end <= key@.len(),
                            end == range.1,
                            0 <= range.0,
                            kept@ == key@.subrange(range.0 as int, i as int),
                        decreases end - i,
                    {
                        kept.push(key[i]);
                        assert(key@.subrange(range.0 as int, i + 1) == key@.subrange(
                            range.0 as int,
                            i as int,
                        ).push(key@[i as int]));
                        i = i + 1;
                    }
                    Ok(kept)
                } else {
                    slice_chars(key, range.0, range.1, 1)
                }
            },
            Selection::Registers(registers) => {
                let n: i32 = key.len() as i32;
                let mut kept: Vec<char> = Vec::new();
                let mut k: usize = 0;
                while k < registers.len()
                    invariant
                        k <= registers.len(),
                        n == key@.len(),
                        forall|j: int|
                            0 <= j < registers@.len() ==> 0 <= #[trigger] registers@[j] < n,
                        kept@.len() == k,
                        forall|j: int|
                            0 <= j < k ==> #[trigger] kept@[j] == key@[key@.len() - registers@[j]
                                - 1],
                    decreases registers.len() - k,
                {
                    let position: i32 = n - registers[k] - 1;
                    kept.push(key[position as usize]);
                    k = k + 1;
                }
                assert(kept@ =~= self@.substring(key@));
                Ok(kept)
            },
        }
    }
}

} // verus!
