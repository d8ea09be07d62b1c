//! Subsystem selection: from a requested degree to a half-open range of
//! register positions, and the default measurement window that follows it.

use vstd::prelude::*;
use crate::bits::{chars_of, string_of};
use crate::error::{EstimatorError, RangeViolations};

verus! {

/// The part of a register that a caller asks for.
#[derive(Clone, Copy, Debug, PartialEq, Eq, Structural)]
pub enum QubitDegree {
    /// Two boundary positions, in either order; negative ones count from the
    /// end of the register.
    Pair(i32, i32),
    /// The last `d` positions of the register.
    Single(i32),
}

/// The remainder of `x` by `n` that takes the sign of `x`.
pub open spec fn truncated_rem(x: int, n: int) -> int
    recommends
        n != 0,
{
    let m = if n < 0 {
        -n
    } else {
        n
    };
    if x >= 0 {
        x % m
    } else {
        -((-x) % m)
    }
}

/// Where one boundary position of a pair lands in a register of `n`
/// positions: `n` stays `n`, anything else is shifted by `n` and reduced.
pub open spec fn wrap_endpoint(d: int, n: int) -> int
    recommends
        d == n || n != 0,
{
    if d == n {
        n
    } else {
        truncated_rem(d + n, n)
    }
}

/// In a register that is not empty, a position from `-n` to `n - 1` lands
/// where counting from the end puts it: a negative one `n` further on, any
/// other where it is.
pub proof fn lemma_wrap_endpoint(d: int, n: int)
    requires
        n > 0,
        -n <= d < n,
    ensures
        0 <= wrap_endpoint(d, n) < n,
        wrap_endpoint(d, n) == d % n,
        wrap_endpoint(d, n) == if d < 0 {
            d + n
        } else {
            d
        },
{
    assert((d + n) % n == d % n && 0 <= d % n < n && (d >= 0 ==> d % n == d) && (d < 0 ==> d % n
        == d + n)) by (nonlinear_arith)
        requires
            n > 0,
            -n <= d < n,
    ;
}

/// The range that two boundary positions select in a register of `n`
/// positions: the two as they are where the first is negative and the second
/// positive, else both reduced into the register and put in order.
pub open spec fn paired_range(n: int, start: int, end: int) -> (int, int) {
    if start < 0 && end > 0 {
        (start, end)
    } else {
        let a = wrap_endpoint(start, n);
        let b = wrap_endpoint(end, n);
        if a <= b {
            (a, b)
        } else {
            (b, a)
        }
    }
}

/// The range selected in a register of `n` positions, for the requests that
/// [`selection_error`] lets pass.
pub open spec fn selected_range(n: int, degree: Option<QubitDegree>) -> (int, int) {
    match degree {
        None => (0, n),
        Some(QubitDegree::Single(d)) => (n - d, n),
        Some(QubitDegree::Pair(start, end)) => paired_range(n, start as int, end as int),
    }
}

/// What the selection of a single count `d` gives.
pub open spec fn single_selection(n: i32, d: i32) -> Result<(i32, i32), EstimatorError> {
    if d > n {
        Err(EstimatorError::OutOfRange)
    } else if d < 0 {
        Err(EstimatorError::InvalidArgument)
    } else {
        Ok(((n - d) as i32, n))
    }
}

/// The failure, if any, with which a request is refused.
pub open spec fn selection_error(n: int, degree: Option<QubitDegree>) -> Option<EstimatorError> {
    match degree {
        Some(QubitDegree::Single(d)) => {
            if d > n {
                Some(EstimatorError::OutOfRange)
            } else if d < 0 {
                Some(EstimatorError::InvalidArgument)
            } else {
                None
            }
        },
        _ => None,
    }
}

/// The requests that have an answer: the whole of a register needs a size
/// that is not negative, and reducing a boundary position needs a size that
/// is not zero.
pub open spec fn selection_defined(n: int, degree: Option<QubitDegree>) -> bool {
    match degree {
        None => n >= 0,
        Some(QubitDegree::Single(_)) => true,
        Some(QubitDegree::Pair(start, end)) => (start < 0 && end > 0) || n != 0 || (start == 0
            && end == 0),
    }
}

/// Executable form of [`selection_defined`].
pub fn selection_is_defined(num_qubits: i32, degree: Option<QubitDegree>) -> (defined: bool)
    ensures
        defined == selection_defined(num_qubits as int, degree),
{
    match degree {
        None => num_qubits >= 0,
        Some(QubitDegree::Single(_)) => true,
        Some(QubitDegree::Pair(start, end)) => (start < 0 && end > 0) || num_qubits != 0 || (start
            == 0 && end == 0),
    }
}

fn wrap_endpoint_exec(d: i32, n: i32) -> (r: i32)
    requires
        d == n || n != 0,
    ensures
        r == wrap_endpoint(d as int, n as int),
{
    if d == n {
        n
    } else {
        let x: i64 = d as i64 + n as i64;
        let m: i64 = if n < 0 {
            -(n as i64)
        } else {
            n as i64
        };
        let r: i64 = if x >= 0 {
            x % m
        } else {
            -((-x) % m)
        };
        r as i32
    }
}

/// Maps a requested degree to a half-open range `(a, b)` of positions in a
/// register of `num_qubits` positions.
///
/// No degree selects the whole register. A single count `d` selects the last
/// `d` positions, and is refused when it exceeds the register or is negative.
/// A pair with a negative start and a positive end is handed back as it is;
/// any other pair has both ends reduced into the register and is then put in
/// order.
pub fn qubit_selector_rust(num_qubits: i32, degree: Option<QubitDegree>) -> (res: Result<
    (i32, i32),
    EstimatorError,
>)
    requires
        selection_defined(num_qubits as int, degree),
    ensures
        match selection_error(num_qubits as int, degree) {
            Some(e) => res == Err::<(i32, i32), EstimatorError>(e),
            None => res is Ok && (res->Ok_0.0 as int, res->Ok_0.1 as int) == selected_range(
                num_qubits as int,
                degree,
            ),
        },
        res is Ok ==> res->Ok_0.0 <= res->Ok_0.1,
        degree is None ==> res == Ok::<(i32, i32), EstimatorError>((0, num_qubits)),
        degree matches Some(QubitDegree::Single(d)) ==> res == single_selection(num_qubits, d),
{
    match degree {
        None => Ok((0, num_qubits)),
        Some(QubitDegree::Single(d)) => {
            if d > num_qubits {
                Err(EstimatorError::OutOfRange)
            } else if d < 0 {
                Err(EstimatorError::InvalidArgument)
            } else {
                Ok((num_qubits - d, num_qubits))
            }
        },
        Some(QubitDegree::Pair(start, end)) => {
            if start < 0 && end > 0 {
                Ok((start, end))
            } else {
                let a: i32 = wrap_endpoint_exec(start, num_qubits);
                let b: i32 = wrap_endpoint_exec(end, num_qubits);
                if a <= b {
                    Ok((a, b))
                } else {
                    Ok((b, a))
                }
            }
        },
    }
}

/// The conditions that a range `[a, b)` over a register of `n` positions
/// breaks: it must not be empty, start below `-n`, end beyond `n`, or be
/// wider than the register.
pub open spec fn range_violations(range: (int, int), n: int) -> RangeViolations {
    RangeViolations {
        empty_or_reversed: !(range.1 > range.0),
        start_below_register: !(range.0 >= -n),
        end_beyond_register: !(range.1 <= n),
        wider_than_register: !(range.1 - range.0 <= n),
    }
}

/// The failure, if any, with which a degree is refused for a register of
/// `n` positions: that of the selection, else the conditions that the
/// selected range breaks.
pub open spec fn resolution_error(n: int, degree: Option<QubitDegree>) -> Option<EstimatorError> {
    match selection_error(n, degree) {
        Some(e) => Some(e),
        None => {
            let violations = range_violations(selected_range(n, degree), n);
            if violations.any() {
                Some(EstimatorError::Configuration(violations))
            } else {
                None
            }
        },
    }
}

/// The measurement window of a request: the one given, else the one selected
/// by the two ends of the resolved range, taken as a pair.
pub open spec fn measure_window(n: int, range: (int, int), measure: Option<(i32, i32)>) -> (
    int,
    int,
) {
    match measure {
        Some(m) => (m.0 as int, m.1 as int),
        None => paired_range(n, range.0, range.1),
    }
}

/// What resolving a degree and a measurement window gives for a register of
/// `n` positions: the failure of [`resolution_error`], else the selected
/// range, the measurement window and the number of positions in the range.
pub open spec fn resolution(
    n: int,
    degree: Option<QubitDegree>,
    measure: Option<(i32, i32)>,
) -> Result<((int, int), (int, int), int), EstimatorError> {
    match resolution_error(n, degree) {
        Some(e) => Err(e),
        None => {
            let range = selected_range(n, degree);
            Ok((range, measure_window(n, range, measure), range.1 - range.0))
        },
    }
}

/// A resolved range, window and size as mathematical integers.
pub open spec fn resolved_ints(resolved: ((i32, i32), (i32, i32), i32)) -> (
    (int, int),
    (int, int),
    int,
) {
    (
        (resolved.0.0 as int, resolved.0.1 as int),
        (resolved.1.0 as int, resolved.1.1 as int),
        resolved.2 as int,
    )
}

/// A range that breaks none of its conditions lies in a register that is
/// not empty, and is the window measured by default unless it ends at or
/// before position zero after a negative start.
pub proof fn lemma_default_window(n: int, range: (i32, i32))
    requires
        !range_violations((range.0 as int, range.1 as int), n).any(),
    ensures
        n > 0,
        selection_defined(n, Some(QubitDegree::Pair(range.0, range.1))),
        range.0 >= 0 || range.1 > 0 ==> measure_window(
            n,
            (range.0 as int, range.1 as int),
            None,
        ) == (range.0 as int, range.1 as int),
{
    if range.0 >= 0 {
        let a = range.0 as int;
        let b = range.1 as int;
        assert(truncated_rem(a + n, n) == a) by (nonlinear_arith)
            requires
                0 <= a < n,
        {
            assert((a + n) % n == a);
        }
        if b != n {
            assert(truncated_rem(b + n, n) == b) by (nonlinear_arith)
                requires
                    0 <= b < n,
            {
                assert((b + n) % n == b);
            }
        }
    }
}

fn violations_of(range: (i32, i32), n: i32) -> (violations: RangeViolations)
    ensures
        violations == range_violations((range.0 as int, range.1 as int), n as int),
{
    let a: i64 = range.0 as i64;
    let b: i64 = range.1 as i64;
    let size: i64 = n as i64;
    RangeViolations {
        empty_or_reversed: !(b > a),
        start_below_register: !(a >= -size),
        end_beyond_register: !(b <= size),
        wider_than_register: !(b - a <= size),
    }
}

/// Resolves a degree and a measurement window for a register of
/// `allsystems_size` positions, and hands back the range, the window and
/// the size of the subsystem.
///
/// The degree is selected as by [`qubit_selector_rust`], whose failures are
/// handed on. The selected range is then held against its four conditions,
/// and refused with every violated one if any is. A window that the caller
/// gives is kept; without one, the two ends of the range select it.
pub fn degree_handler_rust(
    allsystems_size: i32,
    degree: Option<QubitDegree>,
    measure: Option<(i32, i32)>,
) -> (res: Result<((i32, i32), (i32, i32), i32), EstimatorError>)
    requires
        selection_defined(allsystems_size as int, degree),
    ensures
        match resolution(allsystems_size as int, degree, measure) {
            Err(e) => res == Err::<((i32, i32), (i32, i32), i32), EstimatorError>(e),
            Ok(resolved) => res is Ok && resolved_ints(res->Ok_0) == resolved,
        },
        res matches Ok((range, window, size)) ==> {
            &&& range.0 < range.1
            &&& -allsystems_size <= range.0
            &&& range.1 <= allsystems_size
            &&& size == range.1 - range.0
            &&& 0 < size <= allsystems_size
        },
{
    let actual_deg: (i32, i32) = match qubit_selector_rust(allsystems_size, degree) {
        Ok(range) => range,
        Err(e) => {
            return Err(e);
        },
    };
    let violations = violations_of(actual_deg, allsystems_size);
    if violations.is_any() {
        return Err(EstimatorError::Configuration(violations));
    }
    let subsystems_size: i32 = actual_deg.1 - actual_deg.0;
    let actual_measure: (i32, i32) = match measure {
        Some(m) => m,
        None => {
            proof {
                lemma_default_window(allsystems_size as int, actual_deg);
            }
            match qubit_selector_rust(
                allsystems_size,
                Some(QubitDegree::Pair(actual_deg.0, actual_deg.1)),
            ) {
                Ok(window) => window,
                Err(e) => {
                    return Err(e);
                },
            }
        },
    };
    Ok((actual_deg, actual_measure, subsystems_size))
}

/// A slice request reaches outside a bitstring of `len` characters.
pub open spec fn slice_out_of_range(len: int, start: int, end: int) -> bool {
    start < -len || end > len
}

/// The bounds of a slice request, negative ones shifted by `len`, do not run
/// backwards. A negative start with an end that is not negative wraps round
/// the end of the bitstring and is always in order.
pub open spec fn slice_in_order(len: int, start: int, end: int) -> bool {
    if start >= 0 && end >= 0 {
        start <= end
    } else if start < 0 && end >= 0 {
        true
    } else if start >= 0 && end < 0 {
        start <= end + len
    } else {
        start <= end
    }
}

/// The number of characters that the bounds of a slice request select.
pub open spec fn assembled_len(len: int, start: int, end: int) -> int {
    if start >= 0 && end >= 0 {
        end - start
    } else if start < 0 && end >= 0 {
        end - start
    } else if start >= 0 && end < 0 {
        end + len - start
    } else {
        end - start
    }
}

/// The characters that the bounds of a slice request select: a forward
/// piece of `target`, or, for a negative start with an end that is not
/// negative, the tail from `start + len` followed by the head up to `end`.
pub open spec fn assembled(target: Seq<char>, start: int, end: int) -> Seq<char>
    recommends
        !slice_out_of_range(target.len() as int, start, end),
        slice_in_order(target.len() as int, start, end),
{
    let len = target.len() as int;
    if start >= 0 && end >= 0 {
        target.subrange(start, end)
    } else if start < 0 && end >= 0 {
        target.subrange(start + len, len) + target.subrange(0, end)
    } else if start >= 0 && end < 0 {
        target.subrange(start, end + len)
    } else {
        target.subrange(start + len, end + len)
    }
}

/// Every `step`-th character of `s`, starting with the first. A negative
/// step is further than any bitstring is long: it keeps the first character
/// alone.
pub open spec fn strided(s: Seq<char>, step: int) -> Seq<char>
    recommends
        step != 0 || s.len() == 0,
{
    if step >= 1 {
        Seq::new(((s.len() + step - 1) / step) as nat, |k: int| s[k * step])
    } else if s.len() == 0 {
        s
    } else {
        seq![s[0]]
    }
}

/// The slice requests that have an answer for a bitstring of `len`
/// characters: its length can be told in 32 bits, and, unless the request is
/// refused or the bitstring empty, the bounds are in order and the step is
/// not zero where there is a character to step over.
pub open spec fn slice_defined(len: int, start: int, end: int, step: int) -> bool {
    &&& len <= i32::MAX
    &&& slice_out_of_range(len, start, end) || len == 0 || {
        &&& slice_in_order(len, start, end)
        &&& step != 0 || assembled_len(len, start, end) == 0
    }
}

/// The slice of a bitstring: the bitstring itself when it is empty, else
/// every `step`-th of the characters that the bounds select.
pub open spec fn cyclic_slice(target: Seq<char>, start: int, end: int, step: int) -> Seq<char>
    recommends
        !slice_out_of_range(target.len() as int, start, end),
        slice_defined(target.len() as int, start, end, step),
{
    if target.len() == 0 {
        target
    } else {
        strided(assembled(target, start, end), step)
    }
}

/// With step one a bitstring is kept whole.
pub proof fn lemma_strided_by_one(s: Seq<char>)
    ensures
        strided(s, 1) == s,
{
    assert(strided(s, 1) =~= s);
}

/// The bounds of a slice request select as many characters as
/// [`assembled_len`] says.
pub proof fn lemma_assembled_len(target: Seq<char>, start: int, end: int)
    requires
        !slice_out_of_range(target.len() as int, start, end),
        slice_in_order(target.len() as int, start, end),
    ensures
        assembled(target, start, end).len() == assembled_len(target.len() as int, start, end),
{
}

/// Executable form of [`slice_defined`].
pub fn slice_is_defined(len: usize, start: i32, end: i32, step: i32) -> (defined: bool)
    ensures
        defined == slice_defined(len as int, start as int, end as int, step as int),
{
    if len > 0x7fff_ffff {
        return false;
    }
    let n: i64 = len as i64;
    let s: i64 = start as i64;
    let e: i64 = end as i64;
    if s < -n || e > n || n == 0 {
        return true;
    }
    let in_order: bool = if s >= 0 && e >= 0 {
        s <= e
    } else if s < 0 && e >= 0 {
        true
    } else if s >= 0 && e < 0 {
        s <= e + n
    } else {
        s <= e
    };
    let selected: i64 = if s >= 0 && e < 0 {
        e + n - s
    } else {
        e - s
    };
    in_order && (step != 0 || selected == 0)
}

fn push_range(out: &mut Vec<char>, target: &Vec<char>, from: usize, to: usize)
    requires
        from <= to <= target.len(),
    ensures
        final(out)@ == old(out)@ + target@.subrange(from as int, to as int),
{
    let mut i: usize = from;
    while i < to
        invariant
            from <= i <= to <= target.len(),
            out@ == old(out)@ + target@.subrange(from as int, i as int),
        decreases to - i,
    {
        out.push(target[i]);
        assert(target@.subrange(from as int, i + 1) == target@.subrange(from as int, i as int).push(
            target@[i as int],
        ));
        i = i + 1;
    }
}

fn strided_of(s: &Vec<char>, step: i32) -> (out: Vec<char>)
    requires
        step != 0 || s.len() == 0,
        s.len() <= 2 * i32::MAX,
    ensures
        out@ == strided(s@, step as int),
{
    let mut out: Vec<char> = Vec::new();
    if step < 0 || s.len() == 0 {
        if s.len() > 0 {
            out.push(s[0]);
        }
        assert(step >= 1 ==> (step - 1) / (step as int) == 0) by (nonlinear_arith);
        assert(out@ =~= strided(s@, step as int));
        return out;
    }
    let len: u64 = s.len() as u64;
    let stride: u64 = step as u64;
    let mut i: u64 = 0;
    let ghost mut k: int = 0;
    while i < len
        invariant
            stride == step,
            stride >= 1,
            len == s.len(),
            len <= 2 * i32::MAX,
            i == k * stride,
            0 <= k,
            i < len + stride,
            out@.len() == k,
            forall|j: int| 0 <= j < k ==> out@[j] == s@[j * stride],
        decreases len + stride - i,
    {
        out.push(s[i as usize]);
        proof {
            assert((k + 1) * stride == k * stride + stride) by (nonlinear_arith);
            k = k + 1;
        }
        i = i + stride;
    }
    proof {
        let total = (len + stride - 1) / (stride as int);
        assert(k == total) by (nonlinear_arith)
            requires
                stride >= 1,
                0 <= k,
                k * stride >= len,
                k * stride < len + stride,
                total == (len + stride - 1) / (stride as int),
        ;
        assert(out@ =~= strided(s@, step as int));
    }
    out
}

/// The slice of `target` on its characters.
pub fn slice_chars(target: &Vec<char>, start: i32, end: i32, step: i32) -> (res: Result<
    Vec<char>,
    EstimatorError,
>)
    requires
        slice_defined(target@.len() as int, start as int, end as int, step as int),
    ensures
        slice_out_of_range(target@.len() as int, start as int, end as int) ==> res == Err::<
            Vec<char>,
            EstimatorError,
        >(EstimatorError::OutOfRange),
        !slice_out_of_range(target@.len() as int, start as int, end as int) ==> res is Ok
            && res->Ok_0@ == cyclic_slice(target@, start as int, end as int, step as int),
{
    let length: i32 = target.len() as i32;
    if start < -length || length < end {
        return Err(EstimatorError::OutOfRange);
    }
    let mut picked: Vec<char> = Vec::new();
    if length == 0 {
        return Ok(picked);
    }
    let len: usize = target.len();
    if start >= 0 && end >= 0 {
        push_range(&mut picked, target, start as usize, end as usize);
    } else if start < 0 && end >= 0 {
        push_range(&mut picked, target, (start + length) as usize, len);
        push_range(&mut picked, target, 0, end as usize);
    } else if start >= 0 && end < 0 {
        push_range(&mut picked, target, start as usize, (end + length) as usize);
    } else {
        push_range(&mut picked, target, (start + length) as usize, (end + length) as usize);
    }
    assert(picked@ =~= assembled(target@, start as int, end as int));
    Ok(strided_of(&picked, step))
}

/// Extracts from `target` the characters between `start` and `end`, keeping
/// every `step`-th of them.
///
/// Bounds outside `[-L, L]`, for `L` characters, are refused. An empty
/// target is handed back. Negative bounds count from the end, and a negative
/// start with an end that is not negative selects the tail of the target
/// followed by its head.
pub fn cycling_slice_rust(target: &str, start: i32, end: i32, step: i32) -> (res: Result<
    String,
    EstimatorError,
>)
    requires
        slice_defined(target@.len() as int, start as int, end as int, step as int),
    ensures
        slice_out_of_range(target@.len() as int, start as int, end as int) ==> res == Err::<
            String,
            EstimatorError,
        >(EstimatorError::OutOfRange),
        !slice_out_of_range(target@.len() as int, start as int, end as int) ==> res is Ok
            && res->Ok_0@ == cyclic_slice(target@, start as int, end as int, step as int),
{
    let chars = chars_of(target);
    match slice_chars(&chars, start, end, step) {
        Ok(picked) => Ok(string_of(&picked)),
        Err(e) => Err(e),
    }
}

} // verus!
