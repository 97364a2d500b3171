use vstd::prelude::*;

verus! {

/// `c` is an ASCII decimal digit.
pub open spec fn is_digit(c: u8) -> bool {
    48 <= c <= 57
}

/// The first position at or after `i` that does not hold a digit.
pub open spec fn digits_end(t: Seq<u8>, i: int) -> int
    decreases t.len() - i,
{
    if 0 <= i < t.len() && is_digit(t[i]) {
        digits_end(t, i + 1)
    } else {
        i
    }
}

/// The number that the decimal digits `s` spell.
pub open spec fn decimal(s: Seq<u8>) -> nat
    decreases s.len(),
{
    if s.len() == 0 {
        0
    } else {
        decimal(s.drop_last()) * 10 + (s.last() - 48) as nat
    }
}

/// `t` holds `w` from position `i` on.
pub open spec fn starts_with(t: Seq<u8>, i: int, w: Seq<u8>) -> bool {
    0 <= i && i + w.len() <= t.len() && t.subrange(i, i + w.len()) == w
}

/// The text `mul(`.
pub open spec fn mul_open() -> Seq<u8> {
    seq![109u8, 117u8, 108u8, 40u8]
}

/// The text `do()`.
pub open spec fn do_word() -> Seq<u8> {
    seq![100u8, 111u8, 40u8, 41u8]
}

/// The text `don't()`.
pub open spec fn dont_word() -> Seq<u8> {
    seq![100u8, 111u8, 110u8, 39u8, 116u8, 40u8, 41u8]
}

/// Where the first operand of a `mul` at `i` ends.
pub open spec fn left_end(t: Seq<u8>, i: int) -> int {
    digits_end(t, i + 4)
}

/// Where the second operand of a `mul` at `i` ends.
pub open spec fn right_end(t: Seq<u8>, i: int) -> int {
    digits_end(t, left_end(t, i) + 1)
}

/// `t` holds `mul(A,B)` from position `i` on, `A` and `B` each one or more digits.
pub open spec fn mul_at(t: Seq<u8>, i: int) -> bool {
    &&& starts_with(t, i, mul_open())
    &&& left_end(t, i) > i + 4
    &&& left_end(t, i) < t.len()
    &&& t[left_end(t, i)] == 44
    &&& right_end(t, i) > left_end(t, i) + 1
    &&& right_end(t, i) < t.len()
    &&& t[right_end(t, i)] == 41
}

/// The first operand of the `mul` at `i`.
pub open spec fn left_of(t: Seq<u8>, i: int) -> nat {
    decimal(t.subrange(i + 4, left_end(t, i)))
}

/// The second operand of the `mul` at `i`.
pub open spec fn right_of(t: Seq<u8>, i: int) -> nat {
    decimal(t.subrange(left_end(t, i) + 1, right_end(t, i)))
}

/// Reading `t` from `i` on and taking each `mul(A,B)` where it starts, the sum of the
/// products `A * B`.
pub open spec fn mul_sum(t: Seq<u8>, i: int) -> int
    decreases t.len() - i,
{
    if i < 0 || i >= t.len() {
        0
    } else if mul_at(t, i) {
        left_of(t, i) * right_of(t, i) + mul_sum(t, right_end(t, i) + 1)
    } else {
        mul_sum(t, i + 1)
    }
}

/// Reading `t` from `i` on, every operand of a `mul` that is taken fits in `limit`.
pub open spec fn operands_fit(t: Seq<u8>, i: int, limit: nat) -> bool
    decreases t.len() - i,
{
    if i < 0 || i >= t.len() {
        true
    } else if mul_at(t, i) {
        left_of(t, i) <= limit && right_of(t, i) <= limit && operands_fit(
            t,
            right_end(t, i) + 1,
            limit,
        )
    } else {
        operands_fit(t, i + 1, limit)
    }
}

/// Reading `t` from `i` on with products counted while `on`: each `mul(A,B)` adds `A * B`
/// when counted, `don't()` stops the counting and `do()` starts it again.
pub open spec fn switched_sum(t: Seq<u8>, i: int, on: bool) -> int
    decreases t.len() - i,
{
    if i < 0 || i >= t.len() {
        0
    } else if mul_at(t, i) {
        (if on {
            left_of(t, i) * right_of(t, i)
        } else {
            0
        }) + switched_sum(t, right_end(t, i) + 1, on)
    } else if starts_with(t, i, dont_word()) {
        switched_sum(t, i + 7, false)
    } else if starts_with(t, i, do_word()) {
        switched_sum(t, i + 4, true)
    } else {
        switched_sum(t, i + 1, on)
    }
}

/// Reading `t` from `i` on with products counted while `on`, every operand of a counted
/// `mul` fits in `limit`.
pub open spec fn switched_fit(t: Seq<u8>, i: int, on: bool, limit: nat) -> bool
    decreases t.len() - i,
{
    if i < 0 || i >= t.len() {
        true
    } else if mul_at(t, i) {
        (on ==> left_of(t, i) <= limit && right_of(t, i) <= limit) && switched_fit(
            t,
            right_end(t, i) + 1,
            on,
            limit,
        )
    } else if starts_with(t, i, dont_word()) {
        switched_fit(t, i + 7, false, limit)
    } else if starts_with(t, i, do_word()) {
        switched_fit(t, i + 4, true, limit)
    } else {
        switched_fit(t, i + 1, on, limit)
    }
}

/// Reads the run of digits that starts at `j`: where it ends, and its value when that is at
/// most `limit`.
fn read_number(t: &[u8], j: usize, limit: u64) -> (r: (usize, Option<u64>))
    requires
        j <= t@.len(),
        limit <= u32::MAX,
    ensures
        r.0 == digits_end(t@, j as int),
        j <= r.0 <= t@.len(),
        r.1 == if decimal(t@.subrange(j as int, r.0 as int)) <= limit {
            Some(decimal(t@.subrange(j as int, r.0 as int)) as u64)
        } else {
            None::<u64>
        },
{
    let mut k: usize = j;
    let mut value: u64 = 0;
    let mut big = false;
    while k < t.len() && t[k] >= 48 && t[k] <= 57
        invariant
            j <= k <= t@.len(),
            limit <= u32::MAX,
            digits_end(t@, j as int) == digits_end(t@, k as int),
            big ==> decimal(t@.subrange(j as int, k as int)) > limit,
            !big ==> value == decimal(t@.subrange(j as int, k as int)) && value <= limit,
        decreases t@.len() - k,
    {
        let d = t[k] - 48;
        proof {
            let s = t@.subrange(j as int, k + 1);
            assert(s.drop_last() == t@.subrange(j as int, k as int));
            assert(s.last() == t@[k as int]);
        }
        if !big {
            let next = value * 10 + d as u64;
            if next > limit {
                big = true;
            } else {
                value = next;
            }
        }
        k += 1;
    }
    if big {
        (k, None)
    } else {
        (k, Some(value))
    }
}

/// Whether `t` holds `w` from position `i` on.
fn word_at(t: &[u8], i: usize, w: &[u8]) -> (r: bool)
    ensures
        r == starts_with(t@, i as int, w@),
{
    let n = t.len();
    if i > n || w.len() > n - i {
        return false;
    }
    let mut k: usize = 0;
    while k < w.len()
        invariant
            n == t@.len(),
            i + w@.len() <= t@.len(),
            k <= w@.len(),
            forall|m: int| 0 <= m < k ==> t@[i + m] == w@[m],
        decreases w@.len() - k,
    {
        assert(i + k < t@.len());
        if t[i + k] != w[k] {
            assert(t@.subrange(i as int, i + w@.len())[k as int] != w@[k as int]);
            return false;
        }
        k += 1;
    }
    assert(t@.subrange(i as int, i + w@.len()) =~= w@);
    true
}

/// What stands at position `i`: a `mul(A,B)` with where it ends and its operands when they
/// fit in `limit`, or nothing of that shape.
fn mul_here(t: &[u8], i: usize, limit: u64) -> (r: Option<(usize, Option<(u64, u64)>)>)
    requires
        i < t@.len(),
        limit <= u32::MAX,
    ensures
        match r {
            None => !mul_at(t@, i as int),
            Some((end, ops)) => mul_at(t@, i as int) && end == right_end(t@, i as int) + 1
                && ops == if left_of(t@, i as int) <= limit && right_of(t@, i as int) <= limit {
                Some((left_of(t@, i as int) as u64, right_of(t@, i as int) as u64))
            } else {
                None::<(u64, u64)>
            },
        },
{
    let open: [u8; 4] = [109, 117, 108, 40];
    assert(open@ == mul_open());
    if !word_at(t, i, open.as_slice()) {
        return None;
    }
    let n = t.len();
    assert(i + 4 <= n);
    let (e1, a) = read_number(t, i + 4, limit);
    if e1 == i + 4 || e1 >= t.len() || t[e1] != 44 {
        return None;
    }
    let (e2, b) = read_number(t, e1 + 1, limit);
    if e2 == e1 + 1 || e2 >= t.len() || t[e2] != 41 {
        return None;
    }
    match (a, b) {
        (Some(x), Some(y)) => Some((e2 + 1, Some((x, y)))),
        _ => Some((e2 + 1, None)),
    }
}

/// The sum of the products of every `mul(A,B)` in `t`, each taken where it starts; `None` when
/// an operand exceeds `u32::MAX`.
pub fn part1(t: &[u8]) -> (r: Option<u128>)
    ensures
        r == if operands_fit(t@, 0, u32::MAX as nat) {
            Some(mul_sum(t@, 0) as u128)
        } else {
            None::<u128>
        },
{
    let mut sum: u128 = 0;
    let mut i: usize = 0;
    while i < t.len()
        invariant
            i <= t@.len(),
            sum + mul_sum(t@, i as int) == mul_sum(t@, 0),
            operands_fit(t@, 0, u32::MAX as nat) == operands_fit(t@, i as int, u32::MAX as nat),
            0 <= sum <= i * 0x1_0000_0000_0000_0000,
        decreases t@.len() - i,
    {
        match mul_here(t, i, 0xffff_ffff) {
            None => {
                i += 1;
            },
            Some((end, None)) => {
                return None;
            },
            Some((end, Some((a, b)))) => {
                assert(a * b <= 0xffff_ffff * 0xffff_ffff) by (nonlinear_arith)
                    requires
                        a <= 0xffff_ffff,
                        b <= 0xffff_ffff,
                ;
                sum = sum + a as u128 * b as u128;
                i = end;
            },
        }
    }
    Some(sum)
}

/// The sum of the products of the `mul(A,B)` in `t` that no `don't()` has switched off since
/// the last `do()`; `None` when an operand of a counted `mul` exceeds `i32::MAX`.
pub fn part2(t: &[u8]) -> (r: Option<u128>)
    ensures
        r == if switched_fit(t@, 0, true, i32::MAX as nat) {
            Some(switched_sum(t@, 0, true) as u128)
        } else {
            None::<u128>
        },
{
    let dont: [u8; 7] = [100, 111, 110, 39, 116, 40, 41];
    let dos: [u8; 4] = [100, 111, 40, 41];
    assert(dont@ == dont_word());
    assert(dos@ == do_word());
    let mut on = true;
    let mut sum: u128 = 0;
    let mut i: usize = 0;
    while i < t.len()
        invariant
            dont@ == dont_word(),
            dos@ == do_word(),
            i <= t@.len(),
            sum + switched_sum(t@, i as int, on) == switched_sum(t@, 0, true),
            switched_fit(t@, 0, true, i32::MAX as nat) == switched_fit(
                t@,
                i as int,
                on,
                i32::MAX as nat,
            ),
            0 <= sum <= i * 0x1_0000_0000_0000_0000,
        decreases t@.len() - i,
    {
        match mul_here(t, i, 0x7fff_ffff) {
            None => {
                if word_at(t, i, dont.as_slice()) {
                    on = false;
                    i += 7;
                } else if word_at(t, i, dos.as_slice()) {
                    on = true;
                    i += 4;
                } else {
                    i += 1;
                }
            },
            Some((end, ops)) => {
                if on {
                    match ops {
                        None => {
                            return None;
                        },
                        Some((a, b)) => {
                            assert(a * b <= 0xffff_ffff * 0xffff_ffff) by (nonlinear_arith)
                                requires
                                    a <= 0xffff_ffff,
                                    b <= 0xffff_ffff,
                            ;
                            sum = sum + a as u128 * b as u128;
                        },
                    }
                }
                i = end;
            },
        }
    }
    Some(sum)
}

} // verus!
