use vstd::prelude::*;

verus! {

/// Whether `x` fits in an `i64`.
pub open spec fn fits_i64(x: int) -> bool {
    i64::MIN <= x <= i64::MAX
}

/// The smallest power of ten above `h`, and at least 10: what shifts a number left to make
/// room for the digits of `h`.
pub open spec fn digit_shift(h: nat) -> nat
    decreases h,
{
    if h < 10 {
        10
    } else {
        10 * digit_shift(h / 10)
    }
}

/// The number whose decimal digits are those of `v` followed by those of `h` (`h >= 0`).
pub open spec fn concat(v: int, h: int) -> int {
    if v >= 0 {
        v * digit_shift(h as nat) + h
    } else {
        v * digit_shift(h as nat) - h
    }
}

/// Some choice of operators, applied left to right to `acc` and then to each of `nums` in
/// turn, yields `target`. The operators are `+` and `*`, and with `with_concat` also digit
/// concatenation. A choice whose running value leaves the range of `i64` does not count.
pub open spec fn reaches(target: int, acc: int, nums: Seq<i64>, with_concat: bool) -> bool
    decreases nums.len(),
{
    if nums.len() == 0 {
        acc == target
    } else {
        let h = nums[0] as int;
        let t = nums.subrange(1, nums.len() as int);
        (fits_i64(acc * h) && reaches(target, acc * h, t, with_concat)) || (fits_i64(acc + h)
            && reaches(target, acc + h, t, with_concat)) || (with_concat && fits_i64(
            concat(acc, h),
        ) && reaches(target, concat(acc, h), t, with_concat))
    }
}

/// An equation: a test value and the numbers that operators should combine into it.
pub struct Equation {
    pub value: i64,
    pub numbers: Vec<i64>,
}

/// `concat(v, h)` when it fits in an `i64`.
pub fn concat_digits(v: i64, h: i64) -> (r: Option<i64>)
    requires
        h >= 0,
    ensures
        r == (if fits_i64(concat(v as int, h as int)) {
            Some(concat(v as int, h as int) as i64)
        } else {
            None::<i64>
        }),
{
    let shift = shift_of(h);
    match (v as i128).checked_mul(shift) {
        None => {
            assert(!fits_i64(concat(v as int, h as int))) by (nonlinear_arith)
                requires
                    !(i128::MIN <= v * shift <= i128::MAX),
                    shift == digit_shift(h as nat),
                    0 <= h <= i64::MAX,
            ;
            None
        },
        Some(m) => {
            assert(v >= 0 ==> m >= 0) by (nonlinear_arith)
                requires
                    m == v * shift,
                    shift >= 10,
            ;
            assert(v < 0 ==> m < 0) by (nonlinear_arith)
                requires
                    m == v * shift,
                    shift >= 10,
            ;
            if m > i64::MAX as i128 || m < i64::MIN as i128 {
                return None;
            }
            let wide: i128 = if v >= 0 {
                m + h as i128
            } else {
                m - h as i128
            };
            if wide < i64::MIN as i128 || wide > i64::MAX as i128 {
                None
            } else {
                Some(wide as i64)
            }
        },
    }
}

impl Equation {
    /// Whether `+` and `*`, applied left to right from `v` over `nums`, can yield the test value.
    pub fn is_valid(&self, v: i64, nums: &[i64]) -> (r: bool)
        ensures
            r == reaches(self.value as int, v as int, nums@, false),
        decreases nums.len(),
    {
        if nums.len() == 0 {
            return self.value == v;
        }
        let h = nums[0];
        let t = slice_tail(nums);
        let by_mul = match v.checked_mul(h) {
            Some(p) => self.is_valid(p, t),
            None => false,
        };
        let by_add = match v.checked_add(h) {
            Some(s) => self.is_valid(s, t),
            None => false,
        };
        by_mul || by_add
    }

    /// Whether `+`, `*` and digit concatenation, applied left to right from `v` over `nums`, can
    /// yield the test value.
    pub fn is_valid2(&self, v: i64, nums: &[i64]) -> (r: bool)
        requires
            forall|k: int| 0 <= k < nums@.len() ==> nums@[k] >= 0,
        ensures
            r == reaches(self.value as int, v as int, nums@, true),
        decreases nums.len(),
    {
        if nums.len() == 0 {
            return self.value == v;
        }
        let h = nums[0];
        let t = slice_tail(nums);
        assert(forall|k: int| 0 <= k < t@.len() ==> t@[k] == nums@[k + 1]);
        let by_mul = match v.checked_mul(h) {
            Some(p) => self.is_valid2(p, t),
            None => false,
        };
        let by_add = match v.checked_add(h) {
            Some(s) => self.is_valid2(s, t),
            None => false,
        };
        let by_concat = match concat_digits(v, h) {
            Some(c) => self.is_valid2(c, t),
            None => false,
        };
        by_mul || by_add || by_concat
    }
}

/// `nums` without its first entry.
fn slice_tail(nums: &[i64]) -> (t: &[i64])
    requires
        nums@.len() > 0,
    ensures
        t@ == nums@.subrange(1, nums@.len() as int),
{
    let (_, t) = nums.split_at(1);
    t
}

/// The numbers of `e` can be combined into its test value, with or without concatenation.
pub open spec fn solvable(e: Equation, with_concat: bool) -> bool {
    e.numbers@.len() > 0 && reaches(
        e.value as int,
        e.numbers@[0] as int,
        e.numbers@.subrange(1, e.numbers@.len() as int),
        with_concat,
    )
}

/// The sum of the test values of the solvable equations of `eqs`.
pub open spec fn calibration(eqs: Seq<Equation>, with_concat: bool) -> int
    decreases eqs.len(),
{
    if eqs.len() == 0 {
        0
    } else {
        calibration(eqs.drop_last(), with_concat) + if solvable(eqs.last(), with_concat) {
            eqs.last().value as int
        } else {
            0
        }
    }
}

/// The sum of the sizes of the test values of `eqs`.
pub open spec fn value_magnitude(eqs: Seq<Equation>) -> int
    decreases eqs.len(),
{
    if eqs.len() == 0 {
        0
    } else {
        value_magnitude(eqs.drop_last()) + if eqs.last().value >= 0 {
            eqs.last().value as int
        } else {
            -(eqs.last().value as int)
        }
    }
}

/// The sum of the test values of the equations that `+` and `*` can solve.
pub fn part1(eqs: &Vec<Equation>) -> (r: i64)
    requires
        forall|i: int| 0 <= i < eqs.len() ==> #[trigger] eqs@[i].numbers.len() > 0,
        value_magnitude(eqs@) <= i64::MAX,
    ensures
        r == calibration(eqs@, false),
{
    let mut sum: i64 = 0;
    let mut i: usize = 0;
    while i < eqs.len()
        invariant
            i <= eqs.len(),
            forall|k: int| 0 <= k < eqs.len() ==> #[trigger] eqs@[k].numbers.len() > 0,
            value_magnitude(eqs@) <= i64::MAX,
            sum == calibration(eqs@.subrange(0, i as int), false),
            -value_magnitude(eqs@.subrange(0, i as int)) <= sum <= value_magnitude(
                eqs@.subrange(0, i as int),
            ),
        decreases eqs.len() - i,
    {
        let e = &eqs[i];
        let ghost next = eqs@.subrange(0, i + 1);
        assert(next.drop_last() == eqs@.subrange(0, i as int));
        assert(next.last() == *e);
        proof {
            lemma_magnitude_prefix(eqs@, i + 1);
        }
        let nums = e.numbers.as_slice();
        assert(nums@ == e.numbers@);
        assert(eqs@[i as int].numbers.len() > 0);
        if e.is_valid(nums[0], slice_tail(nums)) {
            sum = sum + e.value;
        }
        i += 1;
    }
    assert(eqs@.subrange(0, eqs.len() as int) == eqs@);
    sum
}

/// A prefix of `eqs` has no larger magnitude than `eqs`.
proof fn lemma_magnitude_prefix(eqs: Seq<Equation>, n: int)
    requires
        0 <= n <= eqs.len(),
    ensures
        value_magnitude(eqs.subrange(0, n)) <= value_magnitude(eqs),
    decreases eqs.len(),
{
    if n < eqs.len() {
        assert(eqs.drop_last().subrange(0, n) == eqs.subrange(0, n));
        lemma_magnitude_prefix(eqs.drop_last(), n);
    } else {
        assert(eqs.subrange(0, n) == eqs);
    }
}

/// Some choice of operators combines `nums`, left to right, into `target`.
pub open spec fn makes(target: int, nums: Seq<i64>, with_concat: bool) -> bool {
    nums.len() > 0 && reaches(target, nums[0] as int, nums.subrange(1, nums.len() as int), with_concat)
}

/// One operator takes the running value `x` and the number `h` to `t`, the result fitting
/// in an `i64`.
pub open spec fn step_to(x: int, h: int, t: int, with_concat: bool) -> bool {
    (fits_i64(x * h) && x * h == t) || (fits_i64(x + h) && x + h == t) || (with_concat && fits_i64(
        concat(x, h),
    ) && concat(x, h) == t)
}

/// Reaching `target` over `s` followed by `h` is reaching some `x` over `s`, then one step
/// with `h` from `x` to `target`.
proof fn lemma_reaches_last(target: int, acc: int, s: Seq<i64>, h: i64, c: bool)
    ensures
        reaches(target, acc, s.push(h), c) <==> exists|x: int|
            #[trigger] reaches(x, acc, s, c) && step_to(x, h as int, target, c),
    decreases s.len(),
{
    let sh = s.push(h);
    if s.len() == 0 {
        let e = Seq::<i64>::empty();
        assert(sh.subrange(1, 1) =~= e);
        assert(sh[0] == h);
        assert(reaches(target, acc * h, e, c) == (acc * h == target));
        assert(reaches(target, acc + h, e, c) == (acc + h == target));
        assert(reaches(target, concat(acc, h as int), e, c) == (concat(acc, h as int) == target));
        assert(reaches(target, acc, sh, c) == step_to(acc, h as int, target, c));
        if reaches(target, acc, sh, c) {
            assert(reaches(acc, acc, s, c));
        }
        if exists|x: int| #[trigger] reaches(x, acc, s, c) && step_to(x, h as int, target, c) {
            let x = choose|x: int| #[trigger] reaches(x, acc, s, c) && step_to(x, h as int, target, c);
            assert(x == acc);
        }
    } else {
        let g = s[0] as int;
        let rest = s.subrange(1, s.len() as int);
        assert(sh.subrange(1, sh.len() as int) =~= rest.push(h));
        assert(sh[0] == s[0]);
        lemma_reaches_last(target, acc * g, rest, h, c);
        lemma_reaches_last(target, acc + g, rest, h, c);
        lemma_reaches_last(target, concat(acc, g), rest, h, c);
        if reaches(target, acc, sh, c) {
            if fits_i64(acc * g) && reaches(target, acc * g, rest.push(h), c) {
                let x = choose|x: int|
                    #[trigger] reaches(x, acc * g, rest, c) && step_to(x, h as int, target, c);
                assert(reaches(x, acc, s, c));
            } else if fits_i64(acc + g) && reaches(target, acc + g, rest.push(h), c) {
                let x = choose|x: int|
                    #[trigger] reaches(x, acc + g, rest, c) && step_to(x, h as int, target, c);
                assert(reaches(x, acc, s, c));
            } else {
                let x = choose|x: int|
                    #[trigger] reaches(x, concat(acc, g), rest, c) && step_to(
                        x,
                        h as int,
                        target,
                        c,
                    );
                assert(reaches(x, acc, s, c));
            }
        }
        if exists|x: int| #[trigger] reaches(x, acc, s, c) && step_to(x, h as int, target, c) {
            let x = choose|x: int| #[trigger] reaches(x, acc, s, c) && step_to(x, h as int, target, c);
            if fits_i64(acc * g) && reaches(x, acc * g, rest, c) {
                assert(reaches(target, acc * g, rest.push(h), c));
            } else if fits_i64(acc + g) && reaches(x, acc + g, rest, c) {
                assert(reaches(target, acc + g, rest.push(h), c));
            } else {
                assert(reaches(x, concat(acc, g), rest, c));
                assert(reaches(target, concat(acc, g), rest.push(h), c));
            }
        }
    }
}

/// `h` has fewer digits than its digit shift has.
proof fn lemma_below_shift(h: nat)
    ensures
        h < digit_shift(h),
    decreases h,
{
    if h >= 10 {
        lemma_below_shift(h / 10);
    }
}

/// From a positive start, positive numbers only make positive values.
proof fn lemma_reaches_positive(x: int, acc: int, s: Seq<i64>, c: bool)
    requires
        acc > 0,
        forall|k: int| 0 <= k < s.len() ==> s[k] > 0,
        reaches(x, acc, s, c),
    ensures
        x > 0,
    decreases s.len(),
{
    if s.len() > 0 {
        let h = s[0] as int;
        let rest = s.subrange(1, s.len() as int);
        assert(forall|k: int| 0 <= k < rest.len() ==> rest[k] == s[k + 1]);
        assert(acc * h > 0) by (nonlinear_arith)
            requires
                acc > 0,
                h > 0,
        ;
        assert(concat(acc, h) > 0) by (nonlinear_arith)
            requires
                acc > 0,
                h > 0,
                concat(acc, h) == acc * digit_shift(h as nat) + h,
                digit_shift(h as nat) >= 0,
        ;
        if fits_i64(acc * h) && reaches(x, acc * h, rest, c) {
            lemma_reaches_positive(x, acc * h, rest, c);
        } else if fits_i64(acc + h) && reaches(x, acc + h, rest, c) {
            lemma_reaches_positive(x, acc + h, rest, c);
        } else {
            lemma_reaches_positive(x, concat(acc, h), rest, c);
        }
    }
}

/// The smallest power of ten above `h`, and at least 10.
fn shift_of(h: i64) -> (r: i128)
    requires
        h >= 0,
    ensures
        r == digit_shift(h as nat),
        10 <= r <= 10 * h + 10,
{
    let mut shift: i128 = 10;
    let mut q: i64 = h;
    while q >= 10
        invariant
            0 <= q <= h,
            10 <= shift,
            shift * q <= 10 * h,
            shift <= 10 * h + 10,
            shift * digit_shift(q as nat) == 10 * digit_shift(h as nat),
        decreases q,
    {
        proof {
            assert(digit_shift(q as nat) == 10 * digit_shift((q / 10) as nat));
        }
        let ghost oq = q as int;
        let ghost os = shift as int;
        assert(os * 10 <= 10 * h) by (nonlinear_arith)
            requires
                os * oq <= 10 * h,
                oq >= 10,
                os >= 10,
        ;
        q = q / 10;
        shift = shift * 10;
        assert(shift * q <= 10 * h) by (nonlinear_arith)
            requires
                shift == os * 10,
                q == oq / 10,
                os * oq <= 10 * h,
                oq >= 10,
                os >= 10,
        ;
        assert(shift * digit_shift(q as nat) == 10 * digit_shift(h as nat)) by (nonlinear_arith)
            requires
                shift == os * 10,
                os * (10 * digit_shift(q as nat)) == 10 * digit_shift(h as nat),
        ;
    }
    assert(digit_shift(q as nat) == 10);
    assert(shift * 10 == 10 * digit_shift(h as nat));
    shift
}

/// A step from a positive value with a positive number yields a positive value.
proof fn lemma_step_positive(x: int, h: int, t: int)
    requires
        x > 0,
        h > 0,
        step_to(x, h, t, true),
    ensures
        t > 0,
{
    assert(x * h > 0) by (nonlinear_arith)
        requires
            x > 0,
            h > 0,
    ;
    assert(concat(x, h) > 0) by (nonlinear_arith)
        requires
            x > 0,
            h > 0,
            concat(x, h) == x * digit_shift(h as nat) + h,
            digit_shift(h as nat) >= 0,
    ;
}

/// Undoing the last step: a positive `v` comes from a value that `p` makes by one step with
/// `h` exactly when `v - h`, `v / h` (dividing evenly) or `v` without the trailing digits of `h`
/// is such a value.
proof fn lemma_revert_step(
    v: int,
    h: int,
    shift: int,
    p: Seq<i64>,
    sub_opt: bool,
    div_opt: bool,
    concat_opt: bool,
)
    requires
        0 < v <= i64::MAX,
        h > 0,
        shift == digit_shift(h as nat),
        h < shift,
        p.len() > 0,
        forall|k: int| 0 <= k < p.len() ==> p[k] > 0,
        sub_opt == (v - h >= 0 && makes(v - h, p, true)),
        div_opt == (v % h == 0 && makes(v / h, p, true)),
        concat_opt == (v % shift == h && makes((v - h) / shift, p, true)),
    ensures
        (exists|x: int|
            #[trigger] reaches(x, p[0] as int, p.subrange(1, p.len() as int), true) && step_to(
                x,
                h,
                v,
                true,
            )) == (sub_opt || div_opt || concat_opt),
{
    let rest = p.subrange(1, p.len() as int);
    assert(forall|k: int| 0 <= k < rest.len() ==> rest[k] == p[k + 1]);
    if exists|x: int| #[trigger] reaches(x, p[0] as int, rest, true) && step_to(x, h, v, true) {
        let x = choose|x: int| #[trigger] reaches(x, p[0] as int, rest, true) && step_to(x, h, v, true);
        lemma_reaches_positive(x, p[0] as int, rest, true);
        if x * h == v {
            assert(v % h == 0 && v / h == x) by (nonlinear_arith)
                requires
                    x * h == v,
                    h > 0,
            ;
        } else if x + h == v {
        } else {
            assert(concat(x, h) == x * shift + h);
            assert(v % shift == h && (v - h) / shift == x) by (nonlinear_arith)
                requires
                    v == x * shift + h,
                    0 < h < shift,
                    x > 0,
            ;
        }
    }
    if sub_opt {
        let x = v - h;
        lemma_reaches_positive(x, p[0] as int, rest, true);
        assert(step_to(x, h, v, true));
    }
    if div_opt {
        let x = v / h;
        assert(x * h == v) by (nonlinear_arith)
            requires
                v % h == 0,
                x == v / h,
                h > 0,
        ;
        assert(step_to(x, h, v, true));
    }
    if concat_opt {
        let x = (v - h) / shift;
        lemma_reaches_positive(x, p[0] as int, rest, true);
        assert(x * shift + h == v) by (nonlinear_arith)
            requires
                v % shift == h,
                x == (v - h) / shift,
                shift > 0,
        ;
        assert(concat(x, h) == v);
        assert(step_to(x, h, v, true));
    }
}

impl Equation {
    /// Works backwards from `v` over the numbers in reverse order: whether `+`, `*` and digit
    /// concatenation, applied left to right to the numbers in their first order, can yield `v`.
    pub fn is_valid2_revert(&self, v: i64, revert_nums: &[i64]) -> (r: bool)
        requires
            revert_nums@.len() >= 1,
            forall|k: int| 0 <= k < revert_nums@.len() ==> revert_nums@[k] > 0,
        ensures
            r == makes(v as int, revert_nums@.reverse(), true),
        decreases revert_nums@.len(),
    {
        let ghost rev = revert_nums@;
        let h = revert_nums[0];
        let ghost n = rev.reverse();
        if revert_nums.len() == 1 {
            assert(n =~= seq![h]);
            assert(n.subrange(1, 1) =~= Seq::<i64>::empty());
            return v == h;
        }
        let t = slice_tail(revert_nums);
        let ghost p = t@.reverse();
        assert(forall|k: int| 0 <= k < t@.len() ==> t@[k] == rev[k + 1]);
        assert(n =~= p.push(h));
        assert(p.len() > 0);
        assert(n.subrange(1, n.len() as int) =~= p.subrange(1, p.len() as int).push(h));
        assert(n[0] == p[0]);
        proof {
            lemma_reaches_last(v as int, p[0] as int, p.subrange(1, p.len() as int), h, true);
            assert(forall|k: int| 0 <= k < p.len() ==> p[k] == t@[t@.len() - 1 - k]);
        }
        if v <= 0 {
            proof {
                if makes(v as int, n, true) {
                    let x = choose|x: int|
                        #[trigger] reaches(x, p[0] as int, p.subrange(1, p.len() as int), true)
                            && step_to(x, h as int, v as int, true);
                    assert(forall|k: int|
                        0 <= k < p.len() - 1 ==> p.subrange(1, p.len() as int)[k] == p[k + 1]);
                    lemma_reaches_positive(x, p[0] as int, p.subrange(1, p.len() as int), true);
                    lemma_step_positive(x, h as int, v as int);
                }
            }
            return false;
        }
        let shift = shift_of(h);
        proof {
            lemma_below_shift(h as nat);
        }
        let sub_opt = if v - h >= 0 {
            self.is_valid2_revert(v - h, t)
        } else {
            false
        };
        let div_opt = if v % h == 0 {
            self.is_valid2_revert(v / h, t)
        } else {
            false
        };
        let vu = v as u128;
        let hu = h as u128;
        let su = shift as u128;
        let concat_opt = if vu % su == hu {
            assert(hu <= vu) by (nonlinear_arith)
                requires
                    vu % su == hu,
                    su > 0,
            ;
            let w = (vu - hu) / su;
            assert(w <= vu) by (nonlinear_arith)
                requires
                    w as int == (vu - hu) / (su as int),
                    su >= 10,
                    hu <= vu,
            ;
            self.is_valid2_revert(w as i64, t)
        } else {
            false
        };
        proof {
            lemma_revert_step(v as int, h as int, shift as int, p, sub_opt, div_opt, concat_opt);
        }
        sub_opt || div_opt || concat_opt
    }
}

/// The numbers of `nums` in reverse order.
fn reversed(nums: &Vec<i64>) -> (r: Vec<i64>)
    ensures
        r@ == nums@.reverse(),
{
    let mut r: Vec<i64> = Vec::new();
    let mut k: usize = nums.len();
    while k > 0
        invariant
            k <= nums.len(),
            r@.len() == nums.len() - k,
            forall|m: int| 0 <= m < r@.len() ==> r@[m] == nums@[nums.len() - 1 - m],
        decreases k,
    {
        k -= 1;
        r.push(nums[k]);
    }
    assert(r@ =~= nums@.reverse());
    r
}

/// The sum of the test values of the equations that `+`, `*` and concatenation can solve,
/// found by working backwards from each test value.
pub fn part2(eqs: &Vec<Equation>) -> (r: i64)
    requires
        forall|i: int| 0 <= i < eqs.len() ==> #[trigger] eqs@[i].numbers.len() > 0,
        forall|i: int, k: int|
            0 <= i < eqs.len() && 0 <= k < eqs@[i].numbers.len() ==> #[trigger] eqs@[i].numbers@[k]
                > 0,
        value_magnitude(eqs@) <= i64::MAX,
    ensures
        r == calibration(eqs@, true),
{
    let mut sum: i64 = 0;
    let mut i: usize = 0;
    while i < eqs.len()
        invariant
            i <= eqs.len(),
            forall|k: int| 0 <= k < eqs.len() ==> #[trigger] eqs@[k].numbers.len() > 0,
            forall|j: int, k: int|
                0 <= j < eqs.len() && 0 <= k < eqs@[j].numbers.len() ==> #[trigger] eqs@[j].numbers@[k]
                    > 0,
            value_magnitude(eqs@) <= i64::MAX,
            sum == calibration(eqs@.subrange(0, i as int), true),
            -value_magnitude(eqs@.subrange(0, i as int)) <= sum <= value_magnitude(
                eqs@.subrange(0, i as int),
            ),
        decreases eqs.len() - i,
    {
        let e = &eqs[i];
        let ghost next = eqs@.subrange(0, i + 1);
        assert(next.drop_last() == eqs@.subrange(0, i as int));
        assert(next.last() == *e);
        proof {
            lemma_magnitude_prefix(eqs@, i + 1);
        }
        assert(eqs@[i as int].numbers.len() > 0);
        let rev = reversed(&e.numbers);
        assert(forall|k: int| 0 <= k < rev@.len() ==> rev@[k] == eqs@[i as int].numbers@[e.numbers.len() - 1 - k]);
        assert(rev@.reverse() =~= e.numbers@);
        if e.is_valid2_revert(e.value, rev.as_slice()) {
            sum = sum + e.value;
        }
        i += 1;
    }
    assert(eqs@.subrange(0, eqs.len() as int) == eqs@);
    sum
}

} // verus!
