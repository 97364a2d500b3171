use vstd::prelude::*;

verus! {

/// The levels of `r` never go down.
pub open spec fn never_falls(r: Seq<u32>) -> bool {
    forall|k: int| 0 <= k < r.len() - 1 ==> #[trigger] r[k] <= r[k + 1]
}

/// The levels of `r` never go up.
pub open spec fn never_rises(r: Seq<u32>) -> bool {
    forall|k: int| 0 <= k < r.len() - 1 ==> #[trigger] r[k] >= r[k + 1]
}

/// Each step between neighbouring levels of `r` is at least 1 and at most 3.
pub open spec fn gentle_steps(r: Seq<u32>) -> bool {
    forall|k: int|
        0 <= k < r.len() - 1 ==> 1 <= #[trigger] (r[k + 1] - r[k]) <= 3 || 1 <= r[k] - r[k + 1]
            <= 3
}

/// A report is safe when it has at most one level, or its levels only rise or only fall, by
/// steps of 1 to 3.
pub open spec fn safe(r: Seq<u32>) -> bool {
    r.len() <= 1 || ((never_falls(r) || never_rises(r)) && gentle_steps(r))
}

/// A report is tolerable when it is safe, or becomes safe once one level is taken out.
pub open spec fn tolerable(r: Seq<u32>) -> bool {
    safe(r) || exists|i: int| 0 <= i < r.len() && #[trigger] safe(r.remove(i))
}

/// The number of reports in `rs` that meet `p`.
pub open spec fn count_where(rs: Seq<Vec<u32>>, p: spec_fn(Seq<u32>) -> bool) -> nat
    decreases rs.len(),
{
    if rs.len() == 0 {
        0
    } else {
        count_where(rs.drop_last(), p) + if p(rs.last()@) {
            1nat
        } else {
            0nat
        }
    }
}

/// Whether `report` is safe.
pub fn report_is_valid(report: &Vec<u32>) -> (r: bool)
    ensures
        r == safe(report@),
{
    if report.len() <= 1 {
        return true;
    }
    let mut rising = true;
    let mut falling = true;
    let mut gentle = true;
    let mut k: usize = 0;
    while k + 1 < report.len()
        invariant
            report.len() >= 2,
            k + 1 <= report.len(),
            rising == forall|m: int| 0 <= m < k ==> #[trigger] report@[m] <= report@[m + 1],
            falling == forall|m: int| 0 <= m < k ==> #[trigger] report@[m] >= report@[m + 1],
            gentle == forall|m: int|
                0 <= m < k ==> 1 <= #[trigger] (report@[m + 1] - report@[m]) <= 3 || 1
                    <= report@[m] - report@[m + 1] <= 3,
        decreases report.len() - k,
    {
        let a = report[k];
        let b = report[k + 1];
        if a > b {
            rising = false;
            assert(!(report@[k as int] <= report@[k + 1]));
        }
        if a < b {
            falling = false;
            assert(!(report@[k as int] >= report@[k + 1]));
        }
        let step = if a > b {
            a - b
        } else {
            b - a
        };
        if step < 1 || step > 3 {
            gentle = false;
            assert(!(1 <= (report@[k + 1] - report@[k as int]) <= 3 || 1 <= report@[k as int]
                - report@[k + 1] <= 3));
        }
        k += 1;
    }
    (rising || falling) && gentle
}

/// Whether `report` is tolerable: safe as it is, or once one level is taken out.
pub fn report_is_tolerable(report: &Vec<u32>) -> (r: bool)
    ensures
        r == tolerable(report@),
{
    if report_is_valid(report) {
        return true;
    }
    let mut i: usize = 0;
    while i < report.len()
        invariant
            i <= report.len(),
            !safe(report@),
            forall|m: int| 0 <= m < i ==> !#[trigger] safe(report@.remove(m)),
        decreases report.len() - i,
    {
        let mut copy: Vec<u32> = Vec::new();
        let mut j: usize = 0;
        while j < report.len()
            invariant
                i < report.len(),
                j <= report.len(),
                copy@ == report@.remove(i as int).subrange(0, if j <= i { j as int } else { j - 1 }),
            decreases report.len() - j,
        {
            if j != i {
                copy.push(report[j]);
                proof {
                    let full = report@.remove(i as int);
                    let n: int = if j < i { j as int } else { j - 1 };
                    assert(full[n] == report@[j as int]);
                    assert(full.subrange(0, n + 1) == full.subrange(0, n).push(full[n]));
                }
            }
            j += 1;
        }
        assert(copy@ == report@.remove(i as int));
        if report_is_valid(&copy) {
            return true;
        }
        i += 1;
    }
    false
}

/// The number of safe reports in `reports`.
pub fn part1(reports: &Vec<Vec<u32>>) -> (r: usize)
    ensures
        r == count_where(reports@, |s: Seq<u32>| safe(s)),
{
    let mut n: usize = 0;
    let mut i: usize = 0;
    while i < reports.len()
        invariant
            i <= reports.len(),
            n <= i,
            n == count_where(reports@.subrange(0, i as int), |s: Seq<u32>| safe(s)),
        decreases reports.len() - i,
    {
        let ghost next = reports@.subrange(0, i + 1);
        assert(next.drop_last() == reports@.subrange(0, i as int));
        if report_is_valid(&reports[i]) {
            n += 1;
        }
        i += 1;
    }
    assert(reports@.subrange(0, reports.len() as int) == reports@);
    n
}

/// The number of tolerable reports in `reports`.
pub fn part2(reports: &Vec<Vec<u32>>) -> (r: usize)
    ensures
        r == count_where(reports@, |s: Seq<u32>| tolerable(s)),
{
    let mut n: usize = 0;
    let mut i: usize = 0;
    while i < reports.len()
        invariant
            i <= reports.len(),
            n <= i,
            n == count_where(reports@.subrange(0, i as int), |s: Seq<u32>| tolerable(s)),
        decreases reports.len() - i,
    {
        let ghost next = reports@.subrange(0, i + 1);
        assert(next.drop_last() == reports@.subrange(0, i as int));
        if report_is_tolerable(&reports[i]) {
            n += 1;
        }
        i += 1;
    }
    assert(reports@.subrange(0, reports.len() as int) == reports@);
    n
}

} // verus!
