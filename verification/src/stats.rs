use vstd::prelude::*;
use vstd::arithmetic::div_mod::{
    lemma_div_is_ordered, lemma_div_pos_is_pos, lemma_fundamental_div_mod_converse,
};

verus! {

/// A duration frequency table: `(duration_ms, count)` pairs with strictly
/// ascending durations and positive counts.
pub open spec fn table_sorted(d: Seq<(usize, usize)>) -> bool {
    forall|i: int, j: int| 0 <= i < j < d.len() ==> d[i].0 < d[j].0
}

pub open spec fn table_wf(d: Seq<(usize, usize)>) -> bool {
    table_sorted(d) && (forall|i: int| 0 <= i < d.len() ==> d[i].1 >= 1)
}

/// The number of samples the table holds.
pub open spec fn table_total(d: Seq<(usize, usize)>) -> int
    decreases d.len(),
{
    if d.len() == 0 {
        0
    } else {
        d[0].1 + table_total(d.skip(1))
    }
}

/// The sum of all samples: each duration weighted by its count.
pub open spec fn table_weighted_sum(d: Seq<(usize, usize)>) -> int
    decreases d.len(),
{
    if d.len() == 0 {
        0
    } else {
        d[0].0 * d[0].1 + table_weighted_sum(d.skip(1))
    }
}

/// The duration of the sample at (1-based) rank `r` when the samples are
/// laid out in ascending order.
pub open spec fn rank_value(d: Seq<(usize, usize)>, r: int) -> int
    decreases d.len(),
{
    if d.len() == 0 {
        0
    } else if r <= d[0].1 {
        d[0].0 as int
    } else {
        rank_value(d.skip(1), r - d[0].1)
    }
}

/// Integer average of all samples; zero samples give zero.
pub open spec fn spec_average(d: Seq<(usize, usize)>) -> int {
    if table_total(d) == 0 {
        0
    } else {
        table_weighted_sum(d) / table_total(d)
    }
}

/// Rank-based median: the middle sample, or the integer mean of the two
/// middle samples when the sample count is even; zero samples give zero.
pub open spec fn spec_median(d: Seq<(usize, usize)>) -> int {
    let n = table_total(d);
    if n == 0 {
        0
    } else if n % 2 == 1 {
        rank_value(d, n / 2 + 1)
    } else {
        (rank_value(d, n / 2) + rank_value(d, n / 2 + 1)) / 2
    }
}

/// The 1-based rank that the `pct`-th percentile asks for among `n` samples:
/// `pct * n / 100` rounded up.
pub open spec fn pct_rank(n: int, pct: int) -> int {
    (pct * n + 99) / 100
}

/// The sample at the rank `pct` percent of the way through the samples,
/// rounding the rank up; zero samples give zero.
pub open spec fn spec_percentile(d: Seq<(usize, usize)>, pct: int) -> int {
    let n = table_total(d);
    if n == 0 {
        0
    } else {
        rank_value(d, pct_rank(n, pct))
    }
}

/// One more sample at duration `k`: increment its counter, or insert a fresh
/// row at the position that keeps the table sorted.
pub open spec fn bump_table(d: Seq<(usize, usize)>, k: usize) -> Seq<(usize, usize)>
    decreases d.len(),
{
    if d.len() == 0 {
        seq![(k, 1usize)]
    } else if k < d[0].0 {
        seq![(k, 1usize)] + d
    } else if k == d[0].0 {
        seq![(d[0].0, (d[0].1 + 1) as usize)] + d.skip(1)
    } else {
        seq![d[0]] + bump_table(d.skip(1), k)
    }
}

/// The four derived statistics of one endpoint's duration table.
pub struct UrlStats {
    pub average: usize,
    pub median: usize,
    pub p95: usize,
    pub p99: usize,
}

/// Every count is at least zero, so a table holds at least as many samples
/// as it has rows, and never a negative number of them.
pub proof fn lemma_table_total_bounds(d: Seq<(usize, usize)>)
    requires
        forall|i: int| 0 <= i < d.len() ==> d[i].1 >= 1,
    ensures
        table_total(d) >= d.len(),
    decreases d.len(),
{
    if d.len() > 0 {
        assert(d.skip(1).len() == d.len() - 1);
        assert(forall|i: int| 0 <= i < d.skip(1).len() ==> d.skip(1)[i].1 >= 1);
        lemma_table_total_bounds(d.skip(1));
    }
}

pub proof fn lemma_table_total_nonneg(d: Seq<(usize, usize)>)
    ensures
        table_total(d) >= 0,
    decreases d.len(),
{
    if d.len() > 0 {
        lemma_table_total_nonneg(d.skip(1));
    }
}

/// A rank inside the table resolves to one of the table's durations.
pub proof fn lemma_rank_value_is_key(d: Seq<(usize, usize)>, r: int)
    requires
        1 <= r <= table_total(d),
    ensures
        exists|i: int| 0 <= i < d.len() && rank_value(d, r) == d[i].0,
    decreases d.len(),
{
    lemma_table_total_nonneg(d.skip(1));
    if d.len() > 0 && r > d[0].1 {
        lemma_rank_value_is_key(d.skip(1), r - d[0].1);
        let i = choose|i: int|
            0 <= i < d.skip(1).len() && rank_value(d.skip(1), r - d[0].1) == d.skip(1)[i].0;
        assert(rank_value(d, r) == d[i + 1].0);
    }
}

/// The duration of any in-range rank is bounded by the machine word, since
/// it is one of the stored `usize` durations (or zero for an empty rank).
pub proof fn lemma_rank_value_bounds(d: Seq<(usize, usize)>, r: int)
    ensures
        0 <= rank_value(d, r) <= usize::MAX,
    decreases d.len(),
{
    if d.len() > 0 && r > d[0].1 {
        lemma_rank_value_bounds(d.skip(1), r - d[0].1);
    }
}

/// Find the duration at 1-based rank `rank` by walking the table in
/// ascending order.
fn value_at_rank(d: &Vec<(usize, usize)>, rank: usize) -> (v: usize)
    requires
        table_wf(d@),
        1 <= rank <= table_total(d@),
    ensures
        v as int == rank_value(d@, rank as int),
{
    let ghost full = d@;
    proof {
        assert(d@.skip(0) =~= d@);
    }
    let mut i: usize = 0;
    let mut rem: usize = rank;
    while i < d.len()
        invariant
            table_wf(d@),
            d@ == full,
            0 <= i <= d@.len(),
            1 <= rem,
            rem <= table_total(d@.skip(i as int)),
            rank_value(full, rank as int) == rank_value(d@.skip(i as int), rem as int),
        decreases d@.len() - i,
    {
        proof {
            assert(d@.skip(i as int)[0] == d@[i as int]);
            assert(d@.skip(i as int).skip(1) =~= d@.skip(i as int + 1));
        }
        let row = d[i];
        if rem <= row.1 {
            return row.0;
        }
        proof {
            lemma_table_total_nonneg(d@.skip(i as int + 1));
        }
        rem = rem - row.1;
        i = i + 1;
    }
    proof {
        assert(d@.skip(d@.len() as int) =~= Seq::<(usize, usize)>::empty());
        assert(false);
    }
    vstd::pervasive::unreached()
}

/// Derive average, median, p95 and p99 from a duration frequency table.
/// The table must be well formed and hold no more samples than a machine
/// word can count; an empty table yields all zeros.
pub fn calculate_stats(durations: &Vec<(usize, usize)>) -> (stats: UrlStats)
    requires
        table_wf(durations@),
        table_total(durations@) <= usize::MAX,
    ensures
        stats.average as int == spec_average(durations@),
        stats.median as int == spec_median(durations@),
        stats.p95 as int == spec_percentile(durations@, 95),
        stats.p99 as int == spec_percentile(durations@, 99),
{
    if durations.len() == 0 {
        return UrlStats { average: 0, median: 0, p95: 0, p99: 0 };
    }
    let ghost full = durations@;
    proof {
        assert(durations@.skip(0) =~= durations@);
        lemma_table_total_nonneg(durations@);
    }

    // One pass accumulates the sample count and the weighted duration sum.
    let mut i: usize = 0;
    let mut len128: u128 = 0;
    let mut sum128: u128 = 0;
    while i < durations.len()
        invariant
            table_wf(durations@),
            durations@ == full,
            0 <= i <= durations@.len(),
            table_total(durations@) <= usize::MAX,
            len128 as int + table_total(durations@.skip(i as int)) == table_total(durations@),
            sum128 as int + table_weighted_sum(durations@.skip(i as int)) == table_weighted_sum(
                durations@,
            ),
            len128 as int <= table_total(durations@),
            sum128 <= len128 * (usize::MAX as u128),
        decreases durations@.len() - i,
    {
        proof {
            assert(durations@.skip(i as int)[0] == durations@[i as int]);
            assert(durations@.skip(i as int).skip(1) =~= durations@.skip(i as int + 1));
            lemma_table_total_nonneg(durations@.skip(i as int + 1));
            lemma_weighted_le(durations@.skip(i as int));
        }
        let row = durations[i];
        proof {
            let c = row.1 as int;
            let k = row.0 as int;
            assert(k * c <= (usize::MAX as int) * c) by (nonlinear_arith)
                requires
                    0 <= k <= usize::MAX as int,
                    c >= 0,
            ;
            assert((len128 as int + c) * (usize::MAX as int) == len128 as int * (usize::MAX as int)
                + c * (usize::MAX as int)) by (nonlinear_arith);
            assert(c * (usize::MAX as int) == (usize::MAX as int) * c) by (nonlinear_arith);
            assert(len128 as int + c <= usize::MAX as int);
            assert((len128 as int + c) * (usize::MAX as int) <= (usize::MAX as int) * (
            usize::MAX as int)) by (nonlinear_arith)
                requires
                    0 <= len128 as int + c <= usize::MAX as int,
            ;
        }
        len128 = len128 + (row.1 as u128);
        sum128 = sum128 + (row.0 as u128) * (row.1 as u128);
        i = i + 1;
    }
    proof {
        assert(durations@.skip(durations@.len() as int) =~= Seq::<(usize, usize)>::empty());
    }

    let n: usize = len128 as usize;
    proof {
        lemma_table_total_bounds(durations@);
    }
    // n >= 1 because the table is non-empty and every count is positive.
    proof {
        let s = sum128 as int;
        let t = n as int;
        lemma_div_pos_is_pos(s, t);
        assert(s <= t * (usize::MAX as int));
        lemma_div_is_ordered(s, t * (usize::MAX as int), t);
        vstd::arithmetic::div_mod::lemma_div_multiples_vanish(usize::MAX as int, t);
        assert(s / t <= usize::MAX as int);
    }
    let average: usize = (sum128 / (n as u128)) as usize;

    let median: usize = if n % 2 == 1 {
        value_at_rank(durations, n / 2 + 1)
    } else {
        proof {
            lemma_rank_value_bounds(durations@, (n / 2) as int);
            lemma_rank_value_bounds(durations@, (n / 2) as int + 1);
        }
        let lo = value_at_rank(durations, n / 2);
        let hi = value_at_rank(durations, n / 2 + 1);
        (((lo as u128) + (hi as u128)) / 2) as usize
    };

    let r95: usize = percentile_rank(n, 95);
    let r99: usize = percentile_rank(n, 99);
    let p95 = value_at_rank(durations, r95);
    let p99 = value_at_rank(durations, r99);

    UrlStats { average, median, p95, p99 }
}

/// The weighted sum of a table never exceeds the sample count times the
/// largest representable duration.
proof fn lemma_weighted_le(d: Seq<(usize, usize)>)
    ensures
        table_weighted_sum(d) >= 0,
        table_weighted_sum(d) <= table_total(d) * (usize::MAX as int),
    decreases d.len(),
{
    if d.len() == 0 {
    } else {
        lemma_weighted_le(d.skip(1));
        lemma_table_total_nonneg(d.skip(1));
        let k = d[0].0 as int;
        let c = d[0].1 as int;
        assert(k * c >= 0) by (nonlinear_arith)
            requires
                k >= 0,
                c >= 0,
        ;
        assert(k * c <= (usize::MAX as int) * c) by (nonlinear_arith)
            requires
                0 <= k <= usize::MAX as int,
                c >= 0,
        ;
        assert((c + table_total(d.skip(1))) * (usize::MAX as int) == c * (usize::MAX as int)
            + table_total(d.skip(1)) * (usize::MAX as int)) by (nonlinear_arith);
        assert(c * (usize::MAX as int) == (usize::MAX as int) * c) by (nonlinear_arith);
    }
}

/// Compute the 1-based rank of the `pct`-th percentile among `n` samples:
/// `pct * n / 100` rounded up, which stays within `[1, n]`.
fn percentile_rank(n: usize, pct: usize) -> (r: usize)
    requires
        n >= 1,
        1 <= pct <= 100,
    ensures
        r as int == pct_rank(n as int, pct as int),
        1 <= r <= n,
{
    proof {
        let p = pct as int;
        let m = n as int;
        assert(p * m >= 1 * 1) by (nonlinear_arith)
            requires
                p >= 1,
                m >= 1,
        ;
        assert(p * m <= 100 * m) by (nonlinear_arith)
            requires
                p <= 100,
                m >= 0,
        ;
        assert(100 * m <= 100 * (u64::MAX as int)) by (nonlinear_arith)
            requires
                0 <= m <= u64::MAX as int,
        ;
        lemma_div_is_ordered(100, p * m + 99, 100);
        vstd::arithmetic::div_mod::lemma_div_by_self(100);
        lemma_div_is_ordered(p * m + 99, 100 * m + 99, 100);
        lemma_fundamental_div_mod_converse(100 * m + 99, 100, m, 99);
        assert((p * m + 99) / 100 <= m);
    }
    let num: u128 = (pct as u128) * (n as u128) + 99;
    let r128: u128 = num / 100;
    r128 as usize
}

// ---------------------------------------------------------------------------
// How one more sample moves the table and its statistics.
// ---------------------------------------------------------------------------

pub proof fn lemma_table_total_update(d: Seq<(usize, usize)>, j: int, row: (usize, usize))
    requires
        0 <= j < d.len(),
    ensures
        table_total(d.update(j, row)) == table_total(d) - d[j].1 + row.1,
    decreases d.len(),
{
    if j == 0 {
        assert(d.update(0, row).skip(1) =~= d.skip(1));
    } else {
        assert(d.update(j, row).skip(1) =~= d.skip(1).update(j - 1, row));
        lemma_table_total_update(d.skip(1), j - 1, row);
    }
}

pub proof fn lemma_table_total_insert(d: Seq<(usize, usize)>, j: int, row: (usize, usize))
    requires
        0 <= j <= d.len(),
    ensures
        table_total(d.insert(j, row)) == table_total(d) + row.1,
    decreases j,
{
    if j == 0 {
        assert(d.insert(0, row).skip(1) =~= d);
    } else {
        assert(d.insert(j, row)[0] == d[0]);
        assert(d.insert(j, row).skip(1) =~= d.skip(1).insert(j - 1, row));
        lemma_table_total_insert(d.skip(1), j - 1, row);
    }
}

/// A single duration counter never exceeds the total sample count.
pub proof fn lemma_table_entry_le_total(d: Seq<(usize, usize)>, j: int)
    requires
        0 <= j < d.len(),
    ensures
        d[j].1 <= table_total(d),
    decreases d.len(),
{
    lemma_table_total_nonneg(d.skip(1));
    if j > 0 {
        lemma_table_entry_le_total(d.skip(1), j - 1);
    }
}

/// Where the first not-smaller duration sits decides what `bump_table`
/// does: update the counter on an exact match, or insert a fresh row there.
pub proof fn lemma_bump_table_at(d: Seq<(usize, usize)>, k: usize, j: int)
    requires
        table_sorted(d),
        0 <= j <= d.len(),
        forall|l: int| 0 <= l < j ==> d[l].0 < k,
        j < d.len() ==> d[j].0 >= k,
    ensures
        j < d.len() && d[j].0 == k ==> bump_table(d, k) == d.update(j, (k, (d[j].1 + 1) as usize)),
        j == d.len() || d[j].0 > k ==> bump_table(d, k) == d.insert(j, (k, 1usize)),
    decreases d.len(),
{
    if d.len() == 0 {
        assert(bump_table(d, k) =~= d.insert(0, (k, 1usize)));
    } else if j == 0 {
        if d[0].0 == k {
            assert(bump_table(d, k) =~= d.update(0, (k, (d[0].1 + 1) as usize)));
        } else {
            assert(bump_table(d, k) =~= d.insert(0, (k, 1usize)));
        }
    } else {
        assert(d[0].0 < k);
        assert(forall|l: int| 0 <= l < j - 1 ==> d.skip(1)[l].0 < k);
        lemma_bump_table_at(d.skip(1), k, j - 1);
        if j < d.len() && d[j].0 == k {
            assert(d.skip(1)[j - 1].0 == k);
            assert(bump_table(d, k) =~= d.update(j, (k, (d[j].1 + 1) as usize)));
        } else {
            assert(bump_table(d, k) =~= d.insert(j, (k, 1usize)));
        }
    }
}

proof fn lemma_weighted_sum_update(d: Seq<(usize, usize)>, j: int, row: (usize, usize))
    requires
        0 <= j < d.len(),
    ensures
        table_weighted_sum(d.update(j, row)) == table_weighted_sum(d) - d[j].0 * d[j].1 + row.0
            * row.1,
    decreases d.len(),
{
    if j == 0 {
        assert(d.update(0, row).skip(1) =~= d.skip(1));
    } else {
        assert(d.update(j, row).skip(1) =~= d.skip(1).update(j - 1, row));
        lemma_weighted_sum_update(d.skip(1), j - 1, row);
    }
}

proof fn lemma_weighted_sum_push(d: Seq<(usize, usize)>, row: (usize, usize))
    ensures
        table_weighted_sum(d.push(row)) == table_weighted_sum(d) + row.0 * row.1,
    decreases d.len(),
{
    if d.len() == 0 {
        assert(d.push(row).skip(1) =~= Seq::<(usize, usize)>::empty());
        assert(d.push(row)[0] == row);
        assert(table_weighted_sum(d.push(row)) == row.0 * row.1 + table_weighted_sum(
            d.push(row).skip(1),
        ));
    } else {
        assert(d.push(row).skip(1) =~= d.skip(1).push(row));
        lemma_weighted_sum_push(d.skip(1), row);
        assert(d.push(row)[0] == d[0]);
        assert(table_weighted_sum(d.push(row)) == d[0].0 * d[0].1 + table_weighted_sum(
            d.push(row).skip(1),
        ));
    }
}

/// With every duration at most `v`, one more sample at `v` lands at the
/// table's end: the last counter grows, or a fresh last row appears. The
/// table stays well formed, and it holds one more sample whose duration
/// contributes exactly `v` to the weighted sum.
pub proof fn lemma_bump_at_end(d: Seq<(usize, usize)>, v: usize)
    requires
        table_wf(d),
        table_total(d) < usize::MAX,
        forall|i: int| 0 <= i < d.len() ==> d[i].0 <= v,
    ensures
        table_wf(bump_table(d, v)),
        table_total(bump_table(d, v)) == table_total(d) + 1,
        table_weighted_sum(bump_table(d, v)) == table_weighted_sum(d) + v,
        forall|i: int| 0 <= i < bump_table(d, v).len() ==> bump_table(d, v)[i].0 <= v,
{
    let b = bump_table(d, v);
    let n = d.len() as int;
    if n > 0 && d[n - 1].0 == v {
        lemma_bump_table_at(d, v, n - 1);
        let c = d[n - 1].1;
        lemma_table_entry_le_total(d, n - 1);
        assert(b == d.update(n - 1, (v, (c + 1) as usize)));
        lemma_table_total_update(d, n - 1, (v, (c + 1) as usize));
        lemma_weighted_sum_update(d, n - 1, (v, (c + 1) as usize));
        assert((v as int) * ((c + 1) as int) == (v as int) * (c as int) + v) by (nonlinear_arith);
    } else {
        assert(forall|l: int| 0 <= l < n ==> d[l].0 < v) by {
            if n > 0 {
                assert(forall|l: int| 0 <= l < n - 1 ==> #[trigger] d[l].0 < d[n - 1].0);
            }
        }
        lemma_bump_table_at(d, v, n);
        assert(d.insert(n, (v, 1usize)) =~= d.push((v, 1usize)));
        assert(b == d.push((v, 1usize)));
        lemma_table_total_insert(d, n, (v, 1usize));
        lemma_weighted_sum_push(d, (v, 1usize));
        assert((v as int) * 1 == v as int);
    }
}

/// In a sorted table, the duration at a higher rank is never smaller.
pub proof fn lemma_rank_value_monotone(d: Seq<(usize, usize)>, r1: int, r2: int)
    requires
        table_wf(d),
        1 <= r1 <= r2 <= table_total(d),
    ensures
        rank_value(d, r1) <= rank_value(d, r2),
    decreases d.len(),
{
    if d.len() == 0 {
        assert(false);
    } else {
        let c = d[0].1 as int;
        assert(d.skip(1).len() == d.len() - 1);
        assert(forall|i: int, j: int|
            0 <= i < j < d.skip(1).len() ==> d.skip(1)[i].0 < d.skip(1)[j].0);
        assert(forall|i: int| 0 <= i < d.skip(1).len() ==> d.skip(1)[i].1 >= 1);
        if r1 <= c {
            if r2 <= c {
            } else {
                lemma_rank_value_is_key(d.skip(1), r2 - c);
                let i = choose|i: int|
                    0 <= i < d.skip(1).len() && rank_value(d.skip(1), r2 - c) == d.skip(1)[i].0;
                assert(d.skip(1)[i] == d[i + 1]);
                assert(d[0].0 < d[i + 1].0);
            }
        } else {
            lemma_rank_value_monotone(d.skip(1), r1 - c, r2 - c);
        }
    }
}

/// Raising the last row's counter does not move any rank that was already
/// inside the table.
proof fn lemma_rank_update_last(d: Seq<(usize, usize)>, c2: usize, r: int)
    requires
        table_wf(d),
        d.len() >= 1,
        1 <= r <= table_total(d),
        c2 >= d[d.len() - 1].1,
    ensures
        rank_value(d.update(d.len() - 1, (d[d.len() - 1].0, c2)), r) == rank_value(d, r),
    decreases d.len(),
{
    let n = d.len() as int;
    let du = d.update(n - 1, (d[n - 1].0, c2));
    if n == 1 {
        lemma_table_total_nonneg(d.skip(1));
        assert(d.skip(1).len() == 0);
        assert(table_total(d) == d[0].1);
        assert(r <= c2);
        assert(du[0] == (d[0].0, c2));
    } else {
        assert(du[0] == d[0]);
        assert(du.skip(1) =~= d.skip(1).update(n - 2, (d[n - 1].0, c2)));
        assert(d.skip(1)[n - 2] == d[n - 1]);
        if r <= d[0].1 {
        } else {
            assert(forall|i: int, j: int|
                0 <= i < j < d.skip(1).len() ==> d.skip(1)[i].0 < d.skip(1)[j].0);
            assert(forall|i: int| 0 <= i < d.skip(1).len() ==> d.skip(1)[i].1 >= 1);
            lemma_rank_update_last(d.skip(1), c2, r - d[0].1);
        }
    }
}

/// Appending a row does not move any rank that was already inside the
/// table.
proof fn lemma_rank_push(d: Seq<(usize, usize)>, row: (usize, usize), r: int)
    requires
        1 <= r <= table_total(d),
    ensures
        rank_value(d.push(row), r) == rank_value(d, r),
    decreases d.len(),
{
    if d.len() == 0 {
        assert(false);
    } else {
        assert(d.push(row)[0] == d[0]);
        assert(d.push(row).skip(1) =~= d.skip(1).push(row));
        if r <= d[0].1 {
        } else {
            lemma_rank_push(d.skip(1), row, r - d[0].1);
        }
    }
}

/// After one more sample at `v`, the rank just past the old sample count
/// resolves to `v` itself.
proof fn lemma_rank_of_new_sample(d: Seq<(usize, usize)>, v: usize)
    requires
        table_wf(d),
        table_total(d) < usize::MAX,
        forall|i: int| 0 <= i < d.len() ==> d[i].0 <= v,
    ensures
        rank_value(bump_table(d, v), table_total(d) + 1) == v,
    decreases d.len(),
{
    let b = bump_table(d, v);
    let n = d.len() as int;
    lemma_table_total_nonneg(d);
    if n == 0 {
        assert(b =~= seq![(v, 1usize)]);
        assert(b.len() == 1);
        assert(rank_value(b, 1) == v);
    } else if v == d[0].0 {
        if n >= 2 {
            assert(d[1].0 > d[0].0);
            assert(d[1].0 <= v);
            assert(false);
        }
        lemma_table_total_nonneg(d.skip(1));
        assert(d.skip(1).len() == 0);
        assert(table_total(d) == d[0].1);
        let c = d[0].1;
        assert(b =~= seq![(v, (c + 1) as usize)] + d.skip(1));
        assert(b[0] == (v, (c + 1) as usize));
        assert(table_total(d) + 1 <= c + 1);
        assert(rank_value(b, table_total(d) + 1) == v);
    } else {
        assert(d[0].0 < v);
        assert(b == seq![d[0]] + bump_table(d.skip(1), v));
        assert(b[0] == d[0]);
        assert(b.skip(1) =~= bump_table(d.skip(1), v));
        assert(forall|i: int, j: int|
            0 <= i < j < d.skip(1).len() ==> d.skip(1)[i].0 < d.skip(1)[j].0);
        assert(forall|i: int| 0 <= i < d.skip(1).len() ==> d.skip(1)[i].1 >= 1);
        assert(forall|i: int| 0 <= i < d.skip(1).len() ==> d.skip(1)[i].0 <= v);
        lemma_table_total_nonneg(d.skip(1));
        lemma_rank_of_new_sample(d.skip(1), v);
        assert(table_total(d) + 1 - d[0].1 == table_total(d.skip(1)) + 1);
        assert(table_total(d) + 1 > d[0].1);
    }
}

/// Every in-range rank of a table whose durations are all at most `v`
/// resolves to at most `v`.
proof fn lemma_rank_le_bound(d: Seq<(usize, usize)>, v: usize, r: int)
    requires
        1 <= r <= table_total(d),
        forall|i: int| 0 <= i < d.len() ==> d[i].0 <= v,
    ensures
        rank_value(d, r) <= v,
{
    lemma_rank_value_is_key(d, r);
    let i = choose|i: int| 0 <= i < d.len() && rank_value(d, r) == d[i].0;
    assert(d[i].0 <= v);
}

/// The integer mean of two ordered values lies between them.
proof fn lemma_mean_between(a: int, b: int)
    requires
        a <= b,
    ensures
        a <= (a + b) / 2 <= b,
{
    lemma_div_is_ordered(a + a, a + b, 2);
    lemma_div_is_ordered(a + b, b + b, 2);
    vstd::arithmetic::div_mod::lemma_div_multiples_vanish(a, 2);
    vstd::arithmetic::div_mod::lemma_div_multiples_vanish(b, 2);
    assert(a + a == 2 * a);
    assert(b + b == 2 * b);
}

/// One more sample at `v` after every existing rank: every rank of the old
/// table is preserved, and the one new rank resolves to `v`.
proof fn lemma_rank_preserved(d: Seq<(usize, usize)>, v: usize, r: int)
    requires
        table_wf(d),
        table_total(d) < usize::MAX,
        forall|i: int| 0 <= i < d.len() ==> d[i].0 <= v,
        1 <= r <= table_total(d),
    ensures
        rank_value(bump_table(d, v), r) == rank_value(d, r),
{
    let n = d.len() as int;
    lemma_bump_at_end(d, v);
    if n > 0 && d[n - 1].0 == v {
        lemma_bump_table_at(d, v, n - 1);
        lemma_table_entry_le_total(d, n - 1);
        lemma_rank_update_last(d, (d[n - 1].1 + 1) as usize, r);
    } else {
        assert(forall|l: int| 0 <= l < n ==> d[l].0 < v) by {
            if n > 0 {
                assert(forall|l: int| 0 <= l < n - 1 ==> #[trigger] d[l].0 < d[n - 1].0);
            }
        }
        lemma_bump_table_at(d, v, n);
        assert(d.insert(n, (v, 1usize)) =~= d.push((v, 1usize)));
        lemma_rank_push(d, (v, 1usize), r);
    }
}

/// The percentile rank asked of `n` samples stays within `[1, n]` and
/// grows with `n`.
proof fn lemma_pct_rank_bounds(n: int, pct: int)
    requires
        n >= 1,
        1 <= pct <= 100,
    ensures
        1 <= pct_rank(n, pct) <= n,
        pct_rank(n + 1, pct) >= pct_rank(n, pct),
{
    assert(pct * n >= 1 * 1) by (nonlinear_arith)
        requires
            pct >= 1,
            n >= 1,
    ;
    assert(pct * n <= 100 * n) by (nonlinear_arith)
        requires
            pct <= 100,
            n >= 0,
    ;
    assert(pct * (n + 1) >= pct * n) by (nonlinear_arith)
        requires
            pct >= 0,
    ;
    lemma_div_is_ordered(100, pct * n + 99, 100);
    vstd::arithmetic::div_mod::lemma_div_by_self(100);
    lemma_div_is_ordered(pct * n + 99, 100 * n + 99, 100);
    lemma_fundamental_div_mod_converse(100 * n + 99, 100, n, 99);
    lemma_div_is_ordered(pct * n + 99, pct * (n + 1) + 99, 100);
}

/// The average never decreases when one more sample, at least as large as
/// every existing duration, is added.
proof fn lemma_average_monotone(d: Seq<(usize, usize)>, v: usize)
    requires
        table_wf(d),
        table_total(d) < usize::MAX,
        forall|i: int| 0 <= i < d.len() ==> d[i].0 <= v,
    ensures
        spec_average(bump_table(d, v)) >= spec_average(d),
{
    lemma_bump_at_end(d, v);
    let b = bump_table(d, v);
    let s = table_weighted_sum(d);
    let n = table_total(d);
    lemma_table_total_nonneg(d);
    if n == 0 {
        assert(spec_average(d) == 0);
        lemma_table_total_bounds(d);
        assert(d.len() == 0);
        assert(s == 0);
        lemma_div_pos_is_pos(s + v, n + 1);
    } else {
        let a = spec_average(d);
        assert(a == s / n);
        lemma_weighted_le_bound(d, v);
        assert(s <= n * v);
        lemma_div_is_ordered(s, n * v, n);
        vstd::arithmetic::div_mod::lemma_div_multiples_vanish(v as int, n);
        assert((n * v) / n == v) by {
            assert(n * (v as int) == (v as int) * n) by (nonlinear_arith);
        }
        assert(a <= v);
        vstd::arithmetic::div_mod::lemma_fundamental_div_mod(s, n);
        assert(s == n * (s / n) + s % n);
        vstd::arithmetic::div_mod::lemma_mod_bound(s, n);
        assert(s >= n * a);
        assert((n + 1) * a == n * a + a) by (nonlinear_arith);
        assert(s + v >= (n + 1) * a);
        lemma_div_is_ordered((n + 1) * a, s + v, n + 1);
        assert(((n + 1) * a) / (n + 1) == a) by {
            assert((n + 1) * a == a * (n + 1)) by (nonlinear_arith);
            vstd::arithmetic::div_mod::lemma_div_multiples_vanish(a, n + 1);
        }
    }
}

/// The weighted sum of a table of durations at most `v` is at most the
/// sample count times `v`.
proof fn lemma_weighted_le_bound(d: Seq<(usize, usize)>, v: usize)
    requires
        forall|i: int| 0 <= i < d.len() ==> d[i].0 <= v,
        forall|i: int| 0 <= i < d.len() ==> d[i].1 >= 1,
    ensures
        table_weighted_sum(d) <= table_total(d) * v,
    decreases d.len(),
{
    if d.len() == 0 {
        assert(table_total(d) * (v as int) == 0) by (nonlinear_arith)
            requires
                table_total(d) == 0,
        ;
    } else {
        assert(forall|i: int| 0 <= i < d.skip(1).len() ==> d.skip(1)[i].0 <= v);
        assert(forall|i: int| 0 <= i < d.skip(1).len() ==> d.skip(1)[i].1 >= 1);
        lemma_weighted_le_bound(d.skip(1), v);
        let k = d[0].0 as int;
        let c = d[0].1 as int;
        assert(k * c <= (v as int) * c) by (nonlinear_arith)
            requires
                0 <= k <= v as int,
                c >= 0,
        ;
        assert((c + table_total(d.skip(1))) * (v as int) == c * (v as int) + table_total(d.skip(1))
            * (v as int)) by (nonlinear_arith);
        assert(c * (v as int) == (v as int) * c) by (nonlinear_arith);
    }
}

/// The four derived statistics are monotone: adding one sample at least as
/// large as every duration already recorded never lowers the average, the
/// median, or the p95 / p99 percentiles.
pub proof fn lemma_stats_monotone_larger_sample(d: Seq<(usize, usize)>, v: usize)
    requires
        table_wf(d),
        table_total(d) < usize::MAX,
        forall|i: int| 0 <= i < d.len() ==> d[i].0 <= v,
    ensures
        spec_average(bump_table(d, v)) >= spec_average(d),
        spec_median(bump_table(d, v)) >= spec_median(d),
        spec_percentile(bump_table(d, v), 95) >= spec_percentile(d, 95),
        spec_percentile(bump_table(d, v), 99) >= spec_percentile(d, 99),
{
    let b = bump_table(d, v);
    let n = table_total(d);
    lemma_table_total_nonneg(d);
    lemma_bump_at_end(d, v);
    lemma_average_monotone(d, v);
    lemma_rank_of_new_sample(d, v);

    // median
    if n == 0 {
        assert(spec_median(d) == 0);
        assert(spec_median(b) == rank_value(b, 1));
        assert(rank_value(b, 1) == v);
    } else if n % 2 == 1 {
        let h = n / 2 + 1;
        assert(1 <= h <= n);
        lemma_rank_preserved(d, v, h);
        assert((n + 1) / 2 == h);
        assert(spec_median(b) == (rank_value(b, h) + rank_value(b, h + 1)) / 2);
        if h + 1 <= n {
            lemma_rank_preserved(d, v, h + 1);
            lemma_rank_value_monotone(d, h, h + 1);
        } else {
            assert(h + 1 == n + 1);
            lemma_rank_le_bound(d, v, h);
        }
        assert(rank_value(b, h) <= rank_value(b, h + 1));
        lemma_mean_between(rank_value(b, h), rank_value(b, h + 1));
    } else {
        let lo = n / 2;
        let hi = n / 2 + 1;
        assert(1 <= lo <= n);
        assert(1 <= hi <= n);
        lemma_rank_preserved(d, v, hi);
        assert((n + 1) % 2 == 1);
        assert((n + 1) / 2 + 1 == hi);
        assert(spec_median(b) == rank_value(b, hi));
        lemma_rank_value_monotone(d, lo, hi);
        lemma_mean_between(rank_value(d, lo), rank_value(d, hi));
        assert(spec_median(d) <= rank_value(d, hi));
    }

    // percentiles
    lemma_percentile_monotone(d, v, 95);
    lemma_percentile_monotone(d, v, 99);
}

/// One percentile's monotonicity under the same larger sample.
proof fn lemma_percentile_monotone(d: Seq<(usize, usize)>, v: usize, pct: int)
    requires
        table_wf(d),
        table_total(d) < usize::MAX,
        forall|i: int| 0 <= i < d.len() ==> d[i].0 <= v,
        1 <= pct <= 100,
    ensures
        spec_percentile(bump_table(d, v), pct) >= spec_percentile(d, pct),
{
    let b = bump_table(d, v);
    let n = table_total(d);
    lemma_table_total_nonneg(d);
    lemma_bump_at_end(d, v);
    lemma_rank_of_new_sample(d, v);
    if n == 0 {
        assert(spec_percentile(d, pct) == 0);
        lemma_pct_rank_bounds(1, pct);
        assert(spec_percentile(b, pct) == rank_value(b, pct_rank(1, pct)));
        assert(pct_rank(1, pct) == 1);
        assert(rank_value(b, 1) == v);
    } else {
        let r = pct_rank(n, pct);
        let r2 = pct_rank(n + 1, pct);
        lemma_pct_rank_bounds(n, pct);
        lemma_pct_rank_bounds(n + 1, pct);
        if r2 <= n {
            lemma_rank_preserved(d, v, r2);
            lemma_rank_value_monotone(d, r, r2);
        } else {
            assert(r2 == n + 1);
            lemma_rank_le_bound(d, v, r);
        }
    }
}

} // verus!
