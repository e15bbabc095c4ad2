//! Splitting a batch of rows into partitions.

use vstd::prelude::*;

use crate::error::DaftError;
use crate::random::draw_uniform;
use crate::record_batch::RecordBatch;
use crate::text::write_decimal;

verus! {

/// The rows, out of the first `n`, whose target is partition `p`, in order.
pub open spec fn rows_for(targets: Seq<u64>, p: int, n: int) -> Seq<int>
    decreases n,
{
    if n <= 0 {
        Seq::empty()
    } else if targets[n - 1] == p {
        rows_for(targets, p, n - 1).push(n - 1)
    } else {
        rows_for(targets, p, n - 1)
    }
}

/// How many rows, out of the first `n`, go to the partitions below `p`.
pub open spec fn rows_below(targets: Seq<u64>, p: int, n: int) -> int
    decreases p,
{
    if p <= 0 {
        0
    } else {
        rows_below(targets, p - 1, n) + rows_for(targets, p - 1, n).len()
    }
}

/// The rows of a partition are those, in ascending order, whose target it is.
pub proof fn law_rows_for(targets: Seq<u64>, p: int, n: int)
    requires
        0 <= n <= targets.len(),
    ensures
        forall|k: int|
            0 <= k < rows_for(targets, p, n).len() ==> 0 <= #[trigger] rows_for(targets, p, n)[k]
                < n && targets[rows_for(targets, p, n)[k]] == p,
        forall|j: int, k: int|
            0 <= j < k < rows_for(targets, p, n).len() ==> rows_for(targets, p, n)[j] < rows_for(
                targets,
                p,
                n,
            )[k],
        forall|i: int|
            0 <= i < n && #[trigger] targets[i] == p ==> rows_for(targets, p, n).contains(i),
    decreases n,
{
    if n > 0 {
        law_rows_for(targets, p, n - 1);
        let fewer = rows_for(targets, p, n - 1);
        let rows = rows_for(targets, p, n);
        assert forall|i: int| 0 <= i < n && #[trigger] targets[i] == p implies rows.contains(i) by {
            if i == n - 1 {
                assert(rows[fewer.len() as int] == i);
            } else {
                let k = choose|k: int| 0 <= k < fewer.len() && fewer[k] == i;
                assert(rows[k] == i);
            }
        }
    }
}

/// Where every target is a partition, the partitions hold every row once: they
/// hold as many rows as there are, and no row of one is a row of another.
pub proof fn law_partitions_hold_every_row(targets: Seq<u64>, partitions: int, n: int)
    requires
        0 <= n <= targets.len(),
        0 <= partitions,
        forall|i: int| 0 <= i < n ==> (#[trigger] targets[i]) < partitions,
    ensures
        rows_below(targets, partitions, n) == n,
        forall|p: int, q: int, j: int, k: int|
            0 <= j < rows_for(targets, p, n).len() && 0 <= k < rows_for(targets, q, n).len()
                && #[trigger] rows_for(targets, p, n)[j] == #[trigger] rows_for(targets, q, n)[k]
                ==> p == q,
    decreases n,
{
    if n > 0 {
        law_partitions_hold_every_row(targets, partitions, n - 1);
        lemma_rows_below_step(targets, partitions, n);
    } else {
        lemma_rows_below_none(targets, partitions);
    }
    assert forall|p: int, q: int, j: int, k: int|
        0 <= j < rows_for(targets, p, n).len() && 0 <= k < rows_for(targets, q, n).len()
            && #[trigger] rows_for(targets, p, n)[j] == #[trigger] rows_for(
            targets,
            q,
            n,
        )[k] implies p == q by {
        law_rows_for(targets, p, n);
        law_rows_for(targets, q, n);
    }
}

proof fn lemma_rows_below_none(targets: Seq<u64>, p: int)
    ensures
        rows_below(targets, p, 0) == 0,
    decreases p,
{
    if p > 0 {
        lemma_rows_below_none(targets, p - 1);
    }
}

proof fn lemma_rows_below_step(targets: Seq<u64>, p: int, n: int)
    requires
        0 < n <= targets.len(),
    ensures
        rows_below(targets, p, n) == rows_below(targets, p, n - 1) + (if targets[n - 1] < p {
            1int
        } else {
            0int
        }),
    decreases p,
{
    if p > 0 {
        lemma_rows_below_step(targets, p - 1, n);
    }
}

proof fn lemma_rows_below_monotone(targets: Seq<u64>, p: int, q: int, n: int)
    requires
        0 <= p <= q,
    ensures
        0 <= rows_below(targets, p, n) <= rows_below(targets, q, n),
    decreases q,
{
    if p < q {
        lemma_rows_below_monotone(targets, p, q - 1, n);
    } else if p > 0 {
        lemma_rows_below_monotone(targets, 0, p - 1, n);
    }
}

proof fn lemma_rows_for_monotone(targets: Seq<u64>, p: int, m: int, n: int)
    requires
        0 <= m <= n,
    ensures
        rows_for(targets, p, m).len() <= rows_for(targets, p, n).len() <= n,
    decreases n,
{
    if m < n {
        lemma_rows_for_monotone(targets, p, m, n - 1);
    } else if n > 0 {
        lemma_rows_for_monotone(targets, p, 0, n - 1);
    }
}

/// How many rows go to each partition.
fn count_targets(targets: &[u64], num_partitions: usize) -> (counts: Vec<usize>)
    requires
        forall|i: int| 0 <= i < targets@.len() ==> (#[trigger] targets@[i]) < num_partitions,
    ensures
        counts@.len() == num_partitions,
        forall|p: int|
            0 <= p < num_partitions ==> #[trigger] counts@[p] == rows_for(
                targets@,
                p,
                targets@.len() as int,
            ).len(),
{
    let mut counts: Vec<usize> = Vec::new();
    let mut q: usize = 0;
    while q < num_partitions
        invariant
            q <= num_partitions,
            counts@.len() == q,
            forall|p: int| 0 <= p < q ==> #[trigger] counts@[p] == 0,
        decreases num_partitions - q,
    {
        counts.push(0);
        q = q + 1;
    }
    let mut i: usize = 0;
    while i < targets.len()
        invariant
            i <= targets@.len(),
            counts@.len() == num_partitions,
            forall|i: int| 0 <= i < targets@.len() ==> (#[trigger] targets@[i]) < num_partitions,
            forall|p: int|
                0 <= p < num_partitions ==> #[trigger] counts@[p] == rows_for(
                    targets@,
                    p,
                    i as int,
                ).len(),
        decreases targets@.len() - i,
    {
        assert(targets@[i as int] < num_partitions);
        let p: usize = targets[i] as usize;
        let n: usize = counts[p];
        proof {
            lemma_rows_for_monotone(targets@, p as int, i as int, i as int);
        }
        counts.set(p, n + 1);
        i = i + 1;
    }
    counts
}

/// The order in which rows are gathered: partition after partition, the rows of
/// each in their own order. Also returns where each partition starts.
pub fn plan_partitions(targets: &[u64], num_partitions: usize) -> (plan: (Vec<usize>, Vec<u64>))
    requires
        num_partitions < usize::MAX,
        forall|i: int| 0 <= i < targets@.len() ==> (#[trigger] targets@[i]) < num_partitions,
    ensures
        plan.0@.len() == num_partitions + 1,
        forall|p: int|
            0 <= p <= num_partitions ==> #[trigger] plan.0@[p] == rows_below(
                targets@,
                p,
                targets@.len() as int,
            ),
        plan.0@[num_partitions as int] == targets@.len(),
        plan.1@.len() == targets@.len(),
        forall|p: int, k: int|
            0 <= p < num_partitions && 0 <= k < rows_for(targets@, p, targets@.len() as int).len()
                ==> plan.1@[plan.0@[p] + k] == #[trigger] rows_for(
                targets@,
                p,
                targets@.len() as int,
            )[k],
{
    let total: usize = targets.len();
    let ghost n = total as int;
    let ghost t = targets@;
    let counts: Vec<usize> = count_targets(targets, num_partitions);
    proof {
        law_partitions_hold_every_row(t, num_partitions as int, n);
    }
    let mut offsets: Vec<usize> = Vec::new();
    offsets.push(0);
    let mut write_pos: Vec<usize> = Vec::new();
    let mut q: usize = 0;
    while q < num_partitions
        invariant
            q <= num_partitions,
            t == targets@,
            n == t.len(),
            n == total,
            rows_below(t, num_partitions as int, n) == n,
            counts@.len() == num_partitions,
            forall|p: int|
                0 <= p < num_partitions ==> #[trigger] counts@[p] == rows_for(t, p, n).len(),
            offsets@.len() == q + 1,
            forall|p: int| 0 <= p <= q ==> #[trigger] offsets@[p] == rows_below(t, p, n),
            write_pos@ == offsets@.take(q as int),
        decreases num_partitions - q,
    {
        proof {
            lemma_rows_below_monotone(t, q + 1, num_partitions as int, n);
        }
        let start: usize = offsets[q];
        write_pos.push(start);
        offsets.push(start + counts[q]);
        q = q + 1;
        assert(write_pos@ =~= offsets@.take(q as int));
    }
    let mut permutation: Vec<u64> = Vec::new();
    let mut i: usize = 0;
    while i < targets.len()
        invariant
            i <= targets@.len(),
            permutation@.len() == i,
        decreases targets@.len() - i,
    {
        permutation.push(0);
        i = i + 1;
    }
    i = 0;
    while i < targets.len()
        invariant
            i <= n,
            t == targets@,
            n == t.len(),
            n == total,
            rows_below(t, num_partitions as int, n) == n,
            forall|i: int| 0 <= i < n ==> (#[trigger] t[i]) < num_partitions,
            offsets@.len() == num_partitions + 1,
            forall|p: int|
                0 <= p <= num_partitions ==> #[trigger] offsets@[p] == rows_below(t, p, n),
            write_pos@.len() == num_partitions,
            forall|p: int|
                0 <= p < num_partitions ==> #[trigger] write_pos@[p] == rows_below(t, p, n)
                    + rows_for(t, p, i as int).len(),
            permutation@.len() == n,
            forall|p: int, k: int|
                0 <= p < num_partitions && 0 <= k < rows_for(t, p, i as int).len()
                    ==> permutation@[rows_below(t, p, n) + k] == #[trigger] rows_for(
                    t,
                    p,
                    i as int,
                )[k],
        decreases n - i,
    {
        assert(t[i as int] < num_partitions);
        let p: usize = targets[i] as usize;
        let at: usize = write_pos[p];
        let ghost before = permutation@;
        proof {
            lemma_rows_for_monotone(t, p as int, i + 1, n);
            lemma_rows_below_monotone(t, p + 1, num_partitions as int, n);
            lemma_rows_below_monotone(t, 0, p as int, n);
        }
        permutation.set(at, i as u64);
        write_pos.set(p, at + 1);
        proof {
            assert forall|q: int, k: int|
                0 <= q < num_partitions && 0 <= k < rows_for(t, q, i + 1).len() implies permutation@[
            rows_below(t, q, n) + k] == #[trigger] rows_for(t, q, i + 1)[k] by {
                lemma_rows_for_monotone(t, q, i as int, n);
                lemma_rows_below_monotone(t, 0, q, n);
                lemma_rows_below_monotone(t, q + 1, num_partitions as int, n);
                if q < p {
                    lemma_rows_below_monotone(t, q + 1, p as int, n);
                } else if q > p {
                    lemma_rows_below_monotone(t, p + 1, q, n);
                }
                if k < rows_for(t, q, i as int).len() {
                    assert(rows_for(t, q, i as int)[k] == rows_for(t, q, i + 1)[k]);
                    assert(before[rows_below(t, q, n) + k] == rows_for(t, q, i as int)[k]);
                }
            }
        }
        i = i + 1;
    }
    (offsets, permutation)
}

/// How many of the first `n` targets are null.
pub open spec fn nulls_below(targets: Seq<Option<u64>>, n: int) -> nat
    decreases n,
{
    if n <= 0 {
        0
    } else {
        nulls_below(targets, n - 1) + (if targets[n - 1] is None {
            1nat
        } else {
            0nat
        })
    }
}

/// The targets, where none is null.
pub open spec fn target_values(targets: Seq<Option<u64>>) -> Seq<u64> {
    Seq::new(targets.len(), |i: int| targets[i]->0)
}

/// Whether row `i` is the first whose target is no partition.
pub open spec fn first_out_of_bounds(targets: Seq<u64>, partitions: int, i: int) -> bool {
    &&& 0 <= i < targets.len()
    &&& targets[i] >= partitions
    &&& forall|j: int| 0 <= j < i ==> (#[trigger] targets[j]) < partitions
}

/// The message about a table and targets of different lengths.
pub open spec fn mismatch_message(rows: nat, targets: nat) -> Seq<char> {
    "Mismatch of length of table and targets, "@ + crate::text::decimal(rows) + " vs "@
        + crate::text::decimal(targets)
}

/// The message about null targets.
pub open spec fn nulls_message(nulls: nat) -> Seq<char> {
    "target array can not contain nulls, contains "@ + crate::text::decimal(nulls) + " nulls"@
}

/// The message about a target that is no partition.
pub open spec fn bounds_message(target: nat, partitions: nat) -> Seq<char> {
    "idx in target array is out of bounds, target idx "@ + crate::text::decimal(target)
        + " out of "@ + crate::text::decimal(partitions) + " partitions"@
}

fn mismatch_error(rows: usize, targets: usize) -> (error: DaftError)
    ensures
        error matches DaftError::ValueError(text) && text@ == mismatch_message(
            rows as nat,
            targets as nat,
        ),
{
    let text: String = "Mismatch of length of table and targets, ".to_owned().concat(
        write_decimal(rows as u64).as_str(),
    ).concat(" vs ").concat(write_decimal(targets as u64).as_str());
    DaftError::ValueError(text)
}

fn nulls_error(nulls: usize) -> (error: DaftError)
    ensures
        error matches DaftError::ComputeError(text) && text@ == nulls_message(nulls as nat),
{
    let text: String = "target array can not contain nulls, contains ".to_owned().concat(
        write_decimal(nulls as u64).as_str(),
    ).concat(" nulls");
    DaftError::ComputeError(text)
}

fn bounds_error(target: u64, partitions: usize) -> (error: DaftError)
    ensures
        error matches DaftError::ComputeError(text) && text@ == bounds_message(
            target as nat,
            partitions as nat,
        ),
{
    let text: String = "idx in target array is out of bounds, target idx ".to_owned().concat(
        write_decimal(target).as_str(),
    ).concat(" out of ").concat(write_decimal(partitions as u64).as_str()).concat(" partitions");
    DaftError::ComputeError(text)
}

impl<T: Copy> RecordBatch<T> {
    /// Whether `parts` are the partitions that the targets give: each holds the
    /// rows whose target it is, in their order.
    pub open spec fn split_into(self, targets: Seq<u64>, parts: Seq<Self>) -> bool {
        forall|p: int|
            0 <= p < parts.len() ==> {
                &&& (#[trigger] parts[p]).cols() == crate::record_batch::picked(
                    self.cols(),
                    rows_for(targets, p, self.rows()),
                )
                &&& parts[p].rows() == rows_for(targets, p, self.rows()).len()
                &&& parts[p].fields() == self.fields()
            }
    }

    /// What `partition_by_index` returns.
    pub open spec fn partitioned(
        self,
        targets: Seq<Option<u64>>,
        partitions: usize,
        result: Result<Vec<Self>, DaftError>,
    ) -> bool {
        let values = target_values(targets);
        let nulls = nulls_below(targets, targets.len() as int);
        if targets.len() != self.rows() {
            result matches Err(DaftError::ValueError(text)) && text@ == mismatch_message(
                self.rows() as nat,
                targets.len(),
            )
        } else if nulls > 0 {
            result matches Err(DaftError::ComputeError(text)) && text@ == nulls_message(nulls)
        } else if exists|i: int| first_out_of_bounds(values, partitions as int, i) {
            result matches Err(DaftError::ComputeError(text)) && exists|i: int|
                first_out_of_bounds(values, partitions as int, i) && text@ == bounds_message(
                    #[trigger] values[i] as nat,
                    partitions as nat,
                )
        } else {
            result matches Ok(parts) && parts@.len() == partitions && self.split_into(
                values,
                parts@,
            )
        }
    }

    /// Splits the rows by the partition that each is sent to.
    ///
    /// Fails if there are more or fewer targets than rows, if a target is null,
    /// and if a target is no partition, in this order.
    pub fn partition_by_index(&self, targets: &[Option<u64>], num_partitions: usize) -> (result:
        Result<Vec<Self>, DaftError>)
        requires
            num_partitions < usize::MAX,
        ensures
            self.partitioned(targets@, num_partitions, result),
    {
        let n: usize = targets.len();
        if self.len() != n {
            return Err(mismatch_error(self.len(), n));
        }
        let ghost values = target_values(targets@);
        let mut nulls: usize = 0;
        let mut present: Vec<u64> = Vec::new();
        let mut i: usize = 0;
        while i < n
            invariant
                i <= n,
                n == targets@.len(),
                nulls <= i,
                nulls == nulls_below(targets@, i as int),
                nulls == 0 ==> present@.len() == i && (forall|j: int|
                    0 <= j < i ==> targets@[j] == Some(#[trigger] present@[j])),
            decreases n - i,
        {
            match targets[i] {
                Some(target) => {
                    present.push(target);
                },
                None => {
                    nulls = nulls + 1;
                },
            }
            i = i + 1;
        }
        if nulls != 0 {
            return Err(nulls_error(nulls));
        }
        assert(present@ =~= values);
        i = 0;
        while i < n
            invariant
                i <= n,
                n == targets@.len(),
                n == self.rows(),
                values == target_values(targets@),
                nulls_below(targets@, n as int) == 0,
                present@ == values,
                forall|j: int| 0 <= j < i ==> (#[trigger] present@[j]) < num_partitions,
            decreases n - i,
        {
            if present[i] >= num_partitions as u64 {
                assert(first_out_of_bounds(values, num_partitions as int, i as int));
                assert(values[i as int] == present@[i as int]);
                return Err(bounds_error(present[i], num_partitions));
            }
            i = i + 1;
        }
        let (offsets, permutation): (Vec<usize>, Vec<u64>) = plan_partitions(
            present.as_slice(),
            num_partitions,
        );
        proof {
            assert forall|k: int| 0 <= k < permutation@.len() implies (#[trigger] permutation@[k])
                < self.rows() by {
                lemma_plan_in_range(
                    values,
                    num_partitions as int,
                    offsets@,
                    permutation@,
                    k,
                );
            }
        }
        let gathered: Self = self.take(permutation.as_slice());
        let mut parts: Vec<Self> = Vec::new();
        let mut q: usize = 0;
        let ghost order = crate::record_batch::row_numbers(permutation@);
        while q < num_partitions
            invariant
                q <= num_partitions,
                num_partitions < usize::MAX,
                n == values.len(),
                n == self.rows(),
                offsets@.len() == num_partitions + 1,
                forall|p: int|
                    0 <= p <= num_partitions ==> #[trigger] offsets@[p] == rows_below(
                        values,
                        p,
                        n as int,
                    ),
                offsets@[num_partitions as int] == n,
                permutation@.len() == n,
                forall|p: int, k: int|
                    0 <= p < num_partitions && 0 <= k < rows_for(values, p, n as int).len()
                        ==> permutation@[offsets@[p] + k] == #[trigger] rows_for(
                        values,
                        p,
                        n as int,
                    )[k],
                order == crate::record_batch::row_numbers(permutation@),
                gathered.rows() == n,
                gathered.fields() == self.fields(),
                gathered.cols() == crate::record_batch::picked(self.cols(), order),
                parts@.len() == q,
                self.split_into(values, parts@),
            decreases num_partitions - q,
        {
            proof {
                lemma_rows_below_monotone(values, q as int, q + 1, n as int);
                lemma_rows_below_monotone(values, q + 1, num_partitions as int, n as int);
            }
            let part: Self = gathered.slice(offsets[q], offsets[q + 1]);
            proof {
                let rows = rows_for(values, q as int, n as int);
                let start = offsets@[q as int] as int;
                assert(order.subrange(start, start + rows.len()) =~= rows) by {
                    assert forall|k: int| 0 <= k < rows.len() implies order[start + k]
                        == rows[k] by {
                        assert(permutation@[offsets@[q as int] + k] == rows_for(
                            values,
                            q as int,
                            n as int,
                        )[k]);
                    }
                }
                assert(part.cols() =~= crate::record_batch::picked(self.cols(), rows)) by {
                    assert forall|c: int| 0 <= c < self.cols().len() implies part.cols()[c]
                        =~= crate::record_batch::picked(self.cols(), rows)[c] by {
                        assert forall|k: int| 0 <= k < rows.len() implies part.cols()[c][k]
                            == crate::record_batch::picked(self.cols(), rows)[c][k] by {
                            assert(order.subrange(start, start + rows.len())[k] == order[start
                                + k]);
                        }
                    }
                }
            }
            parts.push(part);
            q = q + 1;
        }
        proof {
            assert forall|i: int| !first_out_of_bounds(values, num_partitions as int, i) by {
                if 0 <= i < n {
                    assert(present@[i] < num_partitions);
                }
            }
        }
        Ok(parts)
    }
}

/// Every position of the plan belongs to a partition and so holds a row.
proof fn lemma_plan_in_range(
    targets: Seq<u64>,
    partitions: int,
    offsets: Seq<usize>,
    permutation: Seq<u64>,
    k: int,
)
    requires
        0 <= partitions,
        offsets.len() == partitions + 1,
        forall|p: int|
            0 <= p <= partitions ==> #[trigger] offsets[p] == rows_below(
                targets,
                p,
                targets.len() as int,
            ),
        offsets[partitions] == targets.len(),
        permutation.len() == targets.len(),
        forall|p: int, k: int|
            0 <= p < partitions && 0 <= k < rows_for(targets, p, targets.len() as int).len()
                ==> permutation[offsets[p] + k] == #[trigger] rows_for(
                targets,
                p,
                targets.len() as int,
            )[k],
        0 <= k < permutation.len(),
    ensures
        permutation[k] < targets.len(),
{
    let n = targets.len() as int;
    let p = partition_at(targets, partitions, n, k);
    lemma_partition_at(targets, partitions, n, k);
    law_rows_for(targets, p, n);
    let j = k - rows_below(targets, p, n);
    assert(permutation[offsets[p] + j] == rows_for(targets, p, n)[j]);
}

/// The partition, below `p`, that position `k` of a plan belongs to.
spec fn partition_at(targets: Seq<u64>, p: int, n: int, k: int) -> int
    decreases p,
{
    if p <= 0 || rows_below(targets, p - 1, n) <= k {
        p - 1
    } else {
        partition_at(targets, p - 1, n, k)
    }
}

proof fn lemma_partition_at(targets: Seq<u64>, p: int, n: int, k: int)
    requires
        0 <= p,
        0 <= k < rows_below(targets, p, n),
    ensures
        ({
            let q = partition_at(targets, p, n, k);
            &&& 0 <= q < p
            &&& rows_below(targets, q, n) <= k < rows_below(targets, q, n) + rows_for(
                targets,
                q,
                n,
            ).len()
        }),
    decreases p,
{
    if p > 0 && k < rows_below(targets, p - 1, n) {
        lemma_partition_at(targets, p - 1, n, k);
    }
}

/// Every target as one that is not null.
pub open spec fn some_targets(targets: Seq<u64>) -> Seq<Option<u64>> {
    Seq::new(targets.len(), |i: int| Some(targets[i]))
}

/// The partition of each hash.
pub open spec fn hash_targets(hashes: Seq<u64>, partitions: u64) -> Seq<u64> {
    Seq::new(hashes.len(), |i: int| hashes[i] % partitions)
}

/// The message about a split into no partitions.
pub open spec fn no_partitions_message() -> Seq<char> {
    "Can not partition a Table by 0 partitions"@
}

fn no_partitions_error() -> (error: DaftError)
    ensures
        error matches DaftError::ValueError(text) && text@ == no_partitions_message(),
{
    DaftError::ValueError("Can not partition a Table by 0 partitions".to_owned())
}

proof fn lemma_some_targets(targets: Seq<u64>, n: int)
    requires
        0 <= n <= targets.len(),
    ensures
        nulls_below(some_targets(targets), n) == 0,
        target_values(some_targets(targets)) == targets,
    decreases n,
{
    if n > 0 {
        lemma_some_targets(targets, n - 1);
    }
    assert(target_values(some_targets(targets)) =~= targets);
}

impl<T: Copy> RecordBatch<T> {
    /// Splits the rows by targets of which none is null.
    pub fn partition_by_targets(&self, targets: &[u64], num_partitions: usize) -> (result: Result<
        Vec<Self>,
        DaftError,
    >)
        requires
            num_partitions < usize::MAX,
        ensures
            self.partitioned(some_targets(targets@), num_partitions, result),
            targets@.len() == self.rows() && (forall|i: int|
                0 <= i < targets@.len() ==> (#[trigger] targets@[i]) < num_partitions) ==> {
                &&& result matches Ok(parts)
                &&& parts@.len() == num_partitions
                &&& self.split_into(targets@, parts@)
            },
    {
        let mut options: Vec<Option<u64>> = Vec::new();
        let mut i: usize = 0;
        while i < targets.len()
            invariant
                i <= targets@.len(),
                options@ == some_targets(targets@).take(i as int),
            decreases targets@.len() - i,
        {
            options.push(Some(targets[i]));
            i = i + 1;
            assert(options@ =~= some_targets(targets@).take(i as int));
        }
        proof {
            assert(options@ =~= some_targets(targets@));
            lemma_some_targets(targets@, targets@.len() as int);
        }
        self.partition_by_index(options.as_slice(), num_partitions)
    }

    /// Splits the rows by their hashes, modulo the number of partitions.
    pub fn partition_by_hash(&self, hashes: &[u64], num_partitions: usize) -> (result: Result<
        Vec<Self>,
        DaftError,
    >)
        requires
            num_partitions < usize::MAX,
        ensures
            num_partitions == 0 ==> (result matches Err(DaftError::ValueError(text)) && text@
                == no_partitions_message()),
            num_partitions > 0 && hashes@.len() != self.rows() ==> (result matches Err(
                DaftError::ValueError(text),
            ) && text@ == mismatch_message(self.rows() as nat, hashes@.len())),
            num_partitions > 0 && hashes@.len() == self.rows() ==> {
                &&& result matches Ok(parts)
                &&& parts@.len() == num_partitions
                &&& self.split_into(hash_targets(hashes@, num_partitions as u64), parts@)
            },
    {
        if num_partitions == 0 {
            return Err(no_partitions_error());
        }
        let mut targets: Vec<u64> = Vec::new();
        let mut i: usize = 0;
        while i < hashes.len()
            invariant
                0 < num_partitions,
                i <= hashes@.len(),
                targets@ == hash_targets(hashes@, num_partitions as u64).take(i as int),
            decreases hashes@.len() - i,
        {
            targets.push(hashes[i] % (num_partitions as u64));
            i = i + 1;
            assert(targets@ =~= hash_targets(hashes@, num_partitions as u64).take(i as int));
        }
        assert(targets@ =~= hash_targets(hashes@, num_partitions as u64));
        self.partition_by_targets(targets.as_slice(), num_partitions)
    }

    /// Sends each row to a partition drawn at random.
    pub fn partition_by_random(&self, num_partitions: usize, seed: u64) -> (result: Result<
        Vec<Self>,
        DaftError,
    >)
        requires
            num_partitions < usize::MAX,
        ensures
            num_partitions == 0 ==> (result matches Err(DaftError::ValueError(text)) && text@
                == no_partitions_message()),
            num_partitions > 0 ==> {
                &&& result matches Ok(parts)
                &&& parts@.len() == num_partitions
                &&& self.split_into(
                    crate::random::uniform_draws(
                        seed,
                        num_partitions as u64,
                        self.rows() as nat,
                    ),
                    parts@,
                )
            },
    {
        if num_partitions == 0 {
            return Err(no_partitions_error());
        }
        let targets: Vec<u64> = draw_uniform(seed, num_partitions as u64, self.len());
        self.partition_by_targets(targets.as_slice(), num_partitions)
    }

    /// Splits the rows between boundaries. A target is the number of boundaries
    /// that a row lies behind; without boundaries there is one partition, the
    /// batch itself.
    pub fn partition_by_range(&self, num_boundaries: usize, targets: &[Option<u64>]) -> (result:
        Result<Vec<Self>, DaftError>)
        requires
            num_boundaries < usize::MAX - 1,
        ensures
            num_boundaries == 0 ==> {
                &&& result matches Ok(parts)
                &&& parts@.len() == 1
                &&& parts@[0].cols() == self.cols()
                &&& parts@[0].rows() == self.rows()
                &&& parts@[0].fields() == self.fields()
            },
            num_boundaries > 0 ==> self.partitioned(
                targets@,
                (num_boundaries + 1) as usize,
                result,
            ),
    {
        if num_boundaries == 0 {
            let mut parts: Vec<Self> = Vec::new();
            parts.push(self.copy());
            return Ok(parts);
        }
        self.partition_by_index(targets, num_boundaries + 1)
    }

    /// The batches of the listed groups of rows.
    fn take_groups(&self, groups: &[Vec<u64>]) -> (parts: Vec<Self>)
        requires
            forall|g: int, k: int|
                0 <= g < groups@.len() && 0 <= k < groups@[g]@.len() ==> (
                #[trigger] groups@[g]@[k]) < self.rows(),
        ensures
            parts@.len() == groups@.len(),
            forall|g: int|
                0 <= g < groups@.len() ==> {
                    &&& (#[trigger] parts@[g]).rows() == groups@[g]@.len()
                    &&& parts@[g].fields() == self.fields()
                    &&& parts@[g].cols() == crate::record_batch::picked(self.cols(), crate::record_batch::row_numbers(groups@[g]@))
                },
    {
        let mut parts: Vec<Self> = Vec::new();
        let mut g: usize = 0;
        while g < groups.len()
            invariant
                g <= groups@.len(),
                forall|g: int, k: int|
                    0 <= g < groups@.len() && 0 <= k < groups@[g]@.len() ==> (
                    #[trigger] groups@[g]@[k]) < self.rows(),
                parts@.len() == g,
                forall|h: int|
                    0 <= h < g ==> {
                        &&& (#[trigger] parts@[h]).rows() == groups@[h]@.len()
                        &&& parts@[h].fields() == self.fields()
                        &&& parts@[h].cols() == crate::record_batch::picked(self.cols(), crate::record_batch::row_numbers(groups@[h]@))
                    },
            decreases groups@.len() - g,
        {
            parts.push(self.take(groups[g].as_slice()));
            g = g + 1;
        }
        parts
    }

    /// Splits the rows by the value of their keys.
    ///
    /// `keys` holds the key columns, `key_idx` a row of each group and
    /// `group_idx` the rows of each group. Returns the groups and their keys.
    pub fn partition_by_value(
        &self,
        keys: &Self,
        key_idx: &[u64],
        group_idx: &[Vec<u64>],
    ) -> (result: Result<(Vec<Self>, Self), DaftError>)
        requires
            forall|k: int| 0 <= k < key_idx@.len() ==> (#[trigger] key_idx@[k]) < keys.rows(),
            forall|g: int, k: int|
                0 <= g < group_idx@.len() && 0 <= k < group_idx@[g]@.len() ==> (
                #[trigger] group_idx@[g]@[k]) < self.rows(),
        ensures
            result matches Ok((parts, part_keys)) && {
                &&& part_keys.rows() == key_idx@.len()
                &&& part_keys.fields() == keys.fields()
                &&& part_keys.cols() == crate::record_batch::picked(keys.cols(), crate::record_batch::row_numbers(key_idx@))
                &&& parts@.len() == group_idx@.len()
                &&& forall|g: int|
                    0 <= g < group_idx@.len() ==> {
                        &&& (#[trigger] parts@[g]).rows() == group_idx@[g]@.len()
                        &&& parts@[g].fields() == self.fields()
                        &&& parts@[g].cols() == crate::record_batch::picked(self.cols(), crate::record_batch::row_numbers(group_idx@[g]@))
                    }
            },
    {
        let part_keys: Self = keys.take(key_idx);
        Ok((self.take_groups(group_idx), part_keys))
    }

    /// Splits the rows by the value of their keys, and keeps the listed columns
    /// only.
    pub fn partition_by_value_projected(
        &self,
        keys: &Self,
        key_idx: &[u64],
        group_idx: &[Vec<u64>],
        projection: &[usize],
    ) -> (result: Result<(Vec<Self>, Self), DaftError>)
        requires
            forall|k: int| 0 <= k < key_idx@.len() ==> (#[trigger] key_idx@[k]) < keys.rows(),
            forall|g: int, k: int|
                0 <= g < group_idx@.len() && 0 <= k < group_idx@[g]@.len() ==> (
                #[trigger] group_idx@[g]@[k]) < self.rows(),
            forall|k: int| 0 <= k < projection@.len() ==> (#[trigger] projection@[k])
                < self.cols().len(),
        ensures
            result matches Ok((parts, part_keys)) && {
                &&& part_keys.rows() == key_idx@.len()
                &&& part_keys.fields() == keys.fields()
                &&& part_keys.cols() == crate::record_batch::picked(keys.cols(), crate::record_batch::row_numbers(key_idx@))
                &&& parts@.len() == group_idx@.len()
                &&& forall|g: int|
                    0 <= g < group_idx@.len() ==> {
                        &&& (#[trigger] parts@[g]).rows() == group_idx@[g]@.len()
                        &&& parts@[g].fields() == crate::record_batch::projected(
                            self.fields(),
                            projection@,
                        )
                        &&& parts@[g].cols() == crate::record_batch::picked(
                            crate::record_batch::projected(self.cols(), projection@),
                            crate::record_batch::row_numbers(group_idx@[g]@),
                        )
                        &&& parts@[g].cols() == crate::record_batch::projected(
                            crate::record_batch::picked(
                                self.cols(),
                                crate::record_batch::row_numbers(group_idx@[g]@),
                            ),
                            projection@,
                        )
                    }
            },
    {
        let part_keys: Self = keys.take(key_idx);
        let narrow: Self = self.get_columns(projection);
        proof {
            assert forall|g: int| 0 <= g < group_idx@.len() implies crate::record_batch::picked(
                narrow.cols(),
                #[trigger] crate::record_batch::row_numbers(group_idx@[g]@),
            ) == crate::record_batch::projected(
                crate::record_batch::picked(
                    self.cols(),
                    crate::record_batch::row_numbers(group_idx@[g]@),
                ),
                projection@,
            ) by {
                law_projection_commutes(
                    self.cols(),
                    crate::record_batch::row_numbers(group_idx@[g]@),
                    projection@,
                );
            }
        }
        Ok((narrow.take_groups(group_idx), part_keys))
    }
}

/// How often a value occurs.
pub open spec fn count_of<A>(values: Seq<A>, value: A) -> nat {
    values.filter(|v: A| v == value).len()
}

/// Whether row `k` of a part is row `i` of the batch.
pub open spec fn is_row<T>(
    part: RecordBatch<T>,
    k: int,
    batch: RecordBatch<T>,
    i: int,
) -> bool {
    &&& 0 <= k < part.rows()
    &&& part.cols().len() == batch.cols().len()
    &&& forall|c: int|
        0 <= c < batch.cols().len() ==> part.cols()[c][k] == #[trigger] batch.cols()[c][i]
}

/// Whether a part holds row `i` of the batch.
pub open spec fn has_row<T>(part: RecordBatch<T>, batch: RecordBatch<T>, i: int) -> bool {
    exists|k: int| is_row(part, k, batch, i)
}

/// Where row `i` stands among the rows of its partition: behind those before it
/// with the same target.
proof fn lemma_row_at(targets: Seq<u64>, i: int, n: int)
    requires
        0 <= i < n <= targets.len(),
    ensures
        ({
            let k = count_of(targets.take(i), targets[i]) as int;
            let rows = rows_for(targets, targets[i] as int, n);
            &&& k < rows.len()
            &&& rows[k] == i
        }),
    decreases n,
{
    lemma_rows_for_len(targets, targets[i], i);
    if i < n - 1 {
        lemma_row_at(targets, i, n - 1);
    }
}

proof fn lemma_rows_for_len(targets: Seq<u64>, p: u64, n: int)
    requires
        0 <= n <= targets.len(),
    ensures
        rows_for(targets, p as int, n).len() == count_of(targets.take(n), p),
    decreases n,
{
    reveal(Seq::filter);
    if n > 0 {
        lemma_rows_for_len(targets, p, n - 1);
        assert(targets.take(n).drop_last() =~= targets.take(n - 1));
    }
}

proof fn lemma_parts_sum<T: Copy>(
    batch: RecordBatch<T>,
    targets: Seq<u64>,
    parts: Seq<RecordBatch<T>>,
    q: int,
)
    requires
        batch.split_into(targets, parts),
        0 <= q <= parts.len(),
    ensures
        parts.take(q).fold_left(0int, |sum: int, part: RecordBatch<T>| sum + part.rows())
            == rows_below(targets, q, batch.rows()),
    decreases q,
{
    if q > 0 {
        lemma_parts_sum(batch, targets, parts, q - 1);
        assert(parts.take(q).drop_last() =~= parts.take(q - 1));
        assert(parts.take(q).last() == parts[q - 1]);
    }
}

/// The parts hold every row of the batch exactly once. Their lengths add up to its
/// number of rows, a part has as many rows as it is the target of, and row `i` lies
/// in the part that is its target, behind the rows before it with that target.
pub proof fn law_parts_hold_every_row<T: Copy>(
    batch: RecordBatch<T>,
    targets: Seq<u64>,
    parts: Seq<RecordBatch<T>>,
)
    requires
        batch.split_into(targets, parts),
        targets.len() == batch.rows(),
        parts.len() <= u64::MAX + 1,
        forall|i: int| 0 <= i < targets.len() ==> (#[trigger] targets[i]) < parts.len(),
    ensures
        parts.fold_left(0int, |sum: int, part: RecordBatch<T>| sum + part.rows()) == batch.rows(),
        forall|p: int|
            0 <= p < parts.len() ==> {
                &&& (#[trigger] parts[p]).rows() == count_of(targets, p as u64)
                &&& parts[p].fields() == batch.fields()
                &&& parts[p].cols().len() == batch.cols().len()
            },
        forall|i: int|
            0 <= i < targets.len() ==> is_row(
                parts[#[trigger] targets[i] as int],
                count_of(targets.take(i), targets[i]) as int,
                batch,
                i,
            ),
{
    let n = targets.len() as int;
    assert(targets.take(n) =~= targets);
    assert(parts.take(parts.len() as int) =~= parts);
    lemma_parts_sum(batch, targets, parts, parts.len() as int);
    law_partitions_hold_every_row(targets, parts.len() as int, n);
    assert forall|p: int| 0 <= p < parts.len() implies {
        &&& (#[trigger] parts[p]).rows() == count_of(targets, p as u64)
        &&& parts[p].fields() == batch.fields()
        &&& parts[p].cols().len() == batch.cols().len()
    } by {
        lemma_rows_for_len(targets, p as u64, n);
    }
    assert forall|i: int| 0 <= i < targets.len() implies is_row(
        parts[#[trigger] targets[i] as int],
        count_of(targets.take(i), targets[i]) as int,
        batch,
        i,
    ) by {
        assert(targets[i] < parts.len());
        lemma_row_at(targets, i, n);
        assert(parts[targets[i] as int].rows() == rows_for(targets, targets[i] as int, n).len());
    }
}

proof fn lemma_nulls(targets: Seq<Option<u64>>, n: int)
    requires
        0 <= n <= targets.len(),
    ensures
        nulls_below(targets, n) == count_of(targets.take(n), None),
        nulls_below(targets, n) == 0 <==> forall|i: int|
            0 <= i < n ==> (#[trigger] targets[i]) is Some,
    decreases n,
{
    reveal(Seq::filter);
    if n > 0 {
        lemma_nulls(targets, n - 1);
        assert(targets.take(n).drop_last() =~= targets.take(n - 1));
        assert(targets.take(n).last() == targets[n - 1]);
    }
}

/// Splitting by index succeeds exactly if there is one target for each row, none
/// is null and each is a partition. It then gives as many parts as were asked for,
/// and row `i` lies in part `targets[i]`. Else the error is about the value of the
/// table exactly if the lengths differ.
pub proof fn law_partition_outcome<T: Copy>(
    batch: RecordBatch<T>,
    targets: Seq<Option<u64>>,
    partitions: usize,
    result: Result<Vec<RecordBatch<T>>, DaftError>,
)
    requires
        batch.partitioned(targets, partitions, result),
    ensures
        result is Ok <==> targets.len() == batch.rows() && forall|i: int|
            0 <= i < targets.len() ==> (#[trigger] targets[i]) is Some && targets[i]->0
                < partitions,
        result matches Err(error) ==> (error is ValueError <==> targets.len() != batch.rows()),
        result matches Err(error) ==> (error is ComputeError <==> targets.len() == batch.rows()),
        result matches Ok(parts) ==> {
            &&& parts@.len() == partitions
            &&& parts@.fold_left(0int, |sum: int, part: RecordBatch<T>| sum + part.rows())
                == batch.rows()
            &&& forall|i: int|
                0 <= i < targets.len() ==> is_row(
                    parts@[(#[trigger] targets[i])->0 as int],
                    count_of(targets.take(i), targets[i]) as int,
                    batch,
                    i,
                )
        },
{
    let n = targets.len() as int;
    let values = target_values(targets);
    lemma_nulls(targets, n);
    assert(targets.take(n) =~= targets);
    if targets.len() == batch.rows() && nulls_below(targets, n) == 0 {
        if forall|i: int| 0 <= i < n ==> (#[trigger] targets[i]) is Some && targets[i]->0
            < partitions {
            assert forall|i: int| !first_out_of_bounds(values, partitions as int, i) by {
                if 0 <= i < n {
                    assert(targets[i]->0 < partitions);
                }
            }
        } else {
            let i = choose|i: int|
                0 <= i < n && !((#[trigger] targets[i]) is Some && targets[i]->0 < partitions);
            assert(values[i] >= partitions);
            lemma_some_first(values, partitions as int, i);
        }
        if let Ok(parts) = result {
            assert forall|i: int| 0 <= i < values.len() implies (#[trigger] values[i])
                < parts@.len() by {
                assert(targets[i]->0 < partitions);
            }
            law_parts_hold_every_row(batch, values, parts@);
            assert forall|i: int| 0 <= i < targets.len() implies is_row(
                parts@[(#[trigger] targets[i])->0 as int],
                count_of(targets.take(i), targets[i]) as int,
                batch,
                i,
            ) by {
                lemma_filter_values(targets, values[i], i);
                assert(targets[i] == Some(values[i]));
            }
        }
    }
}

proof fn lemma_some_first(targets: Seq<u64>, partitions: int, i: int)
    requires
        0 <= i < targets.len(),
        targets[i] >= partitions,
    ensures
        exists|j: int| first_out_of_bounds(targets, partitions, j),
    decreases i,
{
    if forall|j: int| 0 <= j < i ==> (#[trigger] targets[j]) < partitions {
        assert(first_out_of_bounds(targets, partitions, i));
    } else {
        let j = choose|j: int| 0 <= j < i && !((#[trigger] targets[j]) < partitions);
        lemma_some_first(targets, partitions, j);
    }
}

proof fn lemma_filter_values(targets: Seq<Option<u64>>, p: u64, n: int)
    requires
        0 <= n <= targets.len(),
        forall|i: int| 0 <= i < n ==> (#[trigger] targets[i]) is Some,
    ensures
        count_of(target_values(targets).take(n), p) == count_of(targets.take(n), Some(p)),
    decreases n,
{
    reveal(Seq::filter);
    if n > 0 {
        lemma_filter_values(targets, p, n - 1);
        assert(target_values(targets).take(n).drop_last() =~= target_values(targets).take(n - 1));
        assert(targets.take(n).drop_last() =~= targets.take(n - 1));
        assert(targets.take(n).last() == targets[n - 1]);
    }
}

/// Splitting by hash sends row `i` to the part whose number is the remainder of its
/// hash, and every row is in one part.
pub proof fn law_parts_by_hash<T: Copy>(
    batch: RecordBatch<T>,
    hashes: Seq<u64>,
    partitions: u64,
    parts: Seq<RecordBatch<T>>,
)
    requires
        0 < partitions,
        parts.len() == partitions,
        hashes.len() == batch.rows(),
        batch.split_into(hash_targets(hashes, partitions), parts),
    ensures
        parts.fold_left(0int, |sum: int, part: RecordBatch<T>| sum + part.rows()) == batch.rows(),
        forall|i: int|
            0 <= i < hashes.len() ==> has_row(
                parts[(#[trigger] hashes[i]) as int % partitions as int],
                batch,
                i,
            ),
{
    let targets = hash_targets(hashes, partitions);
    law_parts_hold_every_row(batch, targets, parts);
    assert forall|i: int| 0 <= i < hashes.len() implies has_row(
        parts[(#[trigger] hashes[i]) as int % partitions as int],
        batch,
        i,
    ) by {
        let k = count_of(targets.take(i), targets[i]) as int;
        assert(targets[i] == hashes[i] as int % partitions as int);
        assert(is_row(parts[targets[i] as int], k, batch, i));
    }
}

/// A part that is split off with some columns only is the whole part with those
/// columns picked out.
pub proof fn law_projection_commutes<T>(
    columns: Seq<Seq<T>>,
    rows: Seq<int>,
    projection: Seq<usize>,
)
    requires
        forall|k: int| 0 <= k < projection.len() ==> (#[trigger] projection[k]) < columns.len(),
    ensures
        crate::record_batch::picked(crate::record_batch::projected(columns, projection), rows)
            == crate::record_batch::projected(
            crate::record_batch::picked(columns, rows),
            projection,
        ),
{
    let narrow = crate::record_batch::picked(
        crate::record_batch::projected(columns, projection),
        rows,
    );
    let wide = crate::record_batch::projected(
        crate::record_batch::picked(columns, rows),
        projection,
    );
    assert forall|k: int| 0 <= k < projection.len() implies narrow[k] =~= wide[k] by {
        assert(projection[k] < columns.len());
    }
    assert(narrow =~= wide);
}

/// The rows of the first `k` groups, one group after the other.
pub open spec fn grouped_rows(groups: Seq<Seq<u64>>, k: int) -> Seq<u64>
    decreases k,
{
    if k <= 0 {
        Seq::empty()
    } else {
        grouped_rows(groups, k - 1) + groups[k - 1]
    }
}

/// The number of rows of the first `k` groups.
pub open spec fn group_sizes(groups: Seq<Seq<u64>>, k: int) -> int
    decreases k,
{
    if k <= 0 {
        0
    } else {
        group_sizes(groups, k - 1) + groups[k - 1].len()
    }
}

/// Where every row is in one group and in no other, the lengths of the parts by
/// value add up to the number of rows.
pub proof fn law_groups_hold_every_row(groups: Seq<Seq<u64>>, rows: nat)
    requires
        rows <= u64::MAX + 1,
        grouped_rows(groups, groups.len() as int).no_duplicates(),
        forall|row: u64|
            row < rows <==> #[trigger] grouped_rows(groups, groups.len() as int).contains(row),
    ensures
        group_sizes(groups, groups.len() as int) == rows,
{
    let all = grouped_rows(groups, groups.len() as int);
    let numbers = Seq::new(rows, |i: int| i as u64);
    lemma_group_sizes(groups, groups.len() as int);
    all.unique_seq_to_set();
    numbers.unique_seq_to_set();
    assert(all.to_set() =~= numbers.to_set()) by {
        assert forall|row: u64| all.to_set().contains(row) <==> numbers.to_set().contains(row) by {
            if row < rows {
                assert(numbers[row as int] == row);
                assert(all.contains(row));
            }
            if all.contains(row) {
                assert(row < rows);
            }
        }
    }
}

proof fn lemma_group_sizes(groups: Seq<Seq<u64>>, k: int)
    requires
        0 <= k <= groups.len(),
    ensures
        group_sizes(groups, k) == grouped_rows(groups, k).len(),
    decreases k,
{
    if k > 0 {
        lemma_group_sizes(groups, k - 1);
    }
}

/// Rows with the same hash go to the same partition.
pub proof fn law_same_hash_same_partition(hashes: Seq<u64>, partitions: u64, i: int, j: int)
    requires
        0 < partitions,
        0 <= i < hashes.len(),
        0 <= j < hashes.len(),
        hashes[i] == hashes[j],
    ensures
        forall|p: int|
            rows_for(hash_targets(hashes, partitions), p, hashes.len() as int).contains(i)
                <==> rows_for(hash_targets(hashes, partitions), p, hashes.len() as int).contains(
                j,
            ),
{
    let targets = hash_targets(hashes, partitions);
    let n = hashes.len() as int;
    assert forall|p: int|
        rows_for(targets, p, n).contains(i) <==> rows_for(targets, p, n).contains(j) by {
        law_rows_for(targets, p, n);
        assert(targets[i] == targets[j]);
        if rows_for(targets, p, n).contains(i) {
            let k = choose|k: int|
                0 <= k < rows_for(targets, p, n).len() && rows_for(targets, p, n)[k] == i;
            assert(targets[rows_for(targets, p, n)[k]] == p);
        }
        if rows_for(targets, p, n).contains(j) {
            let k = choose|k: int|
                0 <= k < rows_for(targets, p, n).len() && rows_for(targets, p, n)[k] == j;
            assert(targets[rows_for(targets, p, n)[k]] == p);
        }
    }
}

} // verus!
