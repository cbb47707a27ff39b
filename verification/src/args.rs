use vstd::prelude::*;

verus! {

/// The data-centre sizes (switch port counts) of a test-size group: 1, 2 and 3 pick fixed groups,
/// any other id all sizes from 12 to 32 in steps of 4.
pub open spec fn test_sizes_spec(test_size_id: usize) -> Seq<usize> {
    if test_size_id == 1 {
        seq![12usize, 16, 20]
    } else if test_size_id == 2 {
        seq![24usize, 28]
    } else if test_size_id == 3 {
        seq![32usize]
    } else {
        seq![12usize, 16, 20, 24, 28, 32]
    }
}

/// The data-centre sizes of a test-size group.
pub fn test_sizes(test_size_id: usize) -> (sizes: Vec<usize>)
    ensures
        sizes@ == test_sizes_spec(test_size_id),
{
    let mut sizes: Vec<usize> = Vec::new();
    if test_size_id == 1 {
        sizes.push(12);
        sizes.push(16);
        sizes.push(20);
    } else if test_size_id == 2 {
        sizes.push(24);
        sizes.push(28);
    } else if test_size_id == 3 {
        sizes.push(32);
    } else {
        let mut size: usize = 12;
        while size <= 32
            invariant
                12 <= size <= 36,
                (size - 12) % 4 == 0,
                sizes@ =~= Seq::new(((size - 12) / 4) as nat, |i: int| (12 + 4 * i) as usize),
            decreases 36 - size,
        {
            sizes.push(size);
            size += 4;
        }
        assert(sizes@ =~= seq![12usize, 16, 20, 24, 28, 32]);
    }
    sizes
}

/// The runs that part `split_part` of `num_split` equal parts of `num_runs` runs covers: from
/// `split_part * (num_runs / num_split)` for `num_runs / num_split` runs.
pub open spec fn run_range_spec(num_runs: int, num_split: int, split_part: int) -> (int, int) {
    let split_len = num_runs / num_split;
    (split_part * split_len, split_part * split_len + split_len)
}

/// The runs that one part of a split covers, as a half-open range.
pub fn split_run_range(num_runs: usize, num_split: usize, split_part: usize) -> (range: (usize, usize))
    requires
        num_split > 0,
        split_part * (num_runs / num_split) + num_runs / num_split <= usize::MAX,
    ensures
        (range.0 as int, range.1 as int) == run_range_spec(num_runs as int, num_split as int, split_part as int),
{
    let split_len = num_runs / num_split;
    let min_split = split_part * split_len;
    let max_split = min_split + split_len;
    (min_split, max_split)
}

/// The parts of a split follow each other without gap or overlap, each part ending where the
/// next begins, and every part of the split lies within the runs.
pub proof fn lemma_split_parts_tile(num_runs: nat, num_split: nat, split_part: nat)
    requires
        num_split > 0,
        split_part < num_split,
    ensures
        run_range_spec(num_runs as int, num_split as int, split_part as int).1 == run_range_spec(
            num_runs as int,
            num_split as int,
            split_part + 1int,
        ).0,
        0 <= run_range_spec(num_runs as int, num_split as int, split_part as int).0 <= run_range_spec(
            num_runs as int,
            num_split as int,
            split_part as int,
        ).1 <= num_runs,
{
    let n = num_runs as int;
    let s = num_split as int;
    let p = split_part as int;
    let l = n / s;
    assert(0 <= l) by (nonlinear_arith) requires n >= 0, s > 0, l == n / s;
    assert(s * l <= n) by (nonlinear_arith) requires s > 0, n >= 0, l == n / s;
    assert(p * l + l == (p + 1) * l) by (nonlinear_arith);
    assert((p + 1) * l <= s * l) by (nonlinear_arith) requires p + 1 <= s, l >= 0;
    assert(0 <= p * l) by (nonlinear_arith) requires p >= 0, l >= 0;
}

} // verus!
