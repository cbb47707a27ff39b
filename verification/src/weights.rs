use vstd::prelude::*;

verus! {

/// The number of points of the three-objective weight lattice with `h + 6` divisions:
/// 28, 36, 45, ... (two more divisions than the index of the entry, plus six).
pub open spec fn lattice_size(i: int) -> int {
    (i + 7) * (i + 8) / 2
}

/// The absolute value.
pub open spec fn abs(x: int) -> int {
    if x < 0 {
        -x
    } else {
        x
    }
}

/// The search over the lattice sizes from entry `i`, with `dist` the smallest distance to the
/// population size so far: it stops at the first entry farther away than that, and the number of
/// divisions is five more than the entry's index.
pub open spec fn division_search(pop_size: int, i: int, dist: int) -> int
    decreases 28 - i,
{
    if i >= 28 {
        33
    } else {
        let c = abs(pop_size - lattice_size(i));
        if c > dist {
            i + 5
        } else {
            division_search(pop_size, i + 1, if c < dist { c } else { dist })
        }
    }
}

/// The number of divisions of each objective's axis for a three-objective population: the
/// lattice whose size is nearest the population size, searched from the smallest.
pub open spec fn divisions(pop_size: int) -> int {
    division_search(pop_size, 0, pop_size - lattice_size(0))
}

/// The number of divisions of each objective's axis that gives a three-objective weight lattice
/// about as large as the population.
pub fn lattice_divisions(pop_size: usize) -> (h: usize)
    requires
        pop_size <= 577,
    ensures
        h == divisions(pop_size as int),
{
    let p = pop_size as i64;
    let mut dist: i64 = p - 28;
    let mut i: i64 = 0;
    loop
        invariant
            0 <= i <= 27,
            p == pop_size,
            p <= 577,
            i == 0 ==> dist == p - 28,
            i >= 1 ==> dist <= abs(p - lattice_size(i - 1)),
            -28 <= dist <= 577,
            division_search(p as int, i as int, dist as int) == divisions(pop_size as int),
        decreases 28 - i,
    {
        proof {
            assert((i + 7) * (i + 8) <= 35 * 35) by (nonlinear_arith)
                requires 0 <= i <= 27;
            assert(0 <= (i + 7) * (i + 8)) by (nonlinear_arith)
                requires 0 <= i;
        }
        let size = (i + 7) * (i + 8) / 2;
        let c_dist = if p - size < 0 {
            size - p
        } else {
            p - size
        };
        proof {
            assert(size == lattice_size(i as int));
            assert(c_dist == abs(p - lattice_size(i as int)));
        }
        if c_dist > dist {
            return (i + 5) as usize;
        }
        if c_dist < dist {
            dist = c_dist;
        }
        proof {
            if i == 27 {
                assert((26int + 7) * (26int + 8) == 1122) by (nonlinear_arith);
                assert((27int + 7) * (27int + 8) == 1190) by (nonlinear_arith);
                assert(lattice_size(26) == 561);
                assert(lattice_size(27) == 595);
                assert(false);
            }
        }
        i = i + 1;
    }
}

/// One row of the weight lattice: the points with first coordinate `i`, in order of the second.
pub open spec fn lattice_row(h: int, i: int) -> Seq<(usize, usize, usize)> {
    Seq::new((h - i + 1) as nat, |j: int| (i as usize, j as usize, (h - i - j) as usize))
}

/// The first `m` rows of the weight lattice.
pub open spec fn lattice_upto(h: int, m: int) -> Seq<(usize, usize, usize)>
    decreases m,
{
    if m <= 0 {
        Seq::empty()
    } else {
        lattice_upto(h, m - 1) + lattice_row(h, m - 1)
    }
}

/// The points `(i, j, k)` with `i + j + k == h`, in lexicographic order: the weight vectors of
/// a three-objective decomposition before they are scaled.
pub fn lattice_points(h: usize) -> (points: Vec<(usize, usize, usize)>)
    requires
        2 * h < usize::MAX,
    ensures
        points@ == lattice_upto(h as int, h as int + 1),
{
    let mut points: Vec<(usize, usize, usize)> = Vec::new();
    let mut i: usize = 0;
    while i <= h
        invariant
            2 * h < usize::MAX,
            i <= h + 1,
            points@ == lattice_upto(h as int, i as int),
        decreases h + 1 - i,
    {
        let ghost before = points@;
        let mut j: usize = 0;
        while j <= h
            invariant
                2 * h < usize::MAX,
                i <= h,
                j <= h + 1,
                points@ == before + lattice_row(h as int, i as int).take(if j <= h - i + 1 {
                    j as int
                } else {
                    h - i + 1
                }),
            decreases h + 1 - j,
        {
            if i + j <= h {
                let k = h - i - j;
                let ghost prev = points@;
                points.push((i, j, k));
                proof {
                    let row = lattice_row(h as int, i as int);
                    assert(row[j as int] == (i, j, k));
                    assert(row.take(j as int + 1) =~= row.take(j as int).push(row[j as int]));
                    assert(points@ =~= before + row.take(j as int + 1));
                }
            } else {
                proof {
                    let row = lattice_row(h as int, i as int);
                    assert(row.take(h - i + 1) == row.take(h - i + 1));
                }
            }
            j += 1;
        }
        proof {
            let row = lattice_row(h as int, i as int);
            assert(row.take(h - i + 1) =~= row);
            assert(lattice_upto(h as int, i as int + 1) == before + row);
        }
        i += 1;
    }
    points
}

} // verus!
