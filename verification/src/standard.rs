use vstd::prelude::*;

use crate::operators::Solution;
use crate::random::{random_below, random_bool};
use rand::rngs::ThreadRng;

verus! {

/// An entry copies another: both are empty, or it holds a clone of the other's character.
pub open spec fn copies<X: Clone>(from: Option<X>, to: Option<X>) -> bool {
    match from {
        None => to is None,
        Some(a) => to is Some && cloned(a, to->0),
    }
}

/// An entry drawn from the characters: empty, or a clone of one of them.
pub open spec fn drawn_from<X: Clone>(characters: Seq<X>, e: Option<X>) -> bool {
    e is None || exists|k: int| 0 <= k < characters.len() && cloned(#[trigger] characters[k], e->0)
}

/// The two children of crossing two parents position by position: where `keep(i)` holds, the
/// first child copies the first parent and the second child the second parent; elsewhere the
/// other way round. Both are as long as the first parent.
pub open spec fn children_of<X: Clone>(
    p1: Seq<Option<X>>,
    p2: Seq<Option<X>>,
    keep: spec_fn(int) -> bool,
    a: Seq<Option<X>>,
    b: Seq<Option<X>>,
) -> bool {
    &&& a.len() == p1.len()
    &&& b.len() == p1.len()
    &&& forall|i: int|
        0 <= i < p1.len() ==> if keep(i) {
            copies(p1[i], #[trigger] a[i]) && copies(p2[i], b[i])
        } else {
            copies(p2[i], a[i]) && copies(p1[i], b[i])
        }
}

/// Keep the first parent's entries before `point`.
pub open spec fn before(point: int) -> spec_fn(int) -> bool {
    |i: int| i < point
}

/// Keep the first parent's entries where `mask` is set.
pub open spec fn where_set(mask: Seq<bool>) -> spec_fn(int) -> bool {
    |i: int| mask[i]
}

fn copy_entry<X: Clone>(e: &Option<X>) -> (r: Option<X>)
    ensures
        copies(*e, r),
{
    e.clone()
}

/// Crosses two parents position by position: where `mask` is set the first child takes the
/// first parent's entry and the second child the second parent's; elsewhere the other way round.
pub fn cross_with_mask<X: Clone>(parent_one: &Solution<X>, parent_two: &Solution<X>, choice: &Vec<bool>) -> (children: Vec<
    Solution<X>,
>)
    requires
        parent_two@.len() >= parent_one@.len(),
        choice@.len() >= parent_one@.len(),
    ensures
        children@.len() == 2,
        children_of(parent_one@, parent_two@, where_set(choice@), children@[0]@, children@[1]@),
{
    let length = parent_one.len();
    let mut child_a: Vec<Option<X>> = Vec::with_capacity(length);
    let mut child_b: Vec<Option<X>> = Vec::with_capacity(length);
    let mut i: usize = 0;
    while i < length
        invariant
            length == parent_one@.len(),
            parent_two@.len() >= length,
            choice@.len() >= length,
            i <= length,
            child_a@.len() == i,
            child_b@.len() == i,
            forall|j: int|
                0 <= j < i && #[trigger] choice@[j] ==> copies(parent_one@[j], child_a@[j]) && copies(
                    parent_two@[j],
                    child_b@[j],
                ),
            forall|j: int|
                0 <= j < i && !#[trigger] choice@[j] ==> copies(parent_two@[j], child_a@[j]) && copies(
                    parent_one@[j],
                    child_b@[j],
                ),
        decreases length - i,
    {
        let keep = choice[i];
        if keep {
            child_a.push(copy_entry(&parent_one[i]));
            child_b.push(copy_entry(&parent_two[i]));
        } else {
            child_a.push(copy_entry(&parent_two[i]));
            child_b.push(copy_entry(&parent_one[i]));
        }
        i += 1;
    }
    let mut children: Vec<Solution<X>> = Vec::new();
    children.push(child_a);
    children.push(child_b);
    children
}

/// Uniform crossover: a fair coin decides, at each position, which child takes which parent's
/// entry.
pub fn uniform_crossover<X: Clone>(parent_one: &Solution<X>, parent_two: &Solution<X>, rng: &mut ThreadRng) -> (children:
    Vec<Solution<X>>)
    requires
        parent_two@.len() >= parent_one@.len(),
    ensures
        children@.len() == 2,
        exists|mask: Seq<bool>|
            mask.len() == parent_one@.len() && children_of(
                parent_one@,
                parent_two@,
                #[trigger] where_set(mask),
                children@[0]@,
                children@[1]@,
            ),
{
    let length = parent_one.len();
    let mut mask: Vec<bool> = Vec::with_capacity(length);
    let mut i: usize = 0;
    while i < length
        invariant
            i <= length,
            mask@.len() == i,
        decreases length - i,
    {
        mask.push(random_bool(rng));
        i += 1;
    }
    let children = cross_with_mask(parent_one, parent_two, &mask);
    proof {
        assert(mask@.len() == parent_one@.len());
    }
    children
}

/// Crosses two parents at `point`: the first child takes the first parent's entries before the
/// point and the second parent's from it on, the second child the other way round.
pub fn cross_at_point<X: Clone>(parent_one: &Solution<X>, parent_two: &Solution<X>, point: usize) -> (children: Vec<
    Solution<X>,
>)
    requires
        parent_two@.len() >= parent_one@.len(),
    ensures
        children@.len() == 2,
        children_of(parent_one@, parent_two@, before(point as int), children@[0]@, children@[1]@),
{
    let length = parent_one.len();
    let mut child_a: Vec<Option<X>> = Vec::with_capacity(length);
    let mut child_b: Vec<Option<X>> = Vec::with_capacity(length);
    let mut i: usize = 0;
    while i < length
        invariant
            length == parent_one@.len(),
            parent_two@.len() >= length,
            i <= length,
            child_a@.len() == i,
            child_b@.len() == i,
            forall|j: int|
                0 <= j < i ==> if j < point {
                    copies(parent_one@[j], #[trigger] child_a@[j]) && copies(parent_two@[j], child_b@[j])
                } else {
                    copies(parent_two@[j], child_a@[j]) && copies(parent_one@[j], child_b@[j])
                },
        decreases length - i,
    {
        if i < point {
            child_a.push(copy_entry(&parent_one[i]));
            child_b.push(copy_entry(&parent_two[i]));
        } else {
            child_a.push(copy_entry(&parent_two[i]));
            child_b.push(copy_entry(&parent_one[i]));
        }
        i += 1;
    }
    let mut children: Vec<Solution<X>> = Vec::new();
    children.push(child_a);
    children.push(child_b);
    children
}

/// One-point crossover at a point drawn from the positions of the first parent.
pub fn one_point_crossover<X: Clone>(parent_one: &Solution<X>, parent_two: &Solution<X>, rng: &mut ThreadRng) -> (children:
    Vec<Solution<X>>)
    requires
        parent_one@.len() > 0,
        parent_two@.len() >= parent_one@.len(),
    ensures
        children@.len() == 2,
        exists|point: int|
            0 <= point < parent_one@.len() && children_of(
                parent_one@,
                parent_two@,
                #[trigger] before(point),
                children@[0]@,
                children@[1]@,
            ),
{
    let point = random_below(rng, 0, parent_one.len());
    let children = cross_at_point(parent_one, parent_two, point);
    proof {
        assert(children_of(parent_one@, parent_two@, before(point as int), children@[0]@, children@[1]@));
    }
    children
}

/// A draw among the empty entry and the characters, all equally likely: `0` is empty, `k + 1`
/// is character `k`.
pub fn entry_for_draw<X: Clone>(characters: &Vec<X>, draw: usize) -> (e: Option<X>)
    requires
        draw <= characters@.len(),
    ensures
        draw == 0 ==> e is None,
        draw > 0 ==> e is Some && cloned(characters@[draw - 1], e->0),
{
    if draw == 0 {
        None
    } else {
        Some(characters[draw - 1].clone())
    }
}

fn random_entry<X: Clone>(characters: &Vec<X>, rng: &mut ThreadRng) -> (e: Option<X>)
    requires
        characters@.len() < usize::MAX,
    ensures
        drawn_from(characters@, e),
{
    let draw = random_below(rng, 0, characters.len() + 1);
    let e = entry_for_draw(characters, draw);
    proof {
        if draw > 0 {
            assert(cloned(characters@[draw - 1], e->0));
        }
    }
    e
}

/// A random solution of the given length: each entry empty or one of the characters, each of
/// these equally likely.
pub fn uniform_solution<X: Clone>(characters: &Vec<X>, solution_length: usize, rng: &mut ThreadRng) -> (solution:
    Solution<X>)
    requires
        characters@.len() < usize::MAX,
    ensures
        solution@.len() == solution_length,
        forall|i: int| 0 <= i < solution_length ==> drawn_from(characters@, #[trigger] solution@[i]),
{
    let mut solution: Vec<Option<X>> = Vec::new();
    let mut i: usize = 0;
    while i < solution_length
        invariant
            characters@.len() < usize::MAX,
            i <= solution_length,
            solution@.len() == i,
            forall|j: int| 0 <= j < i ==> drawn_from(characters@, #[trigger] solution@[j]),
        decreases solution_length - i,
    {
        let e = random_entry(characters, rng);
        solution.push(e);
        i += 1;
    }
    solution
}

/// Makes each position of a solution the mutation asks for (`mutate`) empty or one of the
/// characters, each equally likely; the other positions keep their entries.
pub fn mutate_positions<X: Clone>(
    solution: &Solution<X>,
    characters: &Vec<X>,
    mutate: &Vec<bool>,
    rng: &mut ThreadRng,
) -> (mutated: Solution<X>)
    requires
        characters@.len() < usize::MAX,
        mutate@.len() >= solution@.len(),
    ensures
        mutated@.len() == solution@.len(),
        forall|i: int|
            0 <= i < solution@.len() ==> if mutate@[i] {
                drawn_from(characters@, #[trigger] mutated@[i])
            } else {
                copies(solution@[i], mutated@[i])
            },
{
    let mut mutated: Vec<Option<X>> = Vec::with_capacity(solution.len());
    let mut i: usize = 0;
    while i < solution.len()
        invariant
            characters@.len() < usize::MAX,
            mutate@.len() >= solution@.len(),
            i <= solution@.len(),
            mutated@.len() == i,
            forall|j: int|
                0 <= j < i ==> if mutate@[j] {
                    drawn_from(characters@, #[trigger] mutated@[j])
                } else {
                    copies(solution@[j], mutated@[j])
                },
        decreases solution@.len() - i,
    {
        if mutate[i] {
            let e = random_entry(characters, rng);
            mutated.push(e);
        } else {
            mutated.push(copy_entry(&solution[i]));
        }
        i += 1;
    }
    mutated
}

} // verus!
