//! Comparing the classes that clustering gave with the classes that a
//! dataset came with.

use crate::neighbourhood::RowId;
use std::collections::{BTreeMap, HashSet};
use vstd::prelude::*;

verus! {

/// How far two labellings of the same rows agree: the number of rows that
/// were compared, and how many of them carry the same class in both.
#[derive(Clone, Copy, Debug, PartialEq, Eq)]
pub struct Agreement {
    pub matching: usize,
    pub compared: usize,
}

/// The number of rows below `upto` that hold the same point in both data
/// sets.
pub open spec fn compared_upto(same_point: Seq<bool>, upto: int) -> nat
    decreases upto,
{
    if upto <= 0 {
        0
    } else if same_point[upto - 1] {
        compared_upto(same_point, upto - 1) + 1
    } else {
        compared_upto(same_point, upto - 1)
    }
}

/// The number of rows below `upto` that hold the same point in both data
/// sets and carry the same class in both.
pub open spec fn matching_upto(
    clustered: Seq<i32>,
    original: Seq<i32>,
    same_point: Seq<bool>,
    upto: int,
) -> nat
    decreases upto,
{
    if upto <= 0 {
        0
    } else if same_point[upto - 1] && clustered[upto - 1] == original[upto - 1] {
        matching_upto(clustered, original, same_point, upto - 1) + 1
    } else {
        matching_upto(clustered, original, same_point, upto - 1)
    }
}

/// Neither count exceeds the number of rows looked at, and no more rows
/// match than were compared.
pub proof fn lemma_agreement_bounds(
    clustered: Seq<i32>,
    original: Seq<i32>,
    same_point: Seq<bool>,
    upto: int,
)
    requires
        0 <= upto,
    ensures
        matching_upto(clustered, original, same_point, upto) <= compared_upto(same_point, upto)
            <= upto,
    decreases upto,
{
    if upto > 0 {
        lemma_agreement_bounds(clustered, original, same_point, upto - 1);
    }
}

/// The number of different classes in a labelling.
pub fn get_unique_values_count(classes: &Vec<i32>) -> (count: usize)
    ensures
        count == classes@.to_set().len(),
{
    let mut seen: HashSet<i32> = HashSet::new();
    let mut i: usize = 0;
    while i < classes.len()
        invariant
            i <= classes@.len(),
            seen@ == classes@.take(i as int).to_set(),
        decreases classes@.len() - i,
    {
        seen.insert(classes[i]);
        assert(seen@ =~= classes@.take(i as int + 1).to_set()) by {
            let shorter = classes@.take(i as int);
            let longer = classes@.take(i as int + 1);
            assert forall|c: i32| longer.contains(c) <==> shorter.contains(c) || c
                == classes@[i as int] by {
                if shorter.contains(c) {
                    let t = choose|t: int| 0 <= t < shorter.len() && shorter[t] == c;
                    assert(longer[t] == c);
                }
                if c == classes@[i as int] {
                    assert(longer[i as int] == c);
                }
            }
        }
        i += 1;
    }
    assert(classes@.take(i as int) == classes@);
    seen.len()
}

/// The number of different classes that the data came with, and the number
/// of different classes that clustering gave, in this order.
pub fn get_number_of_groups(clustered: &Vec<i32>, original: &Vec<i32>) -> (counts: (usize, usize))
    ensures
        counts.0 == original@.to_set().len(),
        counts.1 == clustered@.to_set().len(),
{
    let original_groups_count = get_unique_values_count(original);
    let nbc_groups_count = get_unique_values_count(clustered);
    (original_groups_count, nbc_groups_count)
}

/// Where both data sets hold the same point in each of the first `n` rows,
/// all `n` rows are compared, and all of them match exactly if the classes
/// agree in each.
pub proof fn lemma_full_agreement(
    clustered: Seq<i32>,
    original: Seq<i32>,
    same_point: Seq<bool>,
    n: int,
)
    requires
        0 <= n <= same_point.len(),
        forall|i: int| 0 <= i < n ==> same_point[i],
    ensures
        compared_upto(same_point, n) == n,
        matching_upto(clustered, original, same_point, n) == n <==> forall|i: int|
            0 <= i < n ==> clustered[i] == original[i],
    decreases n,
{
    if n > 0 {
        lemma_full_agreement(clustered, original, same_point, n - 1);
        lemma_agreement_bounds(clustered, original, same_point, n - 1);
    }
}

/// Compares the classes that clustering gave with the classes that the data
/// came with, row by row. `same_point` tells for each row whether both data
/// sets hold the same point there; only such rows are compared, and each of
/// them is. Data sets of different lengths are not compared at all.
pub fn rand_index(clustered: &Vec<i32>, original: &Vec<i32>, same_point: &Vec<bool>) -> (result:
    Option<Agreement>)
    requires
        clustered@.len() == original@.len() ==> same_point@.len() == clustered@.len(),
    ensures
        result is Some <==> clustered@.len() == original@.len(),
        result matches Some(agreement) ==> {
            &&& agreement.compared == compared_upto(same_point@, clustered@.len() as int)
            &&& agreement.matching == matching_upto(
                clustered@,
                original@,
                same_point@,
                clustered@.len() as int,
            )
            &&& agreement.matching <= agreement.compared <= clustered@.len()
        },
{
    if clustered.len() != original.len() {
        return None;
    }
    let mut matching_classes: usize = 0;
    let mut all_checked_classes: usize = 0;
    let mut i: usize = 0;
    while i < clustered.len()
        invariant
            i <= clustered@.len(),
            clustered@.len() == original@.len() == same_point@.len(),
            all_checked_classes == compared_upto(same_point@, i as int),
            matching_classes == matching_upto(clustered@, original@, same_point@, i as int),
        decreases clustered@.len() - i,
    {
        proof {
            lemma_agreement_bounds(clustered@, original@, same_point@, i as int);
        }
        if same_point[i] {
            all_checked_classes += 1;
            if clustered[i] == original[i] {
                matching_classes += 1;
            }
        }
        i += 1;
    }
    proof {
        lemma_agreement_bounds(clustered@, original@, same_point@, i as int);
    }
    Some(Agreement { matching: matching_classes, compared: all_checked_classes })
}

/// The classes of the first `points` points, in the order of the points.
pub fn merge_data(points: usize, clustered_data: &BTreeMap<RowId, i32>) -> (classes: Vec<i32>)
    requires
        points <= i32::MAX,
        forall|r: RowId| 0 <= r < points ==> clustered_data@.contains_key(r),
    ensures
        classes@.len() == points,
        forall|r: RowId| 0 <= r < points ==> classes@[r as int] == clustered_data@[r],
{
    let mut classes: Vec<i32> = Vec::new();
    let mut index: usize = 0;
    while index < points
        invariant
            index <= points <= i32::MAX,
            forall|r: RowId| 0 <= r < points ==> clustered_data@.contains_key(r),
            classes@.len() == index,
            forall|r: RowId| 0 <= r < index ==> classes@[r as int] == clustered_data@[r],
        decreases points - index,
    {
        let class = clustered_data.get(&(index as RowId)).unwrap();
        classes.push(*class);
        index += 1;
    }
    classes
}

} // verus!
