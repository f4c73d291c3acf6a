//! The neighbourhood of each point: its near neighbours, the points that
//! have it as a near neighbour, and the density factor that follows from
//! both.

use crate::distance::{is_square, DistanceTable};
use crate::ranking::{
    ascending, count_below, lemma_count_step, lemma_count_without, lemma_kth_smallest,
};
use std::collections::{HashMap, HashSet};
use vstd::prelude::*;
use vstd::set_lib::lemma_len_subset;

verus! {

/// Position of a point in the input sequence.
pub type RowId = i32;

/// For each point, its near neighbours.
pub type Knb = HashMap<RowId, Vec<RowId>>;

/// For each point, the points that count it among their near neighbours.
pub type Rknb = HashMap<RowId, HashSet<RowId>>;

/// For each point, its density factor.
pub type Ndf = HashMap<RowId, Density>;

/// How often a point is chosen as a near neighbour, against how many near
/// neighbours it chose itself. The density factor is the quotient of the two.
#[derive(Clone, Copy, Debug, PartialEq, Eq)]
pub struct Density {
    pub chosen_by: usize,
    pub chooses: usize,
}

impl Density {
    /// The factor is at least one. A point that chose nobody counts as dense
    /// exactly when somebody chose it.
    pub open spec fn dense(self) -> bool {
        if self.chooses == 0 {
            self.chosen_by > 0
        } else {
            self.chosen_by >= self.chooses
        }
    }

    /// The factor is zero: the quotient of nothing by something.
    pub open spec fn zero(self) -> bool {
        self.chosen_by == 0 && self.chooses > 0
    }

    /// Whether the factor is at least one.
    pub fn is_dense(&self) -> (dense: bool)
        ensures
            dense == self.dense(),
    {
        if self.chooses == 0 {
            self.chosen_by > 0
        } else {
            self.chosen_by >= self.chooses
        }
    }
}

/// The row ids of a set of `n` points.
pub open spec fn rows(n: int) -> Set<RowId> {
    Set::new(|r: RowId| 0 <= r < n)
}

/// What a neighbour map holds: for each of its points the sequence of the
/// near neighbours.
pub open spec fn lists(knb: Map<RowId, Vec<RowId>>) -> Map<RowId, Seq<RowId>> {
    Map::new(|i: RowId| knb.contains_key(i), |i: RowId| knb[i]@)
}

/// What a reverse neighbour map holds: for each of its points the set of the
/// points that chose it.
pub open spec fn sets(r_knb: Map<RowId, HashSet<RowId>>) -> Map<RowId, Set<RowId>> {
    Map::new(|i: RowId| r_knb.contains_key(i), |i: RowId| r_knb[i]@)
}

/// `p` is among the first `upto` items of `s`.
pub open spec fn listed(s: Seq<RowId>, upto: int, p: RowId) -> bool {
    exists|t: int| 0 <= t < upto && s[t] == p
}

/// `p` is one of the near neighbours of `i`.
pub open spec fn near(knb: Map<RowId, Seq<RowId>>, i: RowId, p: RowId) -> bool {
    knb.contains_key(i) && knb[i].contains(p)
}

/// Point `j` is a near neighbour of point `i`, whose distances are `row`:
/// it is another point, and fewer than `k` of the other points are closer to
/// `i` than `j` is. So the points that tie with the `k`-th nearest one are
/// near neighbours as it is.
pub open spec fn is_neighbour(row: Seq<u64>, i: int, j: int, k: int) -> bool {
    &&& 0 <= j < row.len()
    &&& j != i
    &&& count_below(row.remove(i), row[j] as int) < k
}

/// The near neighbours of point `i` among the points `0 .. upto`, in
/// ascending order.
pub open spec fn neighbours_upto(row: Seq<u64>, i: int, k: int, upto: int) -> Seq<RowId>
    decreases upto,
{
    if upto <= 0 {
        Seq::empty()
    } else if is_neighbour(row, i, upto - 1, k) {
        neighbours_upto(row, i, k, upto - 1).push((upto - 1) as RowId)
    } else {
        neighbours_upto(row, i, k, upto - 1)
    }
}

/// The near neighbours of point `i`, in ascending order.
pub open spec fn neighbours(row: Seq<u64>, i: int, k: int) -> Seq<RowId> {
    neighbours_upto(row, i, k, row.len() as int)
}

/// For each point of the table `d` its near neighbours, in ascending order.
pub open spec fn neighbour_lists(d: Seq<Seq<u64>>, k: int) -> Map<RowId, Seq<RowId>> {
    Map::new(|i: RowId| 0 <= i < d.len(), |i: RowId| neighbours(d[i as int], i as int, k))
}

/// For each point of the table `d` the points that have it as a near
/// neighbour.
pub open spec fn reverse_sets(d: Seq<Seq<u64>>, k: int) -> Map<RowId, Set<RowId>> {
    Map::new(
        |j: RowId| 0 <= j < d.len(),
        |j: RowId|
            Set::new(
                |i: RowId| 0 <= i < d.len() && is_neighbour(d[i as int], i as int, j as int, k),
            ),
    )
}

/// For each point of `knb` its density factor: the size of its reverse set
/// against the number of its near neighbours.
pub open spec fn densities(knb: Map<RowId, Seq<RowId>>, r_knb: Map<RowId, Set<RowId>>) -> Map<
    RowId,
    Density,
> {
    Map::new(
        |i: RowId| knb.contains_key(i),
        |i: RowId| Density { chosen_by: r_knb[i].len() as usize, chooses: knb[i].len() as usize },
    )
}

/// What `neighbours_upto` lists: each near neighbour below `upto` once, in
/// ascending order, and nothing else.
pub proof fn lemma_neighbours_listed(row: Seq<u64>, i: int, k: int, upto: int)
    requires
        upto <= row.len() <= i32::MAX,
    ensures
        forall|p: RowId| #[trigger]
            neighbours_upto(row, i, k, upto).contains(p) <==> p < upto && is_neighbour(
                row,
                i,
                p as int,
                k,
            ),
        forall|a: int, b: int|
            0 <= a < b < neighbours_upto(row, i, k, upto).len() ==> neighbours_upto(
                row,
                i,
                k,
                upto,
            )[a] < neighbours_upto(row, i, k, upto)[b],
    decreases upto,
{
    if upto > 0 {
        lemma_neighbours_listed(row, i, k, upto - 1);
        let rest = neighbours_upto(row, i, k, upto - 1);
        let all = neighbours_upto(row, i, k, upto);
        assert forall|p: RowId| #[trigger] all.contains(p) <==> p < upto && is_neighbour(
            row,
            i,
            p as int,
            k,
        ) by {
            if is_neighbour(row, i, upto - 1, k) {
                if rest.contains(p) {
                    let t = choose|t: int| 0 <= t < rest.len() && rest[t] == p;
                    assert(all[t] == p);
                }
                if p == upto - 1 {
                    assert(all[rest.len() as int] == p);
                }
            }
        }
        assert forall|a: int, b: int| 0 <= a < b < all.len() implies all[a] < all[b] by {
            if b == rest.len() {
                assert(rest.contains(rest[a]));
            }
        }
    }
}

/// A point has no more near neighbours than there are points.
pub proof fn lemma_neighbours_bounded(row: Seq<u64>, i: int, k: int, upto: int)
    requires
        upto <= row.len(),
    ensures
        neighbours_upto(row, i, k, upto).len() <= row.len(),
        upto >= 0 ==> neighbours_upto(row, i, k, upto).len() <= upto,
    decreases upto,
{
    if upto > 0 {
        lemma_neighbours_bounded(row, i, k, upto - 1);
    }
}

/// Where `radius` is the distance of the `k`-th nearest of the other points,
/// the near neighbours of point `i` below `upto` are as many as there are
/// other points below `upto` within that distance.
proof fn lemma_neighbours_counted(row: Seq<u64>, i: int, k: int, radius: int, upto: int)
    requires
        0 <= i < row.len(),
        0 <= upto <= row.len(),
        forall|value: int| #[trigger] count_below(row.remove(i), value) < k <==> value <= radius,
    ensures
        neighbours_upto(row, i, k, upto).len() + (if i < upto && row[i] <= radius {
            1int
        } else {
            0int
        }) == count_below(row.take(upto), radius + 1),
    decreases upto,
{
    if upto > 0 {
        lemma_neighbours_counted(row, i, k, radius, upto - 1);
        lemma_count_step(row, upto - 1, radius + 1);
    }
}

/// Where `sorted` holds the distances from point `i` to the other points in
/// ascending order, the near neighbours of `i` are the other points within
/// the distance of the `k`-th nearest of them, which is `sorted[k - 1]`.
pub proof fn lemma_neighbours_within_radius(
    row: Seq<u64>,
    i: int,
    k: int,
    sorted: Seq<u64>,
    j: int,
)
    requires
        0 <= i < row.len(),
        1 <= k < row.len(),
        sorted.to_multiset() == row.remove(i).to_multiset(),
        ascending(sorted),
    ensures
        is_neighbour(row, i, j, k) <==> 0 <= j < row.len() && j != i && row[j] <= sorted[k - 1],
{
    if 0 <= j < row.len() {
        lemma_kth_smallest(row.remove(i), sorted, k, row[j] as int);
    }
}

/// Two sequences of distances are ordered alike: one holds a smaller number
/// at one place than at another exactly if the other does.
pub open spec fn same_order(a: Seq<u64>, b: Seq<u64>) -> bool {
    &&& a.len() == b.len()
    &&& forall|x: int, y: int|
        #![trigger a[x], a[y]]
        0 <= x < a.len() && 0 <= y < a.len() ==> (a[x] < a[y] <==> b[x] < b[y])
}

/// In sequences that are ordered alike, as many of the first `upto` items
/// are smaller than the item at the place `at`.
proof fn lemma_count_alike(a: Seq<u64>, b: Seq<u64>, at: int, upto: int)
    requires
        same_order(a, b),
        0 <= at < a.len(),
        0 <= upto <= a.len(),
    ensures
        count_below(a.take(upto), a[at] as int) == count_below(b.take(upto), b[at] as int),
    decreases upto,
{
    if upto > 0 {
        lemma_count_alike(a, b, at, upto - 1);
        lemma_count_step(a, upto - 1, a[at] as int);
        lemma_count_step(b, upto - 1, b[at] as int);
        assert(a[upto - 1] < a[at] <==> b[upto - 1] < b[at]);
    }
}

/// Rows that order the other points alike give point `i` the same near
/// neighbours among the first `upto` points.
proof fn lemma_order_decides_upto(a: Seq<u64>, b: Seq<u64>, i: int, k: int, upto: int)
    requires
        a.len() == b.len(),
        0 <= i < a.len(),
        same_order(a.remove(i), b.remove(i)),
        upto <= a.len(),
    ensures
        neighbours_upto(a, i, k, upto) == neighbours_upto(b, i, k, upto),
    decreases upto,
{
    if upto > 0 {
        lemma_order_decides_upto(a, b, i, k, upto - 1);
        let j = upto - 1;
        if j != i {
            let others = a.remove(i);
            let at = if j < i {
                j
            } else {
                j - 1
            };
            lemma_count_alike(others, b.remove(i), at, others.len() as int);
            assert(others.take(others.len() as int) == others);
            assert(b.remove(i).take(others.len() as int) == b.remove(i));
            assert(others[at] == a[j] && b.remove(i)[at] == b[j]);
            assert(is_neighbour(a, i, j, k) == is_neighbour(b, i, j, k));
        } else {
            assert(!is_neighbour(a, i, j, k) && !is_neighbour(b, i, j, k));
        }
    }
}

/// Only the order of the distances to the other points decides who the near
/// neighbours of a point are: rows that order the other points alike give
/// the same near neighbours, whatever numbers they hold, and whatever they
/// hold for the point itself.
pub proof fn lemma_order_decides(a: Seq<u64>, b: Seq<u64>, i: int, k: int)
    requires
        a.len() == b.len(),
        0 <= i < a.len(),
        same_order(a.remove(i), b.remove(i)),
    ensures
        neighbours(a, i, k) == neighbours(b, i, k),
{
    lemma_order_decides_upto(a, b, i, k, a.len() as int);
}

/// Every point has at least `k` near neighbours, and is not among them
/// itself.
pub proof fn lemma_enough_neighbours(d: Seq<Seq<u64>>, k: int, i: RowId)
    requires
        is_square(d),
        1 <= k < d.len(),
        0 <= i < d.len(),
    ensures
        neighbour_lists(d, k)[i].len() >= k,
        !near(neighbour_lists(d, k), i, i),
{
    let row = d[i as int];
    let others = row.remove(i as int);
    let leq = |a: u64, b: u64| a <= b;
    let sorted = others.sort_by(leq);
    others.lemma_sort_by_ensures(leq);
    assert(ascending(sorted)) by {
        assert forall|a: int, b: int| 0 <= a <= b < sorted.len() implies sorted[a] <= sorted[b] by {
            if a < b {
                assert(leq(sorted[a], sorted[b]));
            }
        }
    }
    lemma_kth_smallest(others, sorted, k, 0);
    let radius = sorted[k - 1] as int;
    assert forall|value: int| #[trigger] count_below(others, value) < k <==> value <= radius by {
        lemma_kth_smallest(others, sorted, k, value);
    }
    lemma_neighbours_counted(row, i as int, k, radius, row.len() as int);
    assert(row.take(row.len() as int) == row);
    lemma_count_without(row, i as int, radius + 1);
    lemma_neighbours_listed(row, i as int, k, row.len() as int);
}

/// The two maps agree: `j` is a near neighbour of `i` exactly if the reverse
/// set of `j` holds `i`.
pub proof fn lemma_reverse_of_near(d: Seq<Seq<u64>>, k: int, i: RowId, j: RowId)
    requires
        is_square(d),
    ensures
        near(neighbour_lists(d, k), i, j) <==> reverse_sets(d, k).contains_key(j) && reverse_sets(
            d,
            k,
        )[j].contains(i),
{
    if 0 <= i < d.len() {
        lemma_neighbours_listed(d[i as int], i as int, k, d.len() as int);
    }
}

/// The density factor of a point that chose somebody is zero exactly if
/// the number of points that chose it is zero.
pub proof fn lemma_zero_density(
    knb: Map<RowId, Seq<RowId>>,
    r_knb: Map<RowId, Set<RowId>>,
    p: RowId,
)
    requires
        knb.contains_key(p),
        0 < knb[p].len() <= usize::MAX,
        r_knb[p].len() <= usize::MAX,
    ensures
        densities(knb, r_knb)[p].zero() <==> r_knb[p].len() == 0,
{
}

/// There are `n` row ids, and no more.
pub proof fn lemma_rows_counted(n: int)
    requires
        0 <= n <= i32::MAX,
    ensures
        rows(n).finite(),
        rows(n).len() == n,
    decreases n,
{
    if n == 0 {
        assert(rows(n) =~= Set::<RowId>::empty());
    } else {
        lemma_rows_counted(n - 1);
        assert(rows(n) =~= rows(n - 1).insert((n - 1) as RowId));
    }
}

/// The reverse set of a point is finite: it holds at most all the other
/// points.
pub proof fn lemma_reverse_set_bounded(d: Seq<Seq<u64>>, k: int, p: RowId)
    requires
        is_square(d),
        0 <= p < d.len(),
    ensures
        reverse_sets(d, k)[p].finite(),
        reverse_sets(d, k)[p].len() <= d.len() - 1,
{
    lemma_rows_counted(d.len() as int);
    let others = rows(d.len() as int).remove(p);
    assert(reverse_sets(d, k)[p].subset_of(others));
    lemma_len_subset(reverse_sets(d, k)[p], others);
}

/// In the neighbourhood of a table the density factor of a point is zero
/// exactly if its reverse set is empty: no point has it as a near
/// neighbour.
pub proof fn lemma_zero_density_unchosen(d: Seq<Seq<u64>>, k: int, p: RowId)
    requires
        is_square(d),
        1 <= k < d.len(),
        0 <= p < d.len(),
    ensures
        densities(neighbour_lists(d, k), reverse_sets(d, k))[p].zero() <==> reverse_sets(d, k)[p]
            == Set::<RowId>::empty(),
        reverse_sets(d, k)[p] == Set::<RowId>::empty() <==> forall|i: RowId|
            !near(neighbour_lists(d, k), i, p),
{
    lemma_enough_neighbours(d, k, p);
    lemma_neighbours_bounded(d[p as int], p as int, k, d.len() as int);
    lemma_reverse_set_bounded(d, k, p);
    lemma_zero_density(neighbour_lists(d, k), reverse_sets(d, k), p);
    if reverse_sets(d, k)[p].len() == 0 {
        reverse_sets(d, k)[p].lemma_len0_is_empty();
    }
    assert forall|i: RowId|
        near(neighbour_lists(d, k), i, p) <==> #[trigger] reverse_sets(d, k)[p].contains(i) by {
        lemma_reverse_of_near(d, k, i, p);
    }
    if forall|i: RowId| !near(neighbour_lists(d, k), i, p) {
        assert(reverse_sets(d, k)[p] =~= Set::<RowId>::empty());
    } else {
        let i = choose|i: RowId| near(neighbour_lists(d, k), i, p);
        assert(reverse_sets(d, k)[p].contains(i));
    }
}

/// The neighbourhood is a function of the distances and of `k`: whatever is
/// computed twice from the same table holds the same lists and the same sets.
pub proof fn lemma_neighbourhood_determined(
    d: Seq<Seq<u64>>,
    k: int,
    first: (Map<RowId, Vec<RowId>>, Map<RowId, HashSet<RowId>>),
    second: (Map<RowId, Vec<RowId>>, Map<RowId, HashSet<RowId>>),
)
    requires
        lists(first.0) == neighbour_lists(d, k),
        sets(first.1) == reverse_sets(d, k),
        lists(second.0) == neighbour_lists(d, k),
        sets(second.1) == reverse_sets(d, k),
    ensures
        lists(first.0) == lists(second.0),
        sets(first.1) == sets(second.1),
        forall|i: RowId| #[trigger]
            first.0.contains_key(i) ==> second.0.contains_key(i) && first.0[i]@ == second.0[i]@,
        forall|i: RowId| #[trigger]
            first.1.contains_key(i) ==> second.1.contains_key(i) && first.1[i]@ == second.1[i]@,
{
    assert forall|i: RowId| #[trigger] first.0.contains_key(i) implies second.0.contains_key(i)
        && first.0[i]@ == second.0[i]@ by {
        assert(lists(second.0).contains_key(i));
        assert(lists(first.0)[i] == lists(second.0)[i]);
    }
    assert forall|i: RowId| #[trigger] first.1.contains_key(i) implies second.1.contains_key(i)
        && first.1[i]@ == second.1[i]@ by {
        assert(sets(second.1).contains_key(i));
        assert(sets(first.1)[i] == sets(second.1)[i]);
    }
}

/// An empty neighbour map, and a reverse map that holds an empty set for each
/// of the `vectors_number` points.
pub fn init_neighbourhood(vectors_number: usize) -> (maps: (Knb, Rknb))
    requires
        vectors_number <= i32::MAX,
    ensures
        maps.0@ == Map::<RowId, Vec<RowId>>::empty(),
        sets(maps.1@) == Map::new(
            |r: RowId| 0 <= r < vectors_number,
            |r: RowId| Set::<RowId>::empty(),
        ),
{
    let knb: Knb = HashMap::new();
    let mut r_knb: Rknb = HashMap::new();
    let mut i: usize = 0;
    while i < vectors_number
        invariant
            i <= vectors_number <= i32::MAX,
            r_knb@.dom() == rows(i as int),
            forall|r: RowId| 0 <= r < i ==> (#[trigger] r_knb@[r])@ == Set::<RowId>::empty(),
        decreases vectors_number - i,
    {
        r_knb.insert(i as RowId, HashSet::new());
        i += 1;
    }
    (knb, r_knb)
}

/// Sorts `keys` with the sort of the standard library for slices,
/// `sort_unstable`: afterwards the vector holds the same numbers as
/// before, each as often as before, in ascending order.
#[verifier::external_body]
fn sort_keys(keys: &mut Vec<u64>)
    ensures
        final(keys)@.to_multiset() == old(keys)@.to_multiset(),
        ascending(final(keys)@),
{
    keys.sort_unstable();
}

/// The near neighbours of point `i`, whose distances are `row`.
fn neighbours_of(row: &Vec<u64>, i: usize, k: usize) -> (found: Vec<RowId>)
    requires
        i < row@.len() <= i32::MAX,
        1 <= k < row@.len(),
    ensures
        found@ == neighbours(row@, i as int, k as int),
        found@.len() >= k,
{
    let n = row.len();
    let mut keys = row.clone();
    keys.remove(i);
    let ghost others = keys@;
    sort_keys(&mut keys);
    proof {
        lemma_kth_smallest(others, keys@, k as int, 0);
    }
    let radius = keys[k - 1];
    assert forall|value: int| #[trigger] count_below(others, value) < k <==> value <= radius by {
        lemma_kth_smallest(others, keys@, k as int, value);
    }
    let mut found: Vec<RowId> = Vec::new();
    let mut j: usize = 0;
    while j < n
        invariant
            j <= n == row@.len() <= i32::MAX,
            i < n,
            others == row@.remove(i as int),
            forall|value: int| #[trigger] count_below(others, value) < k <==> value <= radius,
            found@ == neighbours_upto(row@, i as int, k as int, j as int),
        decreases n - j,
    {
        if j != i && row[j] <= radius {
            found.push(j as RowId);
        }
        j += 1;
    }
    proof {
        lemma_neighbours_counted(row@, i as int, k as int, radius as int, n as int);
        assert(row@.take(n as int) == row@);
        lemma_count_without(row@, i as int, radius + 1);
    }
    found
}

/// Computes the neighbourhood of every point: its near neighbours, which
/// are the `k` nearest of the other points and all that tie with the `k`-th
/// of them, and the points that have it as a near neighbour. Each list of
/// near neighbours is in ascending order of the row ids.
pub fn calculate_neighbourhood(distances: &DistanceTable, k: i32) -> (maps: (Knb, Rknb))
    requires
        1 <= k < distances@.len(),
    ensures
        lists(maps.0@) == neighbour_lists(distances@, k as int),
        sets(maps.1@) == reverse_sets(distances@, k as int),
        forall|i: RowId|
            0 <= i < distances@.len() ==> (#[trigger] lists(maps.0@)[i]).len() >= k && !near(
                lists(maps.0@),
                i,
                i,
            ),
        forall|i: RowId, j: RowId| #[trigger]
            near(lists(maps.0@), i, j) ==> sets(maps.1@).contains_key(j) && sets(
                maps.1@,
            )[j].contains(i),
{
    let n = distances.len();
    let ghost d = distances@;
    let (mut knb, mut r_knb) = init_neighbourhood(n);
    assert(r_knb@.dom() =~= sets(r_knb@).dom());
    assert forall|j: RowId| 0 <= j < n implies (#[trigger] r_knb@[j])@ == Set::<RowId>::empty() by {
        assert(sets(r_knb@)[j] == Set::<RowId>::empty());
    }
    let mut i: usize = 0;
    while i < n
        invariant
            i <= n == d.len() <= i32::MAX,
            d == distances@,
            is_square(d),
            1 <= k < n,
            knb@.dom() == rows(i as int),
            r_knb@.dom() == rows(n as int),
            forall|r: RowId|
                0 <= r < i ==> (#[trigger] knb@[r])@ == neighbours(d[r as int], r as int, k as int)
                    && knb@[r]@.len() >= k,
            forall|j: RowId, r: RowId|
                0 <= j < n ==> (#[trigger] r_knb@[j]@.contains(r) <==> 0 <= r < i && is_neighbour(
                    d[r as int],
                    r as int,
                    j as int,
                    k as int,
                )),
        decreases n - i,
    {
        let found = neighbours_of(distances.row(i), i, k as usize);
        proof {
            lemma_neighbours_listed(d[i as int], i as int, k as int, n as int);
        }
        let mut t: usize = 0;
        while t < found.len()
            invariant
                t <= found@.len(),
                i < n == d.len() <= i32::MAX,
                r_knb@.dom() == rows(n as int),
                forall|p: RowId| #[trigger] found@.contains(p) ==> 0 <= p < n,
                forall|j: RowId, r: RowId|
                    0 <= j < n ==> (#[trigger] r_knb@[j]@.contains(r) <==> (0 <= r < i
                        && is_neighbour(d[r as int], r as int, j as int, k as int)) || (r == i
                        && listed(found@, t as int, j))),
            decreases found@.len() - t,
        {
            let neighbour = found[t];
            assert(found@.contains(neighbour));
            let _ = r_knb.entry(neighbour).or_insert(HashSet::new()).insert(i as RowId);
            t += 1;
        }
        assert forall|j: RowId| listed(found@, t as int, j) <==> is_neighbour(
            d[i as int],
            i as int,
            j as int,
            k as int,
        ) by {
            if listed(found@, t as int, j) {
                let s = choose|s: int| 0 <= s < t && found@[s] == j;
                assert(found@.contains(j));
            }
            if is_neighbour(d[i as int], i as int, j as int, k as int) {
                assert(found@.contains(j));
            }
        }
        knb.insert(i as RowId, found);
        i += 1;
    }
    proof {
        assert(sets(r_knb@) =~= reverse_sets(d, k as int)) by {
            assert forall|j: RowId| 0 <= j < n implies #[trigger] sets(r_knb@)[j] =~= reverse_sets(
                d,
                k as int,
            )[j] by {}
        }
        assert forall|r: RowId, j: RowId| #[trigger] near(lists(knb@), r, j) implies sets(
            r_knb@,
        ).contains_key(j) && sets(r_knb@)[j].contains(r) by {
            lemma_neighbours_listed(d[r as int], r as int, k as int, n as int);
        }
    }
    (knb, r_knb)
}

/// Computes the density factor of every point that has an entry in `knb`:
/// the number of points that have it as a near neighbour, against the number
/// of its own near neighbours.
pub fn calculate_ndf(knb: &Knb, r_knb: &Rknb) -> (ndf: Ndf)
    requires
        forall|i: RowId| knb@.contains_key(i) ==> r_knb@.contains_key(i),
    ensures
        ndf@ == densities(lists(knb@), sets(r_knb@)),
{
    let mut ndf: Ndf = HashMap::new();
    for key in iter: knb.keys()
        invariant
            forall|i: RowId| knb@.contains_key(i) ==> r_knb@.contains_key(i),
            iter.seq().unref().to_set() == knb@.dom(),
            forall|i: RowId|
                ndf@.contains_key(i) <==> exists|t: int|
                    0 <= t < iter.index() && *iter.seq()[t] == i,
            forall|i: RowId|
                ndf@.contains_key(i) ==> #[trigger] ndf@[i] == densities(
                    lists(knb@),
                    sets(r_knb@),
                )[i],
            iter.index() == iter.seq().len() ==> ndf@.dom() =~= knb@.dom(),
    {
        let k_objects = knb.get(key).unwrap().len();
        let r_objects = r_knb.get(key).unwrap().len();
        let _ = ndf.insert(*key, Density { chosen_by: r_objects, chooses: k_objects });
        assert forall|i: RowId| ndf@.contains_key(i) implies knb@.contains_key(i) by {
            let t = choose|t: int| 0 <= t < iter.index() + 1 && *iter.seq()[t] == i;
            assert(iter.seq().unref()[t] == i);
        }
    }
    ndf
}

} // verus!
