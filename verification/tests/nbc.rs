use nbc_clustering::distance::DistanceTable;
use nbc_clustering::nbc::{expand_clusters, has_cluster, is_dense_point, nbc, UNCLASSIFIED};
use nbc_clustering::neighbourhood::{calculate_ndf, calculate_neighbourhood, Density, Knb, Ndf};
use std::collections::{BTreeMap, HashMap, HashSet};

fn euclidean_distance(v1: &[f64], v2: &[f64]) -> f64 {
    let mut distance = 0.0;
    for i in 0..v1.len() {
        distance += (v1[i] - v2[i]).powf(2.0);
    }
    distance.sqrt()
}

fn distance_table(vectors: &Vec<Vec<f64>>) -> DistanceTable {
    let mut rows = Vec::new();
    for v1 in vectors {
        let mut row = Vec::new();
        for v2 in vectors {
            row.push(euclidean_distance(v1, v2).to_bits());
        }
        rows.push(row);
    }
    DistanceTable::new(rows).expect("a square table")
}

fn five_points() -> Vec<Vec<f64>> {
    vec![
        vec![0.0, 0.0, 0.0, 0.0],
        vec![1.0, 1.0, 1.0, 1.0],
        vec![2.0, 2.0, 1.0, 1.0],
        vec![3.0, 4.0, 1.0, 1.0],
        vec![3.0, 4.0, 1.0, 1.0],
    ]
}

/// Six points on a line. The points 0 and 1 are each other's nearest
/// neighbour; 2 has 0 as its nearest neighbour and 4 has 1.
fn six_on_a_line() -> Vec<Vec<f64>> {
    vec![vec![1.0], vec![0.0], vec![2.5], vec![4.1], vec![-1.5], vec![-3.1]]
}

fn two_groups_and_an_outlier() -> Vec<Vec<f64>> {
    let mut points = Vec::new();
    for x in 0..5 {
        for y in 0..2 {
            points.push(vec![x as f64, y as f64]);
        }
    }
    for x in 0..5 {
        for y in 0..2 {
            points.push(vec![100.0 + x as f64, 100.0 + y as f64]);
        }
    }
    points.push(vec![1000.0, -1000.0]);
    points
}

#[test]
fn dense_points_of_the_five() {
    let (knb, r_knb) = calculate_neighbourhood(&distance_table(&five_points()), 2);
    let ndf = calculate_ndf(&knb, &r_knb);
    assert!(!is_dense_point(&0, &ndf));
    for row in 1..5 {
        assert!(is_dense_point(&row, &ndf));
    }
}

#[test]
fn sparse_neighbour_of_a_seed_joins_its_cluster() {
    let clusters = nbc(&distance_table(&five_points()), 2);
    let expected: BTreeMap<i32, i32> = BTreeMap::from([(0, 0), (1, 0), (2, 0), (3, 0), (4, 0)]);
    assert_eq!(clusters, expected);
    assert_ne!(clusters[&0], UNCLASSIFIED);
}

#[test]
fn two_groups_give_two_clusters_and_leave_the_outlier() {
    let points = two_groups_and_an_outlier();
    let clusters = nbc(&distance_table(&points), 3);
    assert_eq!(clusters.len(), 21);
    for row in 0..10 {
        assert_eq!(clusters[&row], 0);
    }
    for row in 10..20 {
        assert_eq!(clusters[&row], 1);
    }
    assert_eq!(clusters[&20], -1);
    let ids: HashSet<i32> = clusters.values().copied().filter(|id| *id >= 0).collect();
    assert_eq!(ids, HashSet::from_iter([0, 1]));
}

#[test]
fn later_seed_takes_over_its_near_neighbours() {
    let clusters = nbc(&distance_table(&six_on_a_line()), 1);
    let expected: BTreeMap<i32, i32> =
        BTreeMap::from([(0, 1), (1, 2), (2, 1), (3, -1), (4, 2), (5, -1)]);
    assert_eq!(clusters, expected);
}

#[test]
fn spreading_leaves_classified_points_alone() {
    // 0 -> 1 -> 2 -> 3, all dense; 4 is dense and has 3 as its near neighbour.
    let knb: Knb = HashMap::from([
        (0, vec![1]),
        (1, vec![2]),
        (2, vec![3]),
        (3, vec![2]),
        (4, vec![3]),
        (5, vec![3]),
    ]);
    let dense = Density { chosen_by: 1, chooses: 1 };
    let sparse = Density { chosen_by: 0, chooses: 1 };
    let ndf: Ndf =
        HashMap::from([(0, sparse), (1, sparse), (2, dense), (3, dense), (4, sparse), (5, dense)]);
    let clusters = expand_clusters(6, &knb, &ndf);
    // 2 seeds cluster 0 and takes 3; spreading from 3 finds 2 classified.
    // 5 seeds cluster 1 and takes 3 from cluster 0; spreading from 3 does
    // not take 2.
    let expected: BTreeMap<i32, i32> =
        BTreeMap::from([(0, -1), (1, -1), (2, 0), (3, 1), (4, -1), (5, 1)]);
    assert_eq!(clusters, expected);
}

#[test]
fn cluster_spreads_through_dense_points_only() {
    // 0 is dense: its cluster takes 1, spreads from dense 1 to 2, and stops
    // at sparse 2, so that 3 stays out.
    let knb: Knb =
        HashMap::from([(0, vec![1]), (1, vec![2]), (2, vec![3]), (3, vec![2])]);
    let dense = Density { chosen_by: 2, chooses: 1 };
    let sparse = Density { chosen_by: 0, chooses: 1 };
    let ndf: Ndf = HashMap::from([(0, dense), (1, dense), (2, sparse), (3, sparse)]);
    let clusters = expand_clusters(4, &knb, &ndf);
    let expected: BTreeMap<i32, i32> = BTreeMap::from([(0, 0), (1, 0), (2, 0), (3, -1)]);
    assert_eq!(clusters, expected);
}

#[test]
fn without_dense_points_nothing_is_classified() {
    let knb: Knb = HashMap::from([(0, vec![1]), (1, vec![0])]);
    let sparse = Density { chosen_by: 0, chooses: 1 };
    let ndf: Ndf = HashMap::from([(0, sparse), (1, sparse)]);
    let clusters = expand_clusters(2, &knb, &ndf);
    assert_eq!(clusters, BTreeMap::from([(0, -1), (1, -1)]));
    assert!(expand_clusters(0, &HashMap::new(), &HashMap::new()).is_empty());
}

#[test]
fn every_point_has_one_label_below_the_cluster_count() {
    for points in [five_points(), six_on_a_line(), two_groups_and_an_outlier()] {
        for k in 1..4 {
            let clusters = nbc(&distance_table(&points), k);
            assert_eq!(clusters.len(), points.len());
            for row in 0..points.len() {
                let label = clusters[&(row as i32)];
                assert!(-1 <= label && (label as i64) < points.len() as i64);
            }
        }
    }
}

#[test]
fn has_cluster_tells_classified_from_unclassified() {
    let clusters: BTreeMap<i32, i32> = BTreeMap::from([(0, -1), (1, 0), (2, 7)]);
    assert!(!has_cluster(0, &clusters));
    assert!(has_cluster(1, &clusters));
    assert!(has_cluster(2, &clusters));
}

#[test]
fn density_of_one_is_dense() {
    let ndf: Ndf = HashMap::from([
        (0, Density { chosen_by: 1, chooses: 2 }),
        (1, Density { chosen_by: 2, chooses: 2 }),
        (2, Density { chosen_by: 3, chooses: 2 }),
        (3, Density { chosen_by: 0, chooses: 0 }),
        (4, Density { chosen_by: 1, chooses: 0 }),
    ]);
    assert!(!is_dense_point(&0, &ndf));
    assert!(is_dense_point(&1, &ndf));
    assert!(is_dense_point(&2, &ndf));
    assert!(!is_dense_point(&3, &ndf));
    assert!(is_dense_point(&4, &ndf));
}

#[test]
fn with_the_largest_k_all_points_share_one_cluster() {
    let table = distance_table(&five_points());
    let (knb, r_knb) = calculate_neighbourhood(&table, 4);
    for row in 0..5 {
        let others: Vec<i32> = (0..5).filter(|other| *other != row).collect();
        assert_eq!(knb[&row], others);
        assert_eq!(r_knb[&row], others.iter().copied().collect::<HashSet<i32>>());
    }
    let clusters = nbc(&table, 4);
    assert_eq!(clusters, BTreeMap::from([(0, 0), (1, 0), (2, 0), (3, 0), (4, 0)]));
}

#[test]
fn cluster_ids_have_no_gap_where_each_cluster_keeps_a_point() {
    let clusters = nbc(&distance_table(&two_groups_and_an_outlier()), 3);
    let ids: HashSet<i32> = clusters.values().copied().filter(|id| *id >= 0).collect();
    assert_eq!(ids, HashSet::from_iter([0, 1]));
    // On the line the first cluster loses both its points to later seeds.
    let clusters = nbc(&distance_table(&six_on_a_line()), 1);
    let ids: HashSet<i32> = clusters.values().copied().filter(|id| *id >= 0).collect();
    assert_eq!(ids, HashSet::from_iter([1, 2]));
}
