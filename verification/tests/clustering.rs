use few_pretty_graphs::{
    check_neighbor_table, cluster_edges, dbscan_parents, label_clusters, ConfigError, Label,
};

/// Neighbor table in which every point sees every other point (self excluded).
fn complete_table(n: usize) -> Vec<Vec<usize>> {
    (0..n)
        .map(|i| (0..n).filter(|&j| j != i).collect())
        .collect()
}

#[test]
fn empty_input() {
    let neighbors: Vec<Vec<usize>> = vec![];
    let (count, labels) = label_clusters(&neighbors, 1).unwrap();
    assert_eq!(count, 0);
    assert!(labels.is_empty());
}

#[test]
fn isolated_point_is_noise() {
    let neighbors: Vec<Vec<usize>> = vec![vec![]];
    let (count, labels) = label_clusters(&neighbors, 1).unwrap();
    assert_eq!(count, 0);
    assert_eq!(labels, vec![Label::Noise]);
}

#[test]
fn single_tight_cluster() {
    // five points mutually in range, min_pts = 3: one cluster holds them all
    let neighbors = complete_table(5);
    let (count, labels) = label_clusters(&neighbors, 3).unwrap();
    assert_eq!(count, 1);
    for label in &labels {
        match label {
            Label::Cluster { id, .. } => assert_eq!(*id, 0),
            other => panic!("expected a cluster label, got {:?}", other),
        }
    }
    // the exact discovery tree of the depth-first expansion
    assert_eq!(
        labels,
        vec![
            Label::Cluster { id: 0, prev: 0 },
            Label::Cluster { id: 0, prev: 2 },
            Label::Cluster { id: 0, prev: 3 },
            Label::Cluster { id: 0, prev: 4 },
            Label::Cluster { id: 0, prev: 0 },
        ]
    );
}

#[test]
fn two_disjoint_groups() {
    // points 0-2 see each other; points 3-5 see each other; min_pts = 2
    let neighbors: Vec<Vec<usize>> = vec![
        vec![1, 2],
        vec![0, 2],
        vec![0, 1],
        vec![4, 5],
        vec![3, 5],
        vec![3, 4],
    ];
    let (count, labels) = label_clusters(&neighbors, 2).unwrap();
    assert_eq!(count, 2);
    // ids are assigned by lowest seed index first
    for i in 0..3 {
        match labels[i] {
            Label::Cluster { id, .. } => assert_eq!(id, 0),
            other => panic!("expected a cluster label, got {:?}", other),
        }
    }
    for i in 3..6 {
        match labels[i] {
            Label::Cluster { id, .. } => assert_eq!(id, 1),
            other => panic!("expected a cluster label, got {:?}", other),
        }
    }
}

#[test]
fn border_point_reclaimed() {
    // point 0 is visited first as a seed and becomes noise; point 1 is a core
    // point whose expansion reaches 0 and promotes it
    let neighbors: Vec<Vec<usize>> = vec![vec![1], vec![0, 2], vec![1]];
    let (count, labels) = label_clusters(&neighbors, 2).unwrap();
    assert_eq!(count, 1);
    assert_eq!(labels[0], Label::Cluster { id: 0, prev: 1 });
    assert_eq!(labels[1], Label::Cluster { id: 0, prev: 1 });
    assert_eq!(labels[2], Label::Cluster { id: 0, prev: 1 });
}

#[test]
fn determinism() {
    let neighbors: Vec<Vec<usize>> = vec![
        vec![1, 2],
        vec![0, 2],
        vec![0, 1],
        vec![4, 5],
        vec![3, 5],
        vec![3, 4],
    ];
    let first = label_clusters(&neighbors, 2).unwrap();
    let second = label_clusters(&neighbors, 2).unwrap();
    assert_eq!(first.0, second.0);
    assert_eq!(first.1, second.1);
}

#[test]
fn no_point_left_undefined() {
    let neighbors: Vec<Vec<usize>> = vec![vec![], vec![2], vec![1], vec![]];
    let (_, labels) = label_clusters(&neighbors, 2).unwrap();
    for label in &labels {
        assert_ne!(*label, Label::Undefined);
    }
}

#[test]
fn noise_points_lack_neighbors() {
    // min_pts = 2: points 0 and 3 have one neighbor each and stay noise,
    // since neither 1 nor 2 is a core point either
    let neighbors: Vec<Vec<usize>> = vec![vec![1], vec![0], vec![], vec![2]];
    let (count, labels) = label_clusters(&neighbors, 2).unwrap();
    assert_eq!(count, 0);
    for (i, label) in labels.iter().enumerate() {
        assert_eq!(*label, Label::Noise);
        assert!(neighbors[i].len() < 2);
    }
}

#[test]
fn ids_are_dense() {
    let neighbors: Vec<Vec<usize>> = vec![
        vec![1],
        vec![0, 2],
        vec![1],
        vec![],
        vec![5],
        vec![4, 6],
        vec![5],
    ];
    let (count, labels) = label_clusters(&neighbors, 2).unwrap();
    assert_eq!(count, 2);
    let mut seen = vec![false; count as usize];
    for label in &labels {
        if let Label::Cluster { id, .. } = label {
            assert!(*id < count);
            seen[*id as usize] = true;
        }
    }
    assert!(seen.iter().all(|&s| s));
}

#[test]
fn prev_links_form_a_forest() {
    let neighbors = complete_table(6);
    let (_, labels) = label_clusters(&neighbors, 2).unwrap();
    for start in 0..labels.len() {
        let my_id = match labels[start] {
            Label::Cluster { id, .. } => id,
            _ => continue,
        };
        // following prev reaches a self-referencing root of the same cluster
        // without revisiting a point
        let mut visited = vec![false; labels.len()];
        let mut at = start;
        loop {
            assert!(!visited[at]);
            visited[at] = true;
            match labels[at] {
                Label::Cluster { id, prev } => {
                    assert_eq!(id, my_id);
                    if prev == at {
                        break;
                    }
                    at = prev;
                }
                other => panic!("prev chain left the cluster: {:?}", other),
            }
        }
    }
}

#[test]
fn rejects_zero_min_pts() {
    let neighbors: Vec<Vec<usize>> = vec![vec![]];
    assert_eq!(label_clusters(&neighbors, 0), Err(ConfigError::MinPtsZero));
}

#[test]
fn rejects_out_of_range_neighbor() {
    let neighbors: Vec<Vec<usize>> = vec![vec![5]];
    assert_eq!(
        label_clusters(&neighbors, 1),
        Err(ConfigError::NeighborIndexOutOfRange)
    );
}

#[test]
fn table_check_accepts_and_rejects() {
    assert!(check_neighbor_table(&vec![vec![1], vec![0]]));
    assert!(!check_neighbor_table(&vec![vec![1], vec![2]]));
    assert!(check_neighbor_table(&vec![]));
}

#[test]
fn direct_entry_matches_checked_entry() {
    let neighbors = complete_table(4);
    let direct = dbscan_parents(&neighbors, 2);
    let checked = label_clusters(&neighbors, 2).unwrap();
    assert_eq!(direct, checked);
}

#[test]
fn edges_pair_members_with_discoverers() {
    let neighbors: Vec<Vec<usize>> = vec![vec![1], vec![0, 2], vec![1]];
    let (_, labels) = label_clusters(&neighbors, 2).unwrap();
    let edges = cluster_edges(&labels);
    assert_eq!(edges, vec![(0, 1), (1, 1), (2, 1)]);
}

#[test]
fn edges_skip_noise_and_keep_root_self_edge() {
    let labels = vec![
        Label::Noise,
        Label::Cluster { id: 0, prev: 1 },
        Label::Noise,
        Label::Cluster { id: 0, prev: 1 },
    ];
    let edges = cluster_edges(&labels);
    assert_eq!(edges, vec![(1, 1), (3, 1)]);
}
