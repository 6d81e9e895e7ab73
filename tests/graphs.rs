use algos::graphs::{breadth_first_search, depth_first_search};

fn matrix(n: usize, edges: &[(usize, usize)]) -> Vec<Vec<bool>> {
    let mut m = vec![vec![false; n]; n];
    for &(a, b) in edges {
        m[a][b] = true;
    }
    m
}

#[test]
fn graphs_test_bfs() {
    let m = matrix(4, &[(0, 1), (0, 2), (0, 3), (1, 2), (2, 3)]);
    let path = breadth_first_search(&m, 0, 3);
    assert_eq!(vec![3, 0], path)
}

#[test]
fn bfs_longer_way_and_unreachable() {
    let m = matrix(5, &[(0, 1), (1, 2), (2, 3), (3, 1)]);
    assert_eq!(breadth_first_search(&m, 0, 3), vec![3, 2, 1, 0]);
    assert_eq!(breadth_first_search(&m, 0, 4), vec![4]);
    assert_eq!(breadth_first_search(&m, 2, 0), vec![0]);
    assert_eq!(breadth_first_search(&m, 2, 2), vec![2]);
}

#[test]
fn test_dfs() {
    let g = vec![
        vec![1, 0],
        vec![4, 0],
        vec![3, 0],
        vec![3, 0],
        vec![5, 0],
        vec![0, 0],
        vec![0, 0],
    ];
    let mut seen = vec![false; g.len()];
    let mut path: Vec<usize> = Vec::new();
    depth_first_search(&g, 0, 5, &mut seen, &mut path);
    assert_eq!(path, vec![0, 1, 4, 5]);
}

#[test]
fn dfs_backtracks_and_reports_failure() {
    let g = vec![vec![1, 2], vec![], vec![3], vec![]];
    let mut seen = vec![false; g.len()];
    let mut path = Vec::new();
    assert!(depth_first_search(&g, 0, 3, &mut seen, &mut path));
    assert_eq!(path, vec![0, 2, 3]);

    let mut seen = vec![false; g.len()];
    let mut path = Vec::new();
    assert!(!depth_first_search(&g, 1, 3, &mut seen, &mut path));
    assert!(path.is_empty());
    assert_eq!(seen, vec![false, true, false, false]);
}
