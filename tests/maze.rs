use algos::recursion::walk_to;

#[test]
fn test_walk_to() {
    let mut maze = vec![
        String::from("########"),
        String::from("#.....E#"),
        String::from("#.######"),
        String::from("#..#...#"),
        String::from("#..#...#"),
        String::from("#..#...#"),
        String::from("#..#...#"),
        String::from("#......#"),
        String::from("########"),
    ];
    let mut seen = Vec::<(usize, usize)>::new();
    let mut path = Vec::<(usize, usize)>::new();
    let result = walk_to(&maze, (7, 6), &mut seen, &mut path);
    assert_eq!(result, true);
    assert_eq!(
        path,
        vec![
            (7, 6),
            (6, 6),
            (5, 6),
            (4, 6),
            (3, 6),
            (3, 5),
            (4, 5),
            (5, 5),
            (6, 5),
            (7, 5),
            (7, 4),
            (7, 3),
            (7, 2),
            (6, 2),
            (5, 2),
            (4, 2),
            (3, 2),
            (3, 1),
            (2, 1),
            (1, 1),
            (1, 2),
            (1, 3),
            (1, 4),
            (1, 5),
            (1, 6)
        ]
    );

    maze = vec![
        String::from("########"),
        String::from("########"),
        String::from("########"),
        String::from("########"),
        String::from("########"),
    ];
    let mut seen = Vec::<(usize, usize)>::new();
    let mut path = Vec::<(usize, usize)>::new();
    let result = walk_to(&maze, (0, 0), &mut seen, &mut path);
    assert_eq!(result, false);
    assert_eq!(path, vec![]);
}

#[test]
fn walk_to_off_map_and_seen_cells() {
    let maze = vec![String::from("E.."), String::from("...")];
    let mut seen = Vec::new();
    let mut path = Vec::new();
    assert!(!walk_to(&maze, (5, 0), &mut seen, &mut path));
    assert!(!walk_to(&maze, (0, 9), &mut seen, &mut path));
    seen.push((1, 2));
    assert!(!walk_to(&maze, (1, 2), &mut seen, &mut path));
    assert!(path.is_empty());
    assert!(walk_to(&maze, (0, 0), &mut seen, &mut path));
    assert_eq!(path, vec![(0, 0)]);
}

#[test]
fn walk_to_no_exit_reachable() {
    let maze = vec![String::from("..#E"), String::from("..#.")];
    let mut seen = Vec::new();
    let mut path = Vec::new();
    assert!(!walk_to(&maze, (0, 0), &mut seen, &mut path));
    assert!(path.is_empty());
    assert_eq!(seen.len(), 4);
}
