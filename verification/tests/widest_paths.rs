use ranked_voting::schulze_method::floyd_warshall_widest_paths;

/// The smallest weight along `path`, or the largest `i32` for a path
/// without an edge.
fn path_width(weights: &[Vec<i32>], path: &[usize]) -> i32 {
    let mut width = i32::MAX;
    for step in path.windows(2) {
        width = width.min(weights[step[0]][step[1]]);
    }
    width
}

/// Every path without a repeated node among `n` nodes.
fn simple_paths(n: usize) -> Vec<Vec<usize>> {
    let mut paths: Vec<Vec<usize>> = (0..n).map(|node| vec![node]).collect();
    let mut from = 0;
    while from < paths.len() {
        let path = paths[from].clone();
        for node in 0..n {
            if !path.contains(&node) {
                let mut longer = path.clone();
                longer.push(node);
                paths.push(longer);
            }
        }
        from += 1;
    }
    paths
}

fn no_path_is_wider(weights: Vec<Vec<i32>>) {
    let widest = floyd_warshall_widest_paths(&weights);
    let n = weights.len();
    let mut best = vec![vec![i32::MIN; n]; n];
    for path in simple_paths(n) {
        let first = path[0];
        let last = path[path.len() - 1];
        let width = path_width(&weights, &path);
        assert!(width <= widest[first][last]);
        best[first][last] = best[first][last].max(width);
    }
    // The widest width is the width of one of the paths.
    assert_eq!(widest, best);
}

#[test]
fn no_path_is_wider_than_the_widest() {
    no_path_is_wider(vec![vec![0, 5, 1], vec![1, 0, 5], vec![3, 1, 0]]);
    no_path_is_wider(vec![
        vec![0, 5, 1, 0],
        vec![1, 0, 5, 0],
        vec![0, 1, 0, 5],
        vec![3, 0, 1, 0],
    ]);
    no_path_is_wider(vec![
        vec![0, 20, 26, 30, 22],
        vec![25, 0, 16, 33, 18],
        vec![19, 29, 0, 17, 24],
        vec![15, 12, 28, 0, 14],
        vec![23, 27, 21, 31, 0],
    ]);
}

#[test]
fn negative_weights_are_weights_too() {
    no_path_is_wider(vec![
        vec![0, -5, -1, i32::MIN],
        vec![-7, 0, -2, -9],
        vec![-3, -8, 0, -4],
        vec![i32::MAX, -6, -1, 0],
    ]);
    let widest = floyd_warshall_widest_paths(&[vec![0, -4, -1], vec![-9, 0, -3], vec![-2, -5, 0]]);
    assert_eq!(
        widest,
        vec![
            vec![i32::MAX, -4, -1],
            vec![-3, i32::MAX, -3],
            vec![-2, -4, i32::MAX],
        ]
    );
}

#[test]
fn weights_on_the_diagonal_are_passed_over() {
    let widest = floyd_warshall_widest_paths(&[vec![9, 1], vec![2, -9]]);
    assert_eq!(widest, vec![vec![i32::MAX, 1], vec![2, i32::MAX]]);
}

#[test]
fn diagonal_is_the_largest_value() {
    let weights = vec![
        vec![3, 5, 1, 0],
        vec![1, 7, 5, 0],
        vec![0, 1, -4, 5],
        vec![3, 0, 1, 2],
    ];
    let widest = floyd_warshall_widest_paths(&weights);
    for node in 0..weights.len() {
        assert_eq!(widest[node][node], i32::MAX);
    }
    assert_eq!(floyd_warshall_widest_paths(&[vec![12]]), vec![vec![i32::MAX]]);
}

#[test]
fn no_nodes_no_paths() {
    let weights: Vec<Vec<i32>> = vec![];
    assert_eq!(floyd_warshall_widest_paths(&weights), Vec::<Vec<i32>>::new());
}

#[test]
fn widest_paths_are_the_same_twice() {
    let weights = vec![vec![0, 5, 1], vec![1, 0, 5], vec![3, 1, 0]];
    let first = floyd_warshall_widest_paths(&weights);
    let second = floyd_warshall_widest_paths(&weights);
    assert_eq!(first, second);
    assert_eq!(weights, vec![vec![0, 5, 1], vec![1, 0, 5], vec![3, 1, 0]]);
}
