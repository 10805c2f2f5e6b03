use rrt::dual_rrt_connect;
use rrt::rrt_star_connect;
use rrt::smooth_path;
use rrt::tree::{ExtendStatus, Node, Tree};

#[test]
fn it_works() {
    let mut result = dual_rrt_connect(
        &vec![-12, 0],
        &vec![12, 0],
        |p: &Vec<i64>| !(p[0].abs() < 10 && p[1].abs() < 10),
        || {
            let mut rng = rand::thread_rng();
            vec![
                rand::Rng::gen_range(&mut rng, -20..21),
                rand::Rng::gen_range(&mut rng, -20..21),
            ]
        },
        2,
        1000,
    )
    .unwrap();
    println!("{result:?}");
    assert!(result.len() >= 4);
    smooth_path(
        &mut result,
        |p: &Vec<i64>| !(p[0].abs() < 10 && p[1].abs() < 10),
        2,
        100,
    );
    println!("{result:?}");
    assert!(result.len() >= 3);
}

#[test]
fn deterministic_given_scripted_sampler() {
    let first = dual_rrt_connect(
        &vec![0, 0],
        &vec![40, 0],
        |_p: &Vec<i64>| true,
        || vec![40, 0],
        10,
        50,
    )
    .unwrap();
    let second = dual_rrt_connect(
        &vec![0, 0],
        &vec![40, 0],
        |_p: &Vec<i64>| true,
        || vec![40, 0],
        10,
        50,
    )
    .unwrap();
    assert_eq!(first, second);
}

#[test]
fn no_obstacle_reaches_goal_quickly() {
    let coarse = dual_rrt_connect(
        &vec![0, 0],
        &vec![50, 0],
        |_p: &Vec<i64>| true,
        || vec![50, 0],
        10,
        6,
    )
    .unwrap();
    assert_eq!(coarse[0], vec![0, 0]);
    assert_eq!(coarse[coarse.len() - 1], vec![50, 0]);
    // every waypoint pair stays within one steering step, the junction of
    // the two trees included
    for w in coarse.windows(2) {
        let dx = w[1][0] - w[0][0];
        let dy = w[1][1] - w[0][1];
        assert!(dx * dx + dy * dy <= 11 * 11);
    }
    // a finer step can only produce at least as many waypoints
    let fine = dual_rrt_connect(
        &vec![0, 0],
        &vec![50, 0],
        |_p: &Vec<i64>| true,
        || vec![50, 0],
        5,
        6,
    )
    .unwrap();
    assert!(fine.len() >= coarse.len());
}

#[test]
fn dual_reports_failure_when_blocked() {
    let r = dual_rrt_connect(
        &vec![0, 0],
        &vec![50, 0],
        |_p: &Vec<i64>| false,
        || vec![25, 25],
        5,
        30,
    );
    assert_eq!(r.unwrap_err(), "failed");
}

#[test]
fn dual_fails_on_zero_budget() {
    let r = dual_rrt_connect(
        &vec![0, 0],
        &vec![10, 0],
        |_p: &Vec<i64>| true,
        || vec![10, 0],
        5,
        0,
    );
    assert!(r.is_err());
}

#[test]
fn rrt_star_connects_directly_when_goal_in_reach() {
    let r = rrt_star_connect(
        &vec![0, 0],
        &vec![5, 0],
        |_p: &Vec<i64>| true,
        || vec![5, 0],
        10,
        20,
    )
    .unwrap();
    assert_eq!(r, vec![vec![0, 0], vec![5, 0], vec![5, 0]]);
    assert_eq!(r[r.len() - 1], vec![5, 0]);
}

#[test]
fn rrt_star_returns_path_to_closest_vertex_on_small_budget() {
    let r = rrt_star_connect(
        &vec![0, 0],
        &vec![50, 0],
        |_p: &Vec<i64>| true,
        || vec![50, 0],
        10,
        1,
    )
    .unwrap();
    assert_eq!(r, vec![vec![0, 0], vec![10, 0]]);
}

#[test]
fn rrt_star_degenerates_when_everything_is_blocked() {
    let r = rrt_star_connect(
        &vec![0, 0],
        &vec![9, 0],
        |_p: &Vec<i64>| false,
        || vec![9, 0],
        5,
        10,
    )
    .unwrap();
    assert_eq!(r, vec![vec![0, 0]]);
}

#[test]
fn smoothing_two_point_path_is_noop() {
    let mut p = vec![vec![0, 0], vec![9, 9]];
    smooth_path(&mut p, |_q: &Vec<i64>| true, 3, 50);
    assert_eq!(p, vec![vec![0, 0], vec![9, 9]]);
}

#[test]
fn smoothing_never_grows_and_keeps_waypoints() {
    let orig = vec![
        vec![0, 0],
        vec![1, 3],
        vec![2, 0],
        vec![3, 3],
        vec![4, 0],
        vec![5, 3],
        vec![6, 0],
    ];
    let mut p = orig.clone();
    smooth_path(&mut p, |_q: &Vec<i64>| true, 2, 200);
    assert!(p.len() <= orig.len());
    assert_eq!(p[0], orig[0]);
    assert_eq!(p[p.len() - 1], orig[orig.len() - 1]);
    for w in &p {
        assert!(orig.contains(w));
    }
    assert!(p.len() >= 2);
}

#[test]
fn smoothing_collapses_a_free_straight_path() {
    let mut p = vec![vec![0, 0], vec![2, 0], vec![4, 0]];
    smooth_path(&mut p, |_q: &Vec<i64>| true, 10, 5);
    assert_eq!(p, vec![vec![0, 0], vec![4, 0]]);
}

#[test]
fn smoothing_respects_the_predicate() {
    // the only waypoint between the endpoints shields a blocked straight line
    let obstacle = |q: &Vec<i64>| !(q[1] == 0 && 0 < q[0] && q[0] < 8);
    let mut p = vec![vec![0, 0], vec![4, 5], vec![8, 0]];
    smooth_path(&mut p, obstacle, 2, 200);
    assert_eq!(p, vec![vec![0, 0], vec![4, 5], vec![8, 0]]);
}

#[test]
fn radius_query_matches_brute_force() {
    let mut tree = Tree::new(2);
    let pts = vec![
        vec![0, 0],
        vec![3, 4],
        vec![10, 0],
        vec![-3, -4],
        vec![6, 8],
        vec![5, 0],
        vec![0, -6],
    ];
    for p in &pts {
        tree.add_vertex(p);
    }
    let q = vec![0, 0];
    let rad: i64 = 5;
    let got = tree.get_nearest_indices_in_radius(&q, rad);
    let mut expect: Vec<usize> = Vec::new();
    for (i, p) in pts.iter().enumerate() {
        let dx = p[0] - q[0];
        let dy = p[1] - q[1];
        if dx * dx + dy * dy <= rad * rad {
            expect.push(i);
        }
    }
    assert_eq!(got, expect);
}

#[test]
fn nearest_index_finds_the_closest_point() {
    let mut tree = Tree::new(2);
    tree.add_vertex(&vec![0, 0]);
    tree.add_vertex(&vec![7, 1]);
    tree.add_vertex(&vec![3, 3]);
    assert_eq!(tree.get_nearest_index(&vec![8, 0]), 1);
    assert_eq!(tree.get_nearest_index(&vec![1, 1]), 0);
}

#[test]
fn extend_statuses_cover_the_state_machine() {
    let mut tree = Tree::new(2);
    tree.add_vertex(&vec![0, 0]);
    let st = tree.extend(&vec![10, 0], 4, &|_p: &Vec<i64>| true);
    assert!(matches!(st, ExtendStatus::Advanced(1)));
    let st2 = tree.extend(&vec![5, 0], 4, &|_p: &Vec<i64>| true);
    assert!(matches!(st2, ExtendStatus::Reached(2)));
    let before = tree.vertices.len();
    let st3 = tree.extend(&vec![20, 0], 4, &|_p: &Vec<i64>| false);
    assert!(matches!(st3, ExtendStatus::Trapped));
    assert_eq!(tree.vertices.len(), before);
}

#[test]
fn node_new_has_no_parent() {
    let n = Node::new(vec![1i64, 2]);
    assert!(n.parent_index.is_none());
    assert_eq!(n.data, vec![1, 2]);
}

#[test]
fn squared_euclidean_is_exact() {
    assert_eq!(rrt::geom::squared_euclidean(&vec![1, 2, 3], &vec![4, 6, 3]), 25);
    assert_eq!(rrt::geom::squared_euclidean(&vec![-2, 0], &vec![2, 3]), 25);
}

#[test]
fn isqrt_takes_the_floor() {
    assert_eq!(rrt::geom::isqrt(0), 0);
    assert_eq!(rrt::geom::isqrt(24), 4);
    assert_eq!(rrt::geom::isqrt(25), 5);
    assert_eq!(rrt::geom::isqrt(26), 5);
    assert_eq!(rrt::geom::isqrt(4_611_686_018_427_387_903), 2_147_483_647);
}

#[test]
fn steer_interpolates_on_the_grid() {
    let r = rrt::geom::steer(&vec![0, 0], &vec![30, 40], 5);
    assert_eq!(r, vec![3, 4]);
    let d = rrt::geom::squared_euclidean(&vec![0, 0], &r);
    assert!(d <= 6 * 6);
}

#[test]
fn smoothing_leaves_short_paths_alone() {
    let mut empty: Vec<Vec<i64>> = Vec::new();
    smooth_path(&mut empty, |_q: &Vec<i64>| true, 5, 10);
    assert!(empty.is_empty());
    let mut single = vec![vec![7, -7]];
    smooth_path(&mut single, |_q: &Vec<i64>| true, 5, 10);
    assert_eq!(single, vec![vec![7, -7]]);
}
