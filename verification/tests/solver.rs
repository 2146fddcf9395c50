use task_ws::cost::UNREACHABLE;
use task_ws::lanes::{lanes_add, lanes_load, lanes_min, lanes_reduce_min, lanes_unreachable, LANES};
use task_ws::{DpSolver, Engine};

/// A small generator of repeatable numbers.
struct Numbers(u64);

impl Numbers {
    fn next(&mut self) -> u64 {
        self.0 = self.0.wrapping_mul(6364136223846793005).wrapping_add(1442695040888963407);
        self.0 >> 33
    }

    fn matrix(&mut self, n: usize, below: u64) -> Vec<Vec<u32>> {
        let mut dist = vec![vec![0u32; n]; n];
        for i in 0..n {
            for j in 0..n {
                if i != j {
                    dist[i][j] = (self.next() % below) as u32;
                }
            }
        }
        dist
    }
}

/// The least tour cost by trying every order of the nodes `1, .., n - 1`.
fn by_enumeration(dist: &[Vec<u32>]) -> u32 {
    fn go(dist: &[Vec<u32>], at: usize, seen: &mut Vec<bool>, left: usize, so_far: u64) -> u64 {
        if left == 0 {
            return so_far + dist[at][0] as u64;
        }
        let mut best = u64::MAX;
        for next in 1..dist.len() {
            if !seen[next] {
                seen[next] = true;
                best = best.min(go(dist, next, seen, left - 1, so_far + dist[at][next] as u64));
                seen[next] = false;
            }
        }
        best
    }
    let n = dist.len();
    if n <= 1 {
        return 0;
    }
    let mut seen = vec![false; n];
    seen[0] = true;
    go(dist, 0, &mut seen, n - 1, 0).min(u32::MAX as u64) as u32
}

fn solve(dist: &[Vec<u32>], engine: Engine) -> u32 {
    let mut solver = DpSolver::new(dist.len(), dist.to_vec());
    solver.compute(engine)
}

#[test]
fn lane_operations_treat_every_lane_alike() {
    assert_eq!(LANES, 8);
    let a = [0, 1, u32::MAX, 7, 0x8000_0000, 10, u32::MAX - 1, 3];
    let b = [0, 2, 1, u32::MAX, 0x8000_0000, 5, 1, 4];
    assert_eq!(
        lanes_add(&a, &b),
        [0, 3, u32::MAX, u32::MAX, u32::MAX, 15, u32::MAX, 7]
    );
    assert_eq!(lanes_min(&a, &b), [0, 1, 1, 7, 0x8000_0000, 5, 1, 3]);
    assert_eq!(lanes_reduce_min(&[9, 8, 7, 6, 5, 0x8000_0001, 11, 12]), 5);
    assert_eq!(lanes_reduce_min(&lanes_unreachable()), UNREACHABLE);
    assert_eq!(UNREACHABLE, u32::MAX);
    // clamped addition at the edge
    let edge = [u32::MAX - 1, u32::MAX, 2_147_483_647, 2_147_483_648, 0, 1, 2, 3];
    let more = [1, 1, 2_147_483_647, 2_147_483_648, 0, u32::MAX - 1, u32::MAX - 3, u32::MAX - 2];
    assert_eq!(
        lanes_add(&edge, &more),
        [u32::MAX, u32::MAX, 4_294_967_294, u32::MAX, 0, u32::MAX, u32::MAX - 1, u32::MAX]
    );
    assert_eq!(lanes_unreachable(), [u32::MAX; 8]);
    let table: Vec<u32> = (100..120).collect();
    assert_eq!(lanes_load(&table, 0), [100, 101, 102, 103, 104, 105, 106, 107]);
    assert_eq!(lanes_load(&table, 12), [112, 113, 114, 115, 116, 117, 118, 119]);
}

#[test]
fn new_table_holds_the_seed_alone() {
    let solver = DpSolver::new(3, vec![vec![0, 1, 2], vec![1, 0, 3], vec![2, 3, 0]]);
    assert_eq!(solver.n, 3);
    assert_eq!(solver.dp.len(), 8 * 3);
    for (k, &entry) in solver.dp.iter().enumerate() {
        assert_eq!(entry, if k == 3 { 0 } else { u32::MAX });
    }
    let none = DpSolver::new(0, vec![]);
    assert!(none.dp.is_empty());
    let one = DpSolver::new(1, vec![vec![0]]);
    assert_eq!(one.dp, vec![u32::MAX, 0]);
}

#[test]
fn fewer_than_two_nodes_cost_nothing() {
    for engine in [Engine::Scalar, Engine::Lanes] {
        let mut none = DpSolver::new(0, vec![]);
        assert_eq!(none.compute(engine), 0);
        assert!(none.dp.is_empty());
        // the diagonal is never travelled
        let mut one = DpSolver::new(1, vec![vec![77]]);
        assert_eq!(one.compute(engine), 0);
        assert_eq!(one.dp, vec![u32::MAX, 0]);
    }
}

#[test]
fn two_nodes_go_there_and_back() {
    for engine in [Engine::Scalar, Engine::Lanes] {
        assert_eq!(solve(&[vec![0, 3], vec![4, 0]], engine), 7);
        assert_eq!(solve(&[vec![9, 3], vec![4, 9]], engine), 7);
        assert_eq!(solve(&[vec![0, u32::MAX], vec![0, 0]], engine), u32::MAX);
        assert_eq!(solve(&[vec![0, u32::MAX - 1], vec![2, 0]], engine), u32::MAX);
        assert_eq!(solve(&[vec![0, u32::MAX / 2], vec![u32::MAX / 2, 0]], engine), u32::MAX - 1);
    }
}

#[test]
fn known_instances() {
    let three = vec![vec![0, 10, 15], vec![10, 0, 20], vec![15, 20, 0]];
    let four = vec![
        vec![0, 29, 20, 21],
        vec![29, 0, 15, 17],
        vec![20, 15, 0, 28],
        vec![21, 17, 28, 0],
    ];
    for engine in [Engine::Scalar, Engine::Lanes] {
        assert_eq!(solve(&three, engine), 45);
        assert_eq!(solve(&four, engine), 73);
    }
}

#[test]
fn directed_distances_are_kept_apart() {
    // 0 -> 1 -> 2 -> 0 costs 3, the other way round costs 300
    let dist = vec![vec![0, 1, 100], vec![100, 0, 1], vec![1, 100, 0]];
    for engine in [Engine::Scalar, Engine::Lanes] {
        assert_eq!(solve(&dist, engine), 3);
    }
}

#[test]
fn the_diagonal_is_never_travelled() {
    let mut numbers = Numbers(31);
    for n in 2..=9usize {
        let dist = numbers.matrix(n, 1000);
        let mut other = dist.clone();
        for i in 0..n {
            other[i][i] = (numbers.next() % 1000) as u32;
        }
        for engine in [Engine::Scalar, Engine::Lanes] {
            assert_eq!(solve(&dist, engine), solve(&other, engine));
        }
    }
}

#[test]
fn table_entries_are_least_path_costs() {
    let dist = vec![vec![0, 10, 15], vec![10, 0, 20], vec![15, 20, 0]];
    for engine in [Engine::Scalar, Engine::Lanes] {
        let mut solver = DpSolver::new(3, dist.clone());
        assert_eq!(solver.compute(engine), 45);
        let entry = |mask: usize, last: usize| solver.dp[mask * 3 + last];
        assert_eq!(entry(0b001, 0), 0);
        assert_eq!(entry(0b011, 1), 10);
        assert_eq!(entry(0b101, 2), 15);
        assert_eq!(entry(0b111, 1), 35);
        assert_eq!(entry(0b111, 2), 30);
        // no path from node 0 ends at node 0 after other nodes, starts
        // elsewhere, or ends outside its set
        assert_eq!(entry(0b111, 0), u32::MAX);
        assert_eq!(entry(0b011, 0), u32::MAX);
        assert_eq!(entry(0b110, 1), u32::MAX);
        assert_eq!(entry(0b010, 1), u32::MAX);
        assert_eq!(entry(0b011, 2), u32::MAX);
        assert_eq!(entry(0b000, 0), u32::MAX);
    }
}

#[test]
fn filling_twice_changes_nothing() {
    let dist = Numbers(7).matrix(6, 1000);
    let mut solver = DpSolver::new(6, dist);
    let first = solver.compute(Engine::Scalar);
    let table = solver.dp.clone();
    assert_eq!(solver.compute(Engine::Lanes), first);
    assert_eq!(solver.dp, table);
    assert_eq!(solver.compute(Engine::Scalar), first);
    assert_eq!(solver.dp, table);
}

#[test]
fn engines_called_directly_agree() {
    let mut numbers = Numbers(2024);
    for n in 2..=11usize {
        let dist = numbers.matrix(n, 10_000);
        let full = (1usize << n) - 1;
        let mut scalar = DpSolver::new(n, dist.clone());
        let mut lanes = DpSolver::new(n, dist.clone());
        let a = scalar.compute_scalar(full);
        let b = lanes.compute_simd(full);
        assert_eq!(a, b);
        assert_eq!(scalar.dp, lanes.dp);
    }
}

#[test]
fn both_engines_find_the_least_tour() {
    let mut numbers = Numbers(1);
    for n in 0..=9usize {
        for _ in 0..4 {
            let dist = numbers.matrix(n, 500);
            let expected = by_enumeration(&dist);
            assert_eq!(solve(&dist, Engine::Scalar), expected);
            assert_eq!(solve(&dist, Engine::Lanes), expected);
        }
    }
}

#[test]
fn large_distances_clamp_in_both_engines() {
    let mut numbers = Numbers(99);
    for n in 2..=9usize {
        let dist = numbers.matrix(n, 1 << 32);
        let expected = by_enumeration(&dist);
        assert_eq!(solve(&dist, Engine::Scalar), expected);
        assert_eq!(solve(&dist, Engine::Lanes), expected);
    }
    // every tour runs over an edge that cannot be used
    let mut blocked = vec![vec![1u32; 9]; 9];
    for row in blocked.iter_mut() {
        row[4] = u32::MAX;
    }
    assert_eq!(solve(&blocked, Engine::Scalar), u32::MAX);
    assert_eq!(solve(&blocked, Engine::Lanes), u32::MAX);
}

#[test]
fn lane_boundaries() {
    let mut numbers = Numbers(8);
    for n in [7usize, 8, 9, 15, 16, 17] {
        let zero = vec![vec![0u32; n]; n];
        assert_eq!(solve(&zero, Engine::Scalar), 0);
        assert_eq!(solve(&zero, Engine::Lanes), 0);
        let ones = vec![vec![1u32; n]; n];
        assert_eq!(solve(&ones, Engine::Lanes), n as u32);
        if n <= 9 {
            let dist = numbers.matrix(n, 100);
            let expected = by_enumeration(&dist);
            assert_eq!(solve(&dist, Engine::Scalar), expected);
            assert_eq!(solve(&dist, Engine::Lanes), expected);
        } else {
            let dist = numbers.matrix(n, 100);
            assert_eq!(solve(&dist, Engine::Scalar), solve(&dist, Engine::Lanes));
        }
    }
}

#[test]
fn relabeling_keeps_the_cost() {
    let mut numbers = Numbers(5);
    for n in 2..=8usize {
        // a symmetric matrix
        let mut dist = numbers.matrix(n, 1000);
        for i in 0..n {
            for j in 0..i {
                dist[i][j] = dist[j][i];
            }
        }
        // node 0 stays, the others move one place round
        let mut perm: Vec<usize> = (0..n).collect();
        perm[1..].rotate_left(1);
        let mut other = vec![vec![0u32; n]; n];
        for i in 0..n {
            for j in 0..n {
                other[perm[i]][perm[j]] = dist[i][j];
            }
        }
        for engine in [Engine::Scalar, Engine::Lanes] {
            assert_eq!(solve(&dist, engine), solve(&other, engine));
        }
    }
    let four = vec![
        vec![0, 29, 20, 21],
        vec![29, 0, 15, 17],
        vec![20, 15, 0, 28],
        vec![21, 17, 28, 0],
    ];
    // nodes 1 and 3 change places
    let swapped = vec![
        vec![0, 21, 20, 29],
        vec![21, 0, 28, 17],
        vec![20, 28, 0, 15],
        vec![29, 17, 15, 0],
    ];
    assert_eq!(solve(&four, Engine::Scalar), 73);
    assert_eq!(solve(&swapped, Engine::Scalar), 73);
    assert_eq!(solve(&swapped, Engine::Lanes), 73);
}

#[test]
fn table_size_limit() {
    assert!(DpSolver::fits(0));
    assert!(DpSolver::fits(1));
    assert!(DpSolver::fits(20));
    assert!(DpSolver::fits(27));
    let bits = usize::BITS as usize;
    for n in 0..bits + 2 {
        let expected = n < bits && (1u128 << n) * (n as u128) <= usize::MAX as u128;
        assert_eq!(DpSolver::fits(n), expected, "n = {}", n);
    }
    assert!(!DpSolver::fits(bits - 1));
    assert!(!DpSolver::fits(bits));
    assert!(!DpSolver::fits(usize::MAX));
}
