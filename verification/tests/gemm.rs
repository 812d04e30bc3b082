use rustcuda::gemm::dgemm;
use rustcuda::gemm::gemm;
use rustcuda::gemm::gemm_block;
use rustcuda::gemm::GemmThread;
use rustcuda::gemm::Stage;
use rustcuda::geometry::Dim;
use rustcuda::geometry::Launch;
use rustcuda::geometry::Signal;
use rustcuda::geometry::ThreadId;
use rustcuda::geometry::TILE;

fn plain_product(a: &[i64], b: &[i64], n: usize) -> Vec<i64> {
    let mut out = vec![0i64; n * n];
    for row in 0..n {
        for col in 0..n {
            let mut sum: i64 = 0;
            for k in 0..n {
                sum = sum.wrapping_add(a[row * n + k].wrapping_mul(b[k * n + col]));
            }
            out[row * n + col] = sum;
        }
    }
    out
}

fn matrix(n: usize, scale: i64, shift: i64) -> Vec<i64> {
    let mut m: Vec<i64> = Vec::new();
    for i in 0..n * n {
        m.push(((i as i64) * scale + shift) % 23 - 11);
    }
    m
}

fn check_product(n: usize, tile: usize) {
    let a = matrix(n, 7, 3);
    let b = matrix(n, 5, 1);
    let expected = plain_product(&a, &b, n);
    let mut c = vec![-1i64; n * n];
    let launch = Launch::square(n, tile);
    dgemm(&launch, &a, &b, &mut c, n);
    assert_eq!(c, expected);
}

#[test]
fn identity_times_matrix_with_tiles_of_two() {
    let n: usize = 4;
    let mut a = vec![0i64; n * n];
    for i in 0..n {
        a[i * n + i] = 1;
    }
    let mut b: Vec<i64> = Vec::new();
    for i in 0..n {
        for j in 0..n {
            b.push((i * 4 + j) as i64);
        }
    }
    let launch = Launch::square(n, 2);
    assert_eq!(launch.grid.x * launch.grid.y, 4);
    assert_eq!(launch.block.x, 2);
    assert_eq!(launch.block.y, 2);
    let mut c = vec![-1i64; n * n];
    dgemm(&launch, &a, &b, &mut c, n);
    assert_eq!(c, b);
}

#[test]
fn identity_product_takes_two_rounds_per_thread() {
    let launch = Launch::square(4, 2);
    let id = ThreadId { launch, block_idx: Dim { x: 1, y: 1 }, thread_idx: Dim { x: 0, y: 1 } };
    let thread: GemmThread<i64> = GemmThread::new(id, 4);
    assert_eq!(thread.rounds, 2);
    assert_eq!(thread.round, 0);
    assert!(matches!(thread.stage, Stage::Load));
}

#[test]
fn five_by_five_with_tiles_of_four() {
    let n: usize = 5;
    let a: Vec<i64> = vec![
        1, 2, 3, 4, 5, 6, 7, 8, 9, 10, 11, 12, 13, 14, 15, 16, 17, 18, 19, 20, 21, 22, 23, 24, 25,
    ];
    let b: Vec<i64> = vec![
        1, 0, 0, 0, 1, 0, 2, 0, 0, 0, 0, 0, 3, 0, 0, 0, 0, 0, 4, 0, 1, 0, 0, 0, 5,
    ];
    let expected: Vec<i64> = vec![
        6, 4, 9, 16, 26, 16, 14, 24, 36, 56, 26, 24, 39, 56, 86, 36, 34, 54, 76, 116, 46, 44, 69,
        96, 146,
    ];
    assert_eq!(plain_product(&a, &b, n), expected);
    let launch = Launch::square(n, 4);
    assert_eq!(launch.grid.x, 2);
    assert_eq!(launch.grid.y, 2);
    let mut c = vec![0i64; n * n];
    dgemm(&launch, &a, &b, &mut c, n);
    assert_eq!(c, expected);
}

#[test]
fn product_with_one_partial_tile() {
    check_product(3, 4);
    check_product(1, 4);
    check_product(5, TILE);
}

#[test]
fn product_with_one_full_tile() {
    check_product(4, 4);
    check_product(1, 1);
    check_product(TILE, TILE);
}

#[test]
fn product_with_several_tiles_and_a_partial_last_one() {
    check_product(13, 4);
    check_product(7, 2);
    check_product(3 * TILE + 1, TILE);
}

#[test]
fn product_with_tiles_that_divide_the_matrix() {
    check_product(8, 4);
    check_product(6, 3);
    check_product(2 * TILE, TILE);
}

#[test]
fn product_is_independent_of_the_tile_side() {
    let n: usize = 9;
    let a = matrix(n, 3, 2);
    let b = matrix(n, 11, 5);
    let expected = plain_product(&a, &b, n);
    for tile in 1..13usize {
        let mut c = vec![0i64; n * n];
        let launch = Launch::square(n, tile);
        dgemm(&launch, &a, &b, &mut c, n);
        assert_eq!(c, expected);
    }
}

#[test]
fn product_is_not_the_product_with_the_transpose() {
    let a: Vec<i64> = vec![1, 2, 3, 4];
    let b: Vec<i64> = vec![0, 1, 0, 0];
    let launch = Launch::square(2, 2);
    let mut c = vec![0i64; 4];
    dgemm(&launch, &a, &b, &mut c, 2);
    assert_eq!(c, vec![0, 1, 0, 3]);
}

#[test]
fn product_of_empty_matrices_leaves_the_output_untouched() {
    let a: Vec<i64> = Vec::new();
    let b: Vec<i64> = Vec::new();
    let mut c = vec![5i64; 3];
    let launch = Launch { grid: Dim { x: 1, y: 1 }, block: Dim { x: 2, y: 2 } };
    dgemm(&launch, &a, &b, &mut c, 0);
    assert_eq!(c, vec![5, 5, 5]);
    let none = Launch::square(0, 4);
    assert_eq!(none.grid.x, 0);
    dgemm(&none, &a, &b, &mut c, 0);
    assert_eq!(c, vec![5, 5, 5]);
}

#[test]
fn product_with_a_larger_grid_leaves_the_tail_alone() {
    let n: usize = 3;
    let a = matrix(n, 7, 3);
    let b = matrix(n, 5, 1);
    let expected = plain_product(&a, &b, n);
    let mut c = vec![-9i64; n * n + 4];
    let launch = Launch { grid: Dim { x: 3, y: 4 }, block: Dim { x: 2, y: 2 } };
    dgemm(&launch, &a, &b, &mut c, n);
    assert_eq!(c[..n * n].to_vec(), expected);
    assert_eq!(c[n * n..].to_vec(), vec![-9, -9, -9, -9]);
}

#[test]
fn product_with_a_smaller_grid_writes_only_what_it_reaches() {
    let n: usize = 4;
    let a = matrix(n, 7, 3);
    let b = matrix(n, 5, 1);
    let expected = plain_product(&a, &b, n);
    let mut c = vec![-9i64; n * n];
    let launch = Launch { grid: Dim { x: 1, y: 2 }, block: Dim { x: 2, y: 2 } };
    dgemm(&launch, &a, &b, &mut c, n);
    for row in 0..n {
        for col in 0..n {
            if col < 2 {
                assert_eq!(c[row * n + col], expected[row * n + col]);
            } else {
                assert_eq!(c[row * n + col], -9);
            }
        }
    }
}

#[test]
fn one_block_writes_its_own_tile_only() {
    let n: usize = 4;
    let a = matrix(n, 7, 3);
    let b = matrix(n, 5, 1);
    let expected = plain_product(&a, &b, n);
    let mut c = vec![-9i64; n * n];
    let launch = Launch::square(n, 2);
    gemm_block(&launch, Dim { x: 1, y: 0 }, &a, &b, &mut c, n);
    for row in 0..n {
        for col in 0..n {
            if row < 2 && col >= 2 {
                assert_eq!(c[row * n + col], expected[row * n + col]);
            } else {
                assert_eq!(c[row * n + col], -9);
            }
        }
    }
}

#[test]
fn product_on_narrow_lanes() {
    let a: Vec<i32> = vec![1, 2, 3, 4, 5, 6, 7, 8, 9];
    let b: Vec<i32> = vec![9, 8, 7, 6, 5, 4, 3, 2, 1];
    let mut c = vec![0i32; 9];
    let launch = Launch::square(3, 2);
    gemm(&launch, &a, &b, &mut c, 3);
    assert_eq!(c, vec![30, 24, 18, 84, 69, 54, 138, 114, 90]);
}

#[test]
fn product_wraps_around() {
    let a: Vec<i64> = vec![i64::MAX, 1, 0, 2];
    let b: Vec<i64> = vec![1, 0, 1, i64::MAX];
    let mut c = vec![0i64; 4];
    let launch = Launch::square(2, 2);
    dgemm(&launch, &a, &b, &mut c, 2);
    assert_eq!(c, vec![i64::MIN, i64::MAX, 2, -2]);
}

#[test]
fn thread_loads_then_accumulates_then_stores() {
    let launch = Launch::square(2, 2);
    let a: Vec<i64> = vec![1, 2, 3, 4];
    let b: Vec<i64> = vec![5, 6, 7, 8];
    let mut c = vec![0i64; 4];
    let mut tile_a = vec![0i64; 4];
    let mut tile_b = vec![0i64; 4];
    let mut threads: Vec<GemmThread<i64>> = Vec::new();
    for slot in 0..4usize {
        let id = ThreadId {
            launch,
            block_idx: Dim { x: 0, y: 0 },
            thread_idx: Dim { x: slot % 2, y: slot / 2 },
        };
        threads.push(GemmThread::new(id, 2));
    }
    for thread in threads.iter_mut() {
        let signal = thread.step(&a, &b, &mut tile_a, &mut tile_b, &mut c);
        assert!(matches!(signal, Signal::Barrier));
        assert!(matches!(thread.stage, Stage::Accumulate));
    }
    assert_eq!(tile_a, a);
    assert_eq!(tile_b, b);
    assert_eq!(c, vec![0, 0, 0, 0]);
    for thread in threads.iter_mut() {
        let signal = thread.step(&a, &b, &mut tile_a, &mut tile_b, &mut c);
        assert!(matches!(signal, Signal::Barrier));
        assert!(matches!(thread.stage, Stage::Store));
        assert_eq!(thread.round, 1);
    }
    assert_eq!(threads[0].acc, 19);
    assert_eq!(threads[1].acc, 22);
    assert_eq!(threads[2].acc, 43);
    assert_eq!(threads[3].acc, 50);
    assert_eq!(c, vec![0, 0, 0, 0]);
    for thread in threads.iter_mut() {
        let signal = thread.step(&a, &b, &mut tile_a, &mut tile_b, &mut c);
        assert!(matches!(signal, Signal::Done));
        assert!(matches!(thread.stage, Stage::Done));
    }
    assert_eq!(c, vec![19, 22, 43, 50]);
    for thread in threads.iter_mut() {
        let signal = thread.step(&a, &b, &mut tile_a, &mut tile_b, &mut c);
        assert!(matches!(signal, Signal::Done));
    }
    assert_eq!(c, vec![19, 22, 43, 50]);
}

#[test]
fn thread_outside_the_matrix_pads_with_zero_and_still_reaches_the_barriers() {
    let launch = Launch::square(3, 2);
    let a: Vec<i64> = vec![1, 2, 3, 4, 5, 6, 7, 8, 9];
    let b: Vec<i64> = vec![1, 1, 1, 1, 1, 1, 1, 1, 1];
    let mut c = vec![-1i64; 9];
    let mut tile_a = vec![77i64; 4];
    let mut tile_b = vec![77i64; 4];
    let id = ThreadId { launch, block_idx: Dim { x: 1, y: 1 }, thread_idx: Dim { x: 1, y: 1 } };
    let mut thread: GemmThread<i64> = GemmThread::new(id, 3);
    assert_eq!(thread.rounds, 2);
    let mut barriers: usize = 0;
    loop {
        match thread.step(&a, &b, &mut tile_a, &mut tile_b, &mut c) {
            Signal::Barrier => {
                barriers += 1;
            },
            Signal::Done => {
                break;
            },
        }
    }
    assert_eq!(barriers, 4);
    assert_eq!(tile_a, vec![77, 77, 77, 0]);
    assert_eq!(tile_b, vec![77, 77, 77, 0]);
    assert_eq!(c, vec![-1; 9]);
}

#[test]
fn thread_on_the_edge_loads_what_lies_inside() {
    let launch = Launch::square(3, 2);
    let a: Vec<i64> = vec![1, 2, 3, 4, 5, 6, 7, 8, 9];
    let b: Vec<i64> = vec![10, 20, 30, 40, 50, 60, 70, 80, 90];
    let mut c = vec![0i64; 9];
    let mut tile_a = vec![0i64; 4];
    let mut tile_b = vec![0i64; 4];
    let id = ThreadId { launch, block_idx: Dim { x: 1, y: 0 }, thread_idx: Dim { x: 1, y: 0 } };
    let mut thread: GemmThread<i64> = GemmThread::new(id, 3);
    thread.step(&a, &b, &mut tile_a, &mut tile_b, &mut c);
    assert_eq!(tile_a, vec![0, 2, 0, 0]);
    assert_eq!(tile_b, vec![0, 0, 0, 0]);
    let below = ThreadId { launch, block_idx: Dim { x: 0, y: 1 }, thread_idx: Dim { x: 0, y: 1 } };
    let mut other: GemmThread<i64> = GemmThread::new(below, 3);
    other.step(&a, &b, &mut tile_a, &mut tile_b, &mut c);
    assert_eq!(tile_a, vec![0, 2, 0, 0]);
    assert_eq!(tile_b, vec![0, 0, 40, 0]);
}

#[test]
fn thread_of_an_empty_matrix_goes_straight_to_the_end() {
    let launch = Launch { grid: Dim { x: 1, y: 1 }, block: Dim { x: 2, y: 2 } };
    let a: Vec<i64> = Vec::new();
    let b: Vec<i64> = Vec::new();
    let mut c: Vec<i64> = Vec::new();
    let mut tile_a = vec![0i64; 4];
    let mut tile_b = vec![0i64; 4];
    let id = ThreadId { launch, block_idx: Dim { x: 0, y: 0 }, thread_idx: Dim { x: 0, y: 0 } };
    let mut thread: GemmThread<i64> = GemmThread::new(id, 0);
    assert_eq!(thread.rounds, 0);
    assert!(matches!(thread.stage, Stage::Store));
    let signal = thread.step(&a, &b, &mut tile_a, &mut tile_b, &mut c);
    assert!(matches!(signal, Signal::Done));
    assert!(matches!(thread.stage, Stage::Done));
}
