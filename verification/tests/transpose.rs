use rustcuda::geometry::Dim;
use rustcuda::geometry::Launch;
use rustcuda::geometry::Signal;
use rustcuda::geometry::ThreadId;
use rustcuda::geometry::TILE;
use rustcuda::transpose::transpose;
use rustcuda::transpose::transpose_block;
use rustcuda::transpose::Phase;
use rustcuda::transpose::TransposeThread;

fn counting(n: usize) -> Vec<u32> {
    let mut m: Vec<u32> = Vec::new();
    for i in 0..n * n {
        m.push(i as u32 + 1);
    }
    m
}

fn check_transpose(n: usize, tile: usize) {
    let m = counting(n);
    let launch = Launch::square(n, tile);
    let mut once = vec![0u32; n * n];
    transpose(&launch, &m, &mut once, n);
    for i in 0..n {
        for j in 0..n {
            assert_eq!(once[j * n + i], m[i * n + j]);
        }
    }
    let mut twice = vec![0u32; n * n];
    transpose(&launch, &once, &mut twice, n);
    assert_eq!(twice, m);
}

#[test]
fn transpose_of_a_small_matrix() {
    let m: Vec<u32> = vec![1, 2, 3, 4, 5, 6, 7, 8, 9];
    let mut out = vec![0u32; 9];
    let launch = Launch::square(3, 2);
    transpose(&launch, &m, &mut out, 3);
    assert_eq!(out, vec![1, 4, 7, 2, 5, 8, 3, 6, 9]);
}

#[test]
fn transpose_below_the_tile_side() {
    check_transpose(1, TILE);
    check_transpose(5, TILE);
    check_transpose(3, 4);
}

#[test]
fn transpose_at_the_tile_side() {
    check_transpose(TILE, TILE);
    check_transpose(4, 4);
    check_transpose(1, 1);
}

#[test]
fn transpose_above_the_tile_side() {
    check_transpose(TILE + 1, TILE);
    check_transpose(3 * TILE + 1, TILE);
    check_transpose(2 * TILE, TILE);
    check_transpose(7, 2);
}

#[test]
fn transpose_is_independent_of_the_tile_side() {
    let n: usize = 6;
    let m = counting(n);
    let mut expected = vec![0u32; n * n];
    for i in 0..n {
        for j in 0..n {
            expected[j * n + i] = m[i * n + j];
        }
    }
    for tile in 1..9usize {
        let mut out = vec![0u32; n * n];
        let launch = Launch::square(n, tile);
        transpose(&launch, &m, &mut out, n);
        assert_eq!(out, expected);
    }
}

#[test]
fn transpose_of_any_copyable_element() {
    let m: Vec<(u8, bool)> = vec![(1, true), (2, false), (3, false), (4, true)];
    let mut out = vec![(0u8, false); 4];
    let launch = Launch::square(2, 2);
    transpose(&launch, &m, &mut out, 2);
    assert_eq!(out, vec![(1, true), (3, false), (2, false), (4, true)]);
    let reals: Vec<f64> = vec![0.5, 1.5, 2.5, 3.5];
    let mut turned = vec![0.0f64; 4];
    transpose(&launch, &reals, &mut turned, 2);
    assert_eq!(turned, vec![0.5, 2.5, 1.5, 3.5]);
}

#[test]
fn transpose_of_an_empty_matrix_leaves_the_output_untouched() {
    let m: Vec<u32> = Vec::new();
    let mut out = vec![8u32; 2];
    let launch = Launch { grid: Dim { x: 1, y: 1 }, block: Dim { x: 4, y: 4 } };
    transpose(&launch, &m, &mut out, 0);
    assert_eq!(out, vec![8, 8]);
}

#[test]
fn transpose_with_a_larger_grid_leaves_the_tail_alone() {
    let n: usize = 3;
    let m = counting(n);
    let mut out = vec![0u32; n * n + 3];
    let launch = Launch { grid: Dim { x: 4, y: 3 }, block: Dim { x: 2, y: 2 } };
    transpose(&launch, &m, &mut out, n);
    assert_eq!(out, vec![1, 4, 7, 2, 5, 8, 3, 6, 9, 0, 0, 0]);
}

#[test]
fn transpose_with_a_smaller_grid_writes_only_what_it_reaches() {
    let n: usize = 4;
    let m = counting(n);
    let mut out = vec![0u32; n * n];
    let launch = Launch { grid: Dim { x: 1, y: 2 }, block: Dim { x: 2, y: 2 } };
    transpose(&launch, &m, &mut out, n);
    assert_eq!(out, vec![1, 5, 9, 13, 2, 6, 10, 14, 0, 0, 0, 0, 0, 0, 0, 0]);
}

#[test]
fn one_block_writes_the_mirrored_tile() {
    let n: usize = 4;
    let m = counting(n);
    let mut out = vec![0u32; n * n];
    let launch = Launch::square(n, 2);
    transpose_block(&launch, Dim { x: 1, y: 0 }, &m, &mut out, n);
    assert_eq!(out, vec![0, 0, 0, 0, 0, 0, 0, 0, 3, 7, 0, 0, 4, 8, 0, 0]);
}

#[test]
fn thread_fills_its_slot_then_reads_the_mirrored_one() {
    let n: usize = 2;
    let m: Vec<u32> = vec![1, 2, 3, 4];
    let launch = Launch::square(n, 2);
    let mut tile: Vec<Option<u32>> = vec![None; 4];
    let mut out = vec![0u32; 4];
    let mut threads: Vec<TransposeThread> = Vec::new();
    for slot in 0..4usize {
        let id = ThreadId {
            launch,
            block_idx: Dim { x: 0, y: 0 },
            thread_idx: Dim { x: slot % 2, y: slot / 2 },
        };
        threads.push(TransposeThread::new(id, n));
    }
    for thread in threads.iter_mut() {
        let signal = thread.step(&m, &mut tile, &mut out);
        assert!(matches!(signal, Signal::Barrier));
        assert!(matches!(thread.phase, Phase::Store));
    }
    assert_eq!(tile, vec![Some(1), Some(2), Some(3), Some(4)]);
    assert_eq!(out, vec![0, 0, 0, 0]);
    for thread in threads.iter_mut() {
        let signal = thread.step(&m, &mut tile, &mut out);
        assert!(matches!(signal, Signal::Done));
        assert!(matches!(thread.phase, Phase::Done));
    }
    assert_eq!(out, vec![1, 3, 2, 4]);
}

#[test]
fn thread_outside_the_matrix_touches_nothing_and_still_reaches_the_barrier() {
    let n: usize = 3;
    let m = counting(n);
    let launch = Launch::square(n, 2);
    let mut tile: Vec<Option<u32>> = vec![None; 4];
    let mut out = vec![0u32; 9];
    let id = ThreadId { launch, block_idx: Dim { x: 1, y: 1 }, thread_idx: Dim { x: 1, y: 1 } };
    let mut thread = TransposeThread::new(id, n);
    let first = thread.step(&m, &mut tile, &mut out);
    assert!(matches!(first, Signal::Barrier));
    assert_eq!(tile, vec![None, None, None, None]);
    let second = thread.step(&m, &mut tile, &mut out);
    assert!(matches!(second, Signal::Done));
    assert_eq!(out, vec![0; 9]);
    let third = thread.step(&m, &mut tile, &mut out);
    assert!(matches!(third, Signal::Done));
}
