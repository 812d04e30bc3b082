use rustcuda::elementwise;
use rustcuda::geometry::Dim;
use rustcuda::geometry::Launch;
use rustcuda::geometry::ThreadId;

fn ramp(len: usize, start: i32, step: i32) -> Vec<i32> {
    let mut v: Vec<i32> = Vec::new();
    for i in 0..len {
        v.push(start + step * (i as i32));
    }
    v
}

#[test]
fn add_sums_every_element() {
    let a = ramp(10, 1, 1);
    let b = ramp(10, 100, 10);
    let mut c = vec![-1i32; 10];
    let launch = Launch::linear(10, 4);
    elementwise::add(&launch, &a, &b, &mut c);
    assert_eq!(c, vec![101, 112, 123, 134, 145, 156, 167, 178, 189, 200]);
}

#[test]
fn add_is_independent_of_the_block_size() {
    let len: usize = 37;
    let a = ramp(len, 3, 2);
    let b = ramp(len, -50, 7);
    let mut expected: Vec<i32> = Vec::new();
    for i in 0..len {
        expected.push(a[i] + b[i]);
    }
    for block in 1..41usize {
        let mut c = vec![0i32; len];
        let launch = Launch::linear(len, block);
        elementwise::add(&launch, &a, &b, &mut c);
        assert_eq!(c, expected);
    }
}

#[test]
fn add_with_a_larger_grid_leaves_the_tail_alone() {
    let a = ramp(5, 1, 1);
    let b = ramp(5, 10, 0);
    let mut c = vec![77i32; 9];
    let launch = Launch { grid: Dim { x: 4, y: 1 }, block: Dim { x: 8, y: 1 } };
    elementwise::add(&launch, &a, &b, &mut c);
    assert_eq!(c, vec![11, 12, 13, 14, 15, 77, 77, 77, 77]);
}

#[test]
fn add_with_a_smaller_grid_writes_only_what_it_reaches() {
    let a = ramp(8, 1, 1);
    let b = ramp(8, 10, 0);
    let mut c = vec![0i32; 8];
    let launch = Launch { grid: Dim { x: 1, y: 1 }, block: Dim { x: 3, y: 1 } };
    elementwise::add(&launch, &a, &b, &mut c);
    assert_eq!(c, vec![11, 12, 13, 0, 0, 0, 0, 0]);
}

#[test]
fn add_on_a_two_dimensional_launch_gives_the_same_sums() {
    let a = ramp(6, 1, 1);
    let b = ramp(6, 1, 1);
    let mut c = vec![0i32; 6];
    let launch = Launch { grid: Dim { x: 2, y: 3 }, block: Dim { x: 3, y: 2 } };
    elementwise::add(&launch, &a, &b, &mut c);
    assert_eq!(c, vec![2, 4, 6, 8, 10, 12]);
}

#[test]
fn add_without_threads_writes_nothing() {
    let a = ramp(4, 1, 1);
    let b = ramp(4, 1, 1);
    let mut c = vec![9i32; 4];
    let no_blocks = Launch { grid: Dim { x: 0, y: 1 }, block: Dim { x: 4, y: 1 } };
    elementwise::add(&no_blocks, &a, &b, &mut c);
    assert_eq!(c, vec![9, 9, 9, 9]);
    let no_rows = Launch { grid: Dim { x: 1, y: 0 }, block: Dim { x: 4, y: 1 } };
    elementwise::add(&no_rows, &a, &b, &mut c);
    assert_eq!(c, vec![9, 9, 9, 9]);
    let flat_block = Launch { grid: Dim { x: 1, y: 1 }, block: Dim { x: 4, y: 0 } };
    elementwise::add(&flat_block, &a, &b, &mut c);
    assert_eq!(c, vec![9, 9, 9, 9]);
}

#[test]
fn add_of_empty_vectors_writes_nothing() {
    let a: Vec<i32> = Vec::new();
    let b: Vec<i32> = Vec::new();
    let mut c = vec![5i32; 3];
    let launch = Launch::linear(3, 2);
    elementwise::add(&launch, &a, &b, &mut c);
    assert_eq!(c, vec![5, 5, 5]);
}

#[test]
fn add_wraps_around() {
    let a = vec![i32::MAX, i32::MIN, 7];
    let b = vec![1, -1, -7];
    let mut c = vec![0i32; 3];
    let launch = Launch::linear(3, 2);
    elementwise::add(&launch, &a, &b, &mut c);
    assert_eq!(c, vec![i32::MIN, i32::MAX, 0]);
}

#[test]
fn add_on_wide_lanes() {
    let a = vec![1i64 << 40, -5, i64::MAX];
    let b = vec![1i64 << 40, 5, 1];
    let mut c = vec![0i64; 3];
    let launch = Launch::linear(3, 16);
    elementwise::add(&launch, &a, &b, &mut c);
    assert_eq!(c, vec![1i64 << 41, 0, i64::MIN]);
}

#[test]
fn add_thread_writes_its_own_element_only() {
    let launch = Launch { grid: Dim { x: 2, y: 1 }, block: Dim { x: 4, y: 1 } };
    let a = ramp(6, 1, 1);
    let b = ramp(6, 10, 10);
    let mut c = vec![0i32; 6];
    let id = ThreadId { launch, block_idx: Dim { x: 1, y: 0 }, thread_idx: Dim { x: 0, y: 0 } };
    elementwise::add_thread(&id, &a, &b, &mut c);
    assert_eq!(c, vec![0, 0, 0, 0, 55, 0]);
}

#[test]
fn add_thread_past_the_end_does_nothing() {
    let launch = Launch { grid: Dim { x: 2, y: 1 }, block: Dim { x: 4, y: 1 } };
    let a = ramp(6, 1, 1);
    let b = ramp(6, 10, 10);
    let mut c = vec![0i32; 8];
    let at_the_end = ThreadId { launch, block_idx: Dim { x: 1, y: 0 }, thread_idx: Dim { x: 2, y: 0 } };
    elementwise::add_thread(&at_the_end, &a, &b, &mut c);
    let past_it = ThreadId { launch, block_idx: Dim { x: 1, y: 0 }, thread_idx: Dim { x: 3, y: 0 } };
    elementwise::add_thread(&past_it, &a, &b, &mut c);
    assert_eq!(c, vec![0; 8]);
}

#[test]
fn add_threads_in_any_order_give_the_same_output() {
    let launch = Launch { grid: Dim { x: 2, y: 1 }, block: Dim { x: 2, y: 1 } };
    let a = ramp(4, 1, 1);
    let b = ramp(4, 10, 10);
    let mut forward = vec![0i32; 4];
    let mut backward = vec![0i32; 4];
    for g in 0..4usize {
        let id = ThreadId { launch, block_idx: Dim { x: g / 2, y: 0 }, thread_idx: Dim { x: g % 2, y: 0 } };
        elementwise::add_thread(&id, &a, &b, &mut forward);
        let h = 3 - g;
        let other = ThreadId { launch, block_idx: Dim { x: h / 2, y: 0 }, thread_idx: Dim { x: h % 2, y: 0 } };
        elementwise::add_thread(&other, &a, &b, &mut backward);
    }
    assert_eq!(forward, vec![11, 22, 33, 44]);
    assert_eq!(backward, forward);
}
