use rustcuda::elementwise;
use rustcuda::gemm::gemm;
use rustcuda::geometry::Launch;
use rustcuda::reduction::axpy;
use rustcuda::scalar::Scalar;

/// Single-precision lanes. The trait's ghost items take bodies here, where
/// nothing erases them; they repeat what the executable items compute.
#[derive(Clone, Copy, Debug, PartialEq)]
struct Single(f32);

impl Scalar for Single {
    fn zero_value() -> Single {
        Single(0.0)
    }

    fn sum(self, rhs: Single) -> Single {
        Single(self.0 + rhs.0)
    }

    fn product(self, rhs: Single) -> Single {
        Single(self.0 * rhs.0)
    }

    fn lemma_padding_is_neutral(_x: Single) {
    }

    fn zero() -> Single {
        Single(0.0)
    }

    fn plus(self, rhs: Single) -> Single {
        Single(self.0 + rhs.0)
    }

    fn times(self, rhs: Single) -> Single {
        Single(self.0 * rhs.0)
    }
}

/// Double-precision lanes.
#[derive(Clone, Copy, Debug, PartialEq)]
struct Double(f64);

impl Scalar for Double {
    fn zero_value() -> Double {
        Double(0.0)
    }

    fn sum(self, rhs: Double) -> Double {
        Double(self.0 + rhs.0)
    }

    fn product(self, rhs: Double) -> Double {
        Double(self.0 * rhs.0)
    }

    fn lemma_padding_is_neutral(_x: Double) {
    }

    fn zero() -> Double {
        Double(0.0)
    }

    fn plus(self, rhs: Double) -> Double {
        Double(self.0 + rhs.0)
    }

    fn times(self, rhs: Double) -> Double {
        Double(self.0 * rhs.0)
    }
}

#[test]
fn narrow_lanes_wrap() {
    assert_eq!(<i32 as Scalar>::zero(), 0);
    assert_eq!(2i32.plus(3), 5);
    assert_eq!(i32::MAX.plus(1), i32::MIN);
    assert_eq!(i32::MIN.plus(-1), i32::MAX);
    assert_eq!(6i32.times(-7), -42);
    assert_eq!(65536i32.times(65536), 0);
    assert_eq!(i32::MIN.times(-1), i32::MIN);
}

#[test]
fn wide_lanes_wrap() {
    assert_eq!(<i64 as Scalar>::zero(), 0);
    assert_eq!(2i64.plus(3), 5);
    assert_eq!(i64::MAX.plus(1), i64::MIN);
    assert_eq!(6i64.times(-7), -42);
    assert_eq!((1i64 << 32).times(1i64 << 32), 0);
    assert_eq!((1i64 << 31).times(1i64 << 31), 1i64 << 62);
}

#[test]
fn padding_adds_nothing_on_integer_lanes() {
    for x in [i32::MIN, -1, 0, 1, 12345, i32::MAX] {
        let zero = <i32 as Scalar>::zero();
        assert_eq!(x.plus(zero.times(zero)), x);
    }
    for x in [i64::MIN, -1, 0, 1, 12345, i64::MAX] {
        let zero = <i64 as Scalar>::zero();
        assert_eq!(x.plus(zero.times(zero)), x);
    }
}

#[test]
fn add_on_single_precision() {
    let a = vec![Single(1.5), Single(-2.25), Single(0.0)];
    let b = vec![Single(0.5), Single(2.25), Single(1.0e-3)];
    let mut c = vec![Single(9.0); 4];
    let launch = Launch::linear(3, 2);
    elementwise::add(&launch, &a, &b, &mut c);
    assert_eq!(c, vec![Single(2.0), Single(0.0), Single(1.0e-3), Single(9.0)]);
}

#[test]
fn matrix_vector_product_on_single_precision_is_within_tolerance() {
    let n: usize = 6;
    let mut a: Vec<Single> = Vec::new();
    let mut plain: Vec<f32> = Vec::new();
    for i in 0..n * n {
        let value = 0.1f32 * (i as f32) - 1.7;
        a.push(Single(value));
        plain.push(value);
    }
    let mut x: Vec<Single> = Vec::new();
    let mut plain_x: Vec<f32> = Vec::new();
    for i in 0..n {
        let value = 1.0f32 / ((i + 1) as f32);
        x.push(Single(value));
        plain_x.push(value);
    }
    let mut res = vec![Single(0.0); n];
    let launch = Launch::linear(n, 4);
    axpy(&launch, &a, &x, Single(2.0), &mut res, n);
    for row in 0..n {
        let mut exact: f64 = 0.0;
        for i in 0..n {
            exact += (plain[row * n + i] as f64) * (plain_x[i] as f64);
        }
        assert!(((res[row].0 as f64) - exact).abs() <= 1.0e-5);
    }
}

#[test]
fn matrix_vector_product_on_double_precision_is_within_tolerance() {
    let n: usize = 6;
    let mut a: Vec<Double> = Vec::new();
    let mut x: Vec<Double> = Vec::new();
    for i in 0..n * n {
        a.push(Double(0.1 * (i as f64) - 1.7));
    }
    for i in 0..n {
        x.push(Double(1.0 / ((i + 1) as f64)));
    }
    let mut res = vec![Double(0.0); n];
    let launch = Launch::linear(n, 4);
    axpy(&launch, &a, &x, Double(2.0), &mut res, n);
    for row in 0..n {
        let mut backwards: f64 = 0.0;
        for i in (0..n).rev() {
            backwards += a[row * n + i].0 * x[i].0;
        }
        assert!((res[row].0 - backwards).abs() <= 1.0e-12);
    }
    assert_eq!(res[0].0, {
        let mut forwards: f64 = 0.0;
        for i in 0..n {
            forwards += a[i].0 * x[i].0;
        }
        forwards
    });
}

#[test]
fn matrix_product_on_double_precision_sums_in_the_order_of_the_plain_product() {
    let n: usize = 5;
    let mut a: Vec<Double> = Vec::new();
    let mut b: Vec<Double> = Vec::new();
    for i in 0..n * n {
        a.push(Double(0.3 * (i as f64) - 2.0));
        b.push(Double(1.0 / ((i + 3) as f64)));
    }
    for tile in 1..8usize {
        let mut c = vec![Double(-1.0); n * n];
        let launch = Launch::square(n, tile);
        gemm(&launch, &a, &b, &mut c, n);
        for row in 0..n {
            for col in 0..n {
                let mut sum: f64 = 0.0;
                for k in 0..n {
                    sum += a[row * n + k].0 * b[k * n + col].0;
                }
                assert_eq!(c[row * n + col].0, sum);
            }
        }
    }
}

#[test]
fn identity_product_on_double_precision_is_exact() {
    let n: usize = 4;
    let mut a = vec![Double(0.0); n * n];
    for i in 0..n {
        a[i * n + i] = Double(1.0);
    }
    let mut b: Vec<Double> = Vec::new();
    for i in 0..n * n {
        b.push(Double(i as f64));
    }
    let mut c = vec![Double(-1.0); n * n];
    let launch = Launch::square(n, 2);
    gemm(&launch, &a, &b, &mut c, n);
    assert_eq!(c, b);
}
