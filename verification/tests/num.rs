//! Numeric kernels, random streams and CSV rendering.

use std::collections::HashMap;

use cljrs::csv::{day_str, doubles_to_print, escape, render_csv, write_csv};
use cljrs::float_math::FloatOp;
use cljrs::javamap::Heap;
use cljrs::kernels::{
    constant, cumsum, da, doubles, dtake, expand_counts, expand_stride, gather2d, iota, la, lag,
    lclamp_min, longs, ltake, round, stack, stride, sum, to_doubles, to_longs, where_lt, where_pos,
    zip_with,
};
use cljrs::num_arrays::{array_op, call_array, ArrayOp};
use cljrs::num_calls::{call_rng, csv_request, decode_rng, RngCall};
use cljrs::rng::{mix64, NumRng};
use cljrs::value::{Name, Value};

fn arr(v: &[f64]) -> Value {
    da(v.iter().map(|x| x.to_bits()).collect())
}

fn got(v: &Value) -> Vec<f64> {
    doubles(v)
        .expect("double array")
        .into_iter()
        .map(f64::from_bits)
        .collect()
}

fn d(x: f64) -> Value {
    Value::Double(x.to_bits())
}

fn round_to(x: f64, places: i32) -> f64 {
    let p = 10f64.powi(places);
    (x * p).round() / p
}

fn math(op: FloatOp, a: u64, b: u64) -> u64 {
    let (x, y) = (f64::from_bits(a), f64::from_bits(b));
    let r = match op {
        FloatOp::Plus => x + y,
        FloatOp::Minus => x - y,
        FloatOp::Times => x * y,
        FloatOp::Over => x / y,
        FloatOp::Max => x.max(y),
        FloatOp::Min => x.min(y),
        FloatOp::Exp => x.exp(),
        FloatOp::Ln => x.ln(),
        FloatOp::Ln1p => x.ln_1p(),
        FloatOp::Sqrt => x.sqrt(),
        FloatOp::Abs => x.abs(),
        FloatOp::Neg => -x,
        FloatOp::Cos => x.cos(),
        FloatOp::RoundTo => round_to(x, b as i32),
    };
    r.to_bits()
}

#[test]
fn zip_broadcast_and_pair() {
    let a = arr(&[1.0, 2.0, 3.0]);
    let times = |x: u64, y: u64| (f64::from_bits(x) * f64::from_bits(y)).to_bits();
    let plus = |x: u64, y: u64| (f64::from_bits(x) + f64::from_bits(y)).to_bits();
    let out = zip_with(&a, &d(0.5), times).unwrap();
    assert_eq!(got(&out), vec![0.5, 1.0, 1.5]);
    let b = arr(&[10.0, 20.0, 30.0]);
    let out = zip_with(&a, &b, plus).unwrap();
    assert_eq!(got(&out), vec![11.0, 22.0, 33.0]);
}

#[test]
fn cumsum_lag_stride() {
    let a = arr(&[1.0, 2.0, 3.0, 4.0, 5.0]);
    let plus = |x: u64, y: u64| (f64::from_bits(x) + f64::from_bits(y)).to_bits();
    assert_eq!(
        got(&cumsum(&a, plus).unwrap()),
        vec![1.0, 3.0, 6.0, 10.0, 15.0]
    );
    assert_eq!(
        got(&lag(&a, 9.0f64.to_bits()).unwrap()),
        vec![9.0, 1.0, 2.0, 3.0, 4.0]
    );
    assert_eq!(got(&stride(&a, 2).unwrap()), vec![1.0, 3.0, 5.0]);
}

#[test]
fn gather_mask_select() {
    let ids = la(vec![10, 20, 30]);
    let idxs = la(vec![2, 0]);
    assert_eq!(longs(&ltake(&ids, &idxs).unwrap()).unwrap(), vec![30, 10]);
    let xs = arr(&[1.5, 2.5, 3.5]);
    assert_eq!(got(&dtake(&xs, &idxs).unwrap()), vec![3.5, 1.5]);

    let masked = arr(&[1.0, f64::NAN, -2.0, 3.0]);
    assert_eq!(longs(&where_pos(&masked).unwrap()).unwrap(), vec![0, 3]);

    let sel = where_lt(&arr(&[0.1, 0.9]), 0.5f64.to_bits(), &d(1.0), &d(-1.0)).unwrap();
    assert_eq!(got(&sel), vec![1.0, -1.0]);
}

#[test]
fn stack_and_gather2d() {
    let rows = Value::Vector(vec![arr(&[1.0, 2.0]), Value::Nil, arr(&[5.0, 6.0])]);
    let mat = stack(&rows, 2).unwrap();
    let out = gather2d(&mat, &la(vec![0, 2, 1]), &la(vec![1, 0, 1]), 2).unwrap();
    let v = got(&out);
    assert_eq!(v[0], 2.0);
    assert_eq!(v[1], 5.0);
    assert!(v[2].is_nan());
}

#[test]
fn counts_expansion() {
    let counts = la(vec![2, 0, 3]);
    assert_eq!(
        longs(&expand_counts(&counts).unwrap()).unwrap(),
        vec![0, 0, 2, 2, 2]
    );
    assert_eq!(
        longs(&lclamp_min(&la(vec![0, 5]), 1).unwrap()).unwrap(),
        vec![1, 5]
    );
    assert_eq!(longs(&iota(3, 100).unwrap()).unwrap(), vec![100, 101, 102]);
}

#[test]
fn round_half_away() {
    let a = arr(&[1.23456, -1.5, 2.675]);
    let out = round(&a, 2, |x, p| round_to(f64::from_bits(x), p).to_bits()).unwrap();
    let v = got(&out);
    assert_eq!(v[0], 1.23);
    assert_eq!(v[1], -1.5);
}

#[test]
fn conversions_and_shapes() {
    let xs = arr(&[1.9, -1.9, f64::NAN, 1e300]);
    assert_eq!(
        longs(&to_longs(&xs).unwrap()).unwrap(),
        vec![1, -1, 0, i64::MAX]
    );
    assert_eq!(got(&to_doubles(&la(vec![3, -4])).unwrap()), vec![3.0, -4.0]);
    assert_eq!(got(&constant(2, 1.5f64.to_bits()).unwrap()), vec![1.5, 1.5]);
    let spread = expand_stride(&arr(&[1.0, 2.0]), 2, 3).unwrap();
    assert_eq!(got(&spread).len(), 3);
    assert_eq!(got(&stride(&spread, 2).unwrap()), vec![1.0, 2.0]);
}

#[test]
fn kernels_explain_what_they_refuse() {
    assert_eq!(doubles(&Value::Nil).unwrap_err(), "expected double-array, got nil");
    assert_eq!(longs(&d(1.0)).unwrap_err(), "expected long-array, got double");
    assert!(stride(&arr(&[1.0]), 0).is_err());
    assert!(constant(-1, 0).is_err());
    assert!(dtake(&arr(&[1.0]), &la(vec![1])).is_err());
    let plus = |x: u64, _y: u64| x;
    assert_eq!(
        zip_with(&arr(&[1.0]), &arr(&[1.0, 2.0]), plus).unwrap_err(),
        "length mismatch: 1 vs 2"
    );
}

#[test]
fn matches_clojure_reference_doubles() {
    let mut r = NumRng::new(20260425, "test");
    assert_eq!(f64::from_bits(r.next_double()), 0.16349529359881254);
    assert_eq!(f64::from_bits(r.next_double()), 0.8012672768185554);
}

#[test]
fn integers_in_range() {
    let mut r = NumRng::new(1, "x");
    for _ in 0..1000 {
        let v = r.integers(1, 13);
        assert!((1..13).contains(&v));
    }
}

#[test]
fn normal_moments_plausible() {
    let mut r = NumRng::new(7, "norm");
    let xs: Vec<f64> = r
        .fill_normal(100_000, 0.0f64.to_bits(), 1.0f64.to_bits(), &math)
        .into_iter()
        .map(f64::from_bits)
        .collect();
    let mean = xs.iter().sum::<f64>() / xs.len() as f64;
    let var = xs.iter().map(|x| (x - mean) * (x - mean)).sum::<f64>() / xs.len() as f64;
    assert!(mean.abs() < 0.02, "mean {mean}");
    assert!((var - 1.0).abs() < 0.03, "var {var}");
}

#[test]
fn poisson_mean_plausible() {
    let mut r = NumRng::new(7, "pois");
    let n = 20_000;
    let total: i64 = (0..n)
        .map(|_| r.poisson(6.0f64.to_bits(), &math).expect("a number"))
        .sum();
    let mean = total as f64 / n as f64;
    assert!((mean - 6.0).abs() < 0.1, "mean {mean}");
}

#[test]
fn bulk_fills_draw_what_scalars_draw() {
    let mut a = NumRng::new(5, "same");
    let mut b = NumRng::new(5, "same");
    let bulk = a.fill_poisson(20, 2.5f64.to_bits(), &math).expect("numbers");
    let one_by_one: Vec<i64> = (0..20)
        .map(|_| b.poisson(2.5f64.to_bits(), &math).expect("a number"))
        .collect();
    assert_eq!(bulk, one_by_one);
    assert_eq!(a.next_u64(), b.next_u64());
    let mut c = NumRng::new(5, "same");
    let mut d = NumRng::new(5, "same");
    let (zero, one) = (0.0f64.to_bits(), 1.0f64.to_bits());
    let bulk = c.fill_uniform(5, zero, one, &math);
    let one_by_one: Vec<u64> = (0..5).map(|_| d.uniform(zero, one, &math)).collect();
    assert_eq!(bulk, one_by_one);
}

#[test]
fn sums_add_from_the_left() {
    let total = call_array(ArrayOp::Sum, &[arr(&[1.0, 2.0, 3.5])], &math).expect("sum");
    assert_eq!(total, d(6.5));
    let plus = |x: u64, y: u64| (f64::from_bits(x) + f64::from_bits(y)).to_bits();
    assert_eq!(sum(&arr(&[]), plus).expect("sum"), (-0.0f64).to_bits());
    assert_eq!(
        sum(&Value::Nil, plus).unwrap_err(),
        "expected double-array, got nil"
    );
}

#[test]
fn samples_are_distinct() {
    let mut r = NumRng::new(3, "s");
    let mut picked = r.sample_idx(5, 8);
    assert_eq!(picked.len(), 5);
    picked.sort_unstable();
    picked.dedup();
    assert_eq!(picked.len(), 5);
    assert!(picked.iter().all(|i| (0..8).contains(i)));
    assert_eq!(mix64(0), 0);
}

#[test]
fn random_calls_by_name() {
    let mut heap = Heap::new();
    let args = [Value::Long(20260425), Value::Str("test".to_string())];
    let rng = call_rng("rng", &args, &mut heap, &math).expect("rng");
    let x = call_rng("next-double!", &[rng.clone()], &mut heap, &math).expect("draw");
    assert_eq!(x, d(0.16349529359881254));
    let args = [rng.clone(), Value::Long(5), Value::Long(5)];
    assert_eq!(
        call_rng("integers!", &args, &mut heap, &math).unwrap_err(),
        "empty range [5, 5)"
    );
    let args = [rng.clone(), Value::Long(-1), Value::Long(3)];
    assert_eq!(
        call_rng("sample-idx!", &args, &mut heap, &math).unwrap_err(),
        "argument 1: expected non-negative size, got -1"
    );
    assert_eq!(
        call_rng("next-long!", &[Value::Nil], &mut heap, &math).unwrap_err(),
        "expected NumRng handle, got nil"
    );
    let args = [rng, Value::Long(4), d(0.0), d(1.0)];
    let filled = call_rng("fill-uniform!", &args, &mut heap, &math).expect("fill");
    assert!(got(&filled).iter().all(|x| (0.0..1.0).contains(x)));
}

#[test]
fn array_calls_by_name() {
    assert_eq!(array_op("clamp-min"), Some(ArrayOp::Zip(FloatOp::Max)));
    assert_eq!(array_op("nothing"), None);
    assert_eq!(ArrayOp::Gather2d.arity(), 4);
    let op = array_op("sub").expect("sub");
    let out = call_array(op, &[arr(&[3.0, 5.0]), Value::Long(2)], &math).expect("sub");
    assert_eq!(got(&out), vec![1.0, 3.0]);
    let out = call_array(ArrayOp::Round, &[arr(&[1.25]), Value::Long(1)], &math).expect("round");
    assert_eq!(got(&out), vec![1.3]);
    let out = call_array(ArrayOp::Cumsum, &[arr(&[1.0, 2.0])], &math).expect("cumsum");
    assert_eq!(got(&out), vec![1.0, 3.0]);
    assert_eq!(
        call_array(ArrayOp::Stride, &[arr(&[1.0]), d(2.0)], &math).unwrap_err(),
        "argument 1: expected integer, got double"
    );
}

#[test]
fn day_formatting() {
    assert_eq!(day_str(18262), "2020-01-01");
    assert_eq!(day_str(0), "1970-01-01");
    assert_eq!(day_str(20088), "2024-12-31");
}

#[test]
fn escaping() {
    assert_eq!(escape("plain"), "plain");
    assert_eq!(escape("a,b"), "\"a,b\"");
    assert_eq!(escape("say \"hi\""), "\"say \"\"hi\"\"\"");
}

fn column(tag: &str, payload: Value) -> Value {
    Value::Vector(vec![Value::Keyword(Name::simple(tag)), payload])
}

#[test]
fn columns_become_rows() {
    let header = vec!["id".to_string(), "day".to_string()];
    let columns = vec![
        column("l", la(vec![1, 2])),
        column("date", la(vec![0, 18262])),
    ];
    let doc = render_csv(&header, &columns, &HashMap::new(), true).expect("csv");
    assert_eq!(doc.text, "id,day\n1,1970-01-01\n2,2020-01-01\n");
    assert_eq!(doc.rows, 2);
    let body = render_csv(&header, &columns, &HashMap::new(), false).expect("csv");
    assert_eq!(body.text, "1,1970-01-01\n2,2020-01-01\n");
}

#[test]
fn doubles_print_by_their_texts() {
    let half = 0.5f64.to_bits();
    let third = 1.5f64.to_bits();
    let nan = f64::NAN.to_bits();
    let header = vec!["d".to_string(), "s".to_string(), "c".to_string()];
    let columns = vec![
        column("d", Value::DoubleArray(vec![half, nan])),
        column("s", Value::Vector(vec![Value::Double(half), Value::Nil])),
        column("const", Value::Double(third)),
    ];
    let needed = doubles_to_print(&columns);
    assert!(needed.contains(&half) && needed.contains(&third) && !needed.contains(&nan));
    let texts: HashMap<u64, String> =
        needed.iter().map(|x| (*x, f64::from_bits(*x).to_string())).collect();
    let doc = render_csv(&header, &columns, &texts, true).expect("csv");
    assert_eq!(doc.text, "d,s,c\n0.5,0.5,1.5\n,,1.5\n");
    assert!(doubles_to_print(&vec![column("l", la(vec![1])), Value::Nil]).is_empty());
}

#[test]
fn two_appending_writes_hold_one_header() {
    let header = vec!["id".to_string()];
    let first = vec![column("l", la(vec![1, 2]))];
    let second = vec![column("l", la(vec![3]))];
    let texts = HashMap::new();
    let a = write_csv(&header, &first, &texts, true, false).expect("first");
    assert!(!a.goes_on);
    assert_eq!((a.text.as_str(), a.rows), ("id\n1\n2\n", 2));
    let b = write_csv(&header, &second, &texts, true, true).expect("second");
    assert!(b.goes_on);
    assert_eq!((b.text.as_str(), b.rows), ("3\n", 1));
    let c = write_csv(&header, &second, &texts, false, true).expect("replaced");
    assert!(!c.goes_on);
    assert_eq!(c.text, "id\n3\n");
    let bad = write_csv(&vec![], &second, &texts, true, true);
    assert_eq!(bad.unwrap_err(), "0 header names but 1 columns");
}

#[test]
fn a_range_may_be_wider_than_a_long() {
    let mut r = NumRng::new(1, "wide");
    for _ in 0..100 {
        let x = r.integers(i64::MIN, i64::MAX);
        assert!(x < i64::MAX);
    }
    let mut r = NumRng::new(1, "wide");
    let mut again = NumRng::new(1, "wide");
    let half = (again.next_u64() >> 1) as i128;
    let span = i64::MAX as i128 - i64::MIN as i128;
    assert_eq!(r.integers(i64::MIN, i64::MAX) as i128, i64::MIN as i128 + half % span);
}

#[test]
fn csv_arguments_are_taken_apart() {
    let header = Value::Vector(vec![Value::Str("a".to_string())]);
    let columns = Value::Vector(vec![column("l", la(vec![1]))]);
    let path = Value::Str("out.csv".to_string());
    let q = csv_request(&[path.clone(), header.clone(), columns.clone(), Value::Bool(true)])
        .expect("request");
    assert_eq!(q.path, "out.csv");
    assert_eq!(q.header, vec!["a".to_string()]);
    assert_eq!(q.columns.len(), 1);
    assert!(q.append);
    assert!(!csv_request(&[path.clone(), header, columns.clone()]).expect("request").append);
    let bad = Value::Vector(vec![Value::Long(1)]);
    assert_eq!(
        csv_request(&[path.clone(), bad, columns]).unwrap_err(),
        "header names must be strings, got long"
    );
    assert_eq!(
        csv_request(&[path, Value::Vector(vec![]), Value::Nil]).unwrap_err(),
        "columns must be a vector, got nil"
    );
}

#[test]
fn a_call_for_groups_is_taken_apart() {
    let args = [Value::NativeObject(0), la(vec![2, 3]), Value::Long(10)];
    let Ok(RngCall::Groups { counts, m }) = decode_rng("sample-groups!", &args) else {
        panic!("groups");
    };
    assert_eq!((counts, m), (vec![2, 3], 10));
    let args = [Value::NativeObject(0), Value::Nil, Value::Long(-1)];
    assert_eq!(
        decode_rng("sample-groups!", &args).unwrap_err(),
        "expected long-array, got nil"
    );
    let args = [Value::NativeObject(0), la(vec![]), Value::Long(-1)];
    assert_eq!(
        decode_rng("sample-groups!", &args).unwrap_err(),
        "argument 2: expected non-negative size, got -1"
    );
}
