use jsbm::{reduce, Stats};

const MS: u32 = 1_000_000;

#[test]
fn five_samples_keep_the_top_reference() {
    // Upper reference position is ceil(15 / 4) = 4: the largest sample itself,
    // so the widened range keeps every sample.
    let r = reduce(&vec![10 * MS, 10 * MS, 10 * MS, 10 * MS, 100 * MS]).unwrap();
    assert_eq!(r, Stats { mean: 28000, std: 36000, outliers: 0 });
}

#[test]
fn eight_samples_trim_the_far_one() {
    let mut v = vec![10 * MS; 7];
    v.push(100 * MS);
    let r = reduce(&v).unwrap();
    assert_eq!(r, Stats { mean: 10000, std: 0, outliers: 13 });
}

#[test]
fn uniform_samples_have_no_spread() {
    let r = reduce(&vec![2_500_000; 1000]).unwrap();
    assert_eq!(r, Stats { mean: 2500, std: 0, outliers: 0 });
}

#[test]
fn order_of_samples_does_not_matter() {
    let a = reduce(&vec![100 * MS, 10 * MS, 10 * MS, 10 * MS, 10 * MS, 10 * MS, 10 * MS, 10 * MS]);
    let b = reduce(&vec![10 * MS, 10 * MS, 10 * MS, 10 * MS, 10 * MS, 10 * MS, 10 * MS, 100 * MS]);
    assert_eq!(a, b);
}

#[test]
fn too_few_samples_give_none() {
    assert_eq!(reduce(&vec![]), None);
    assert_eq!(reduce(&vec![5, 6, 7]), None);
    assert!(reduce(&vec![5, 6, 7, 8]).is_some());
}

#[test]
fn mean_rounds_half_up_to_microseconds() {
    // 1500 ns and 1499 ns: means of 1.5 and 1.499 microseconds.
    assert_eq!(reduce(&vec![1500; 4]).unwrap().mean, 2);
    assert_eq!(reduce(&vec![1499; 4]).unwrap().mean, 1);
}

#[test]
fn std_rounds_to_nearest_microsecond() {
    // 1000 and 4000 ns, twice each: mean 2.5 us, deviation 1.5 us -> 2.
    let r = reduce(&vec![1000, 4000, 1000, 4000]).unwrap();
    assert_eq!(r, Stats { mean: 3, std: 2, outliers: 0 });
    // 1000 and 3000 ns: deviation exactly 1 us.
    let r = reduce(&vec![1000, 3000, 1000, 3000]).unwrap();
    assert_eq!(r, Stats { mean: 2, std: 1, outliers: 0 });
}

#[test]
fn largest_samples_do_not_overflow() {
    let r = reduce(&vec![u32::MAX; 16]).unwrap();
    assert_eq!(r, Stats { mean: 4294967, std: 0, outliers: 0 });
    let mut v = vec![0u32; 8];
    v.extend(vec![u32::MAX; 8]);
    let r = reduce(&v).unwrap();
    assert_eq!(r.mean, 2147484);
    assert_eq!(r.std, 2147484);
}

#[test]
fn many_samples_beyond_sixteen_bits() {
    // 70000 samples: 52500 at 2 ms and 17500 at 3 ms, interleaved.
    let mut v = Vec::new();
    for i in 0..70000u32 {
        v.push(if i % 4 == 0 { 3_000_000 } else { 2_000_000 });
    }
    let r = reduce(&v).unwrap();
    // Mean 2.25 ms; deviation sqrt(0.75 * 0.25) * 1 ms = 433.01 us.
    assert_eq!(r, Stats { mean: 2250, std: 433, outliers: 0 });
}
