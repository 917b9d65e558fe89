use graph_distances::statistics::maximum;
use graph_distances::statistics::mean;
use graph_distances::statistics::median;
use graph_distances::statistics::sum_of;
use graph_distances::statistics::variance;
use graph_distances::statistics::Fraction;
use graph_distances::statistics::StatisticsError;

#[test]
fn test_median() {
    let mut data = vec![5, 2, 3, 1, 4];
    let m = median(&mut data).unwrap();
    assert_eq!(m.numerator as f64 / m.denominator as f64, 3.0);

    let mut data = vec![5, 2, 3, 1, 4, 6];
    let m = median(&mut data).unwrap();
    assert_eq!(m.numerator as f64 / m.denominator as f64, 3.5);
}

#[test]
fn test_variance() {
    let data = vec![2, 4, 4, 4, 5, 5, 7, 9];
    let v = variance(&data, &Fraction { numerator: 5, denominator: 1 }).unwrap();
    assert_eq!(v.numerator as f64 / v.denominator as f64, 4.0);

    let data = vec![600, 470, 170, 430, 300];
    let v = variance(&data, &Fraction { numerator: 394, denominator: 1 }).unwrap();
    assert_eq!(v.numerator as f64 / v.denominator as f64, 21704.0);
}

#[test]
fn median_is_an_exact_fraction() {
    let mut odd = vec![5, 2, 3, 1, 4];
    assert_eq!(median(&mut odd), Some(Fraction { numerator: 3, denominator: 1 }));
    let mut even = vec![5, 2, 3, 1, 4, 6];
    assert_eq!(median(&mut even), Some(Fraction { numerator: 7, denominator: 2 }));
    let mut one = vec![42];
    assert_eq!(median(&mut one), Some(Fraction { numerator: 42, denominator: 1 }));
    let mut two = vec![u32::MAX, u32::MAX];
    assert_eq!(median(&mut two), Some(Fraction { numerator: 8_589_934_590, denominator: 2 }));
}

#[test]
fn median_of_nothing_is_undefined() {
    let mut data: Vec<u32> = vec![];
    assert_eq!(median(&mut data), None);
    assert!(data.is_empty());
}

#[test]
fn median_leaves_the_data_sorted() {
    let mut data = vec![5, 2, 3, 1, 4, 2];
    median(&mut data);
    assert_eq!(data, vec![1, 2, 2, 3, 4, 5]);
}

#[test]
fn variance_is_an_exact_fraction() {
    let data = vec![2, 4, 4, 4, 5, 5, 7, 9];
    assert_eq!(
        variance(&data, &Fraction { numerator: 5, denominator: 1 }),
        Ok(Fraction { numerator: 32, denominator: 8 })
    );
    let data = vec![600, 470, 170, 430, 300];
    assert_eq!(
        variance(&data, &Fraction { numerator: 394, denominator: 1 }),
        Ok(Fraction { numerator: 108_520, denominator: 5 })
    );
}

#[test]
fn variance_about_a_mean_that_is_no_integer() {
    // The mean of 1, 2, 4 is 7/3; the deviations times 3 are -4, -1, 5.
    let data = vec![1, 2, 4];
    let m = mean(&data).unwrap();
    assert_eq!(m, Fraction { numerator: 7, denominator: 3 });
    assert_eq!(variance(&data, &m), Ok(Fraction { numerator: 42, denominator: 27 }));
}

#[test]
fn variance_divides_by_the_full_count() {
    let data = vec![1, 3];
    assert_eq!(
        variance(&data, &Fraction { numerator: 2, denominator: 1 }),
        Ok(Fraction { numerator: 2, denominator: 2 })
    );
}

#[test]
fn variance_of_nothing_is_refused() {
    let data: Vec<u32> = vec![];
    assert_eq!(
        variance(&data, &Fraction { numerator: 0, denominator: 1 }),
        Err(StatisticsError::Empty)
    );
}

#[test]
fn variance_beyond_the_integers_is_refused() {
    let data = vec![0];
    // The square of the numerator is beyond u128.
    assert_eq!(
        variance(&data, &Fraction { numerator: 1 << 64, denominator: 1 }),
        Err(StatisticsError::Overflow)
    );
    // The square of the denominator is beyond u128.
    assert_eq!(
        variance(&data, &Fraction { numerator: 0, denominator: 1 << 64 }),
        Err(StatisticsError::Overflow)
    );
    // Each square is within u128, their sum is not.
    let data = vec![0, 0];
    assert_eq!(
        variance(&data, &Fraction { numerator: u64::MAX as u128, denominator: 1 }),
        Err(StatisticsError::Overflow)
    );
    let data = vec![0];
    assert_eq!(
        variance(&data, &Fraction { numerator: u64::MAX as u128, denominator: 1 }),
        Ok(Fraction { numerator: (u64::MAX as u128) * (u64::MAX as u128), denominator: 1 })
    );
    // The divisor is beyond u128, though the square of the denominator is not.
    let data = vec![0, 0];
    assert_eq!(
        variance(&data, &Fraction { numerator: 0, denominator: u64::MAX as u128 }),
        Err(StatisticsError::Overflow)
    );
}

#[test]
fn mean_is_sum_by_count() {
    assert_eq!(
        mean(&vec![2, 4, 4, 4, 5, 5, 7, 9]),
        Some(Fraction { numerator: 40, denominator: 8 })
    );
    assert_eq!(mean(&vec![7]), Some(Fraction { numerator: 7, denominator: 1 }));
    assert_eq!(
        mean(&vec![u32::MAX, u32::MAX, 1]),
        Some(Fraction { numerator: 8_589_934_591, denominator: 3 })
    );
}

#[test]
fn mean_of_nothing_is_undefined() {
    assert_eq!(mean(&vec![]), None);
}

#[test]
fn sum_of_values() {
    assert_eq!(sum_of(&vec![]), 0);
    assert_eq!(sum_of(&vec![600, 470, 170, 430, 300]), 1970);
}

#[test]
fn maximum_of_values() {
    assert_eq!(maximum(&vec![3, 9, 2, 9, 1]), 9);
    assert_eq!(maximum(&vec![0, 0]), 0);
    assert_eq!(maximum(&vec![u32::MAX, 1]), u32::MAX);
}

#[test]
fn maximum_of_nothing_is_zero() {
    assert_eq!(maximum(&vec![]), 0);
}
