use runex::float::Float;
use runex::integer::Integer;
use std::cmp::Ordering;

fn dec(s: &str) -> Float {
    Float::from_string(s.to_string()).unwrap()
}

fn parts(x: &Float) -> (bool, Vec<u8>, bool, Vec<u8>) {
    (x.value.sign, x.value.digits.clone(), x.scale.sign, x.scale.digits.clone())
}

fn whole(s: &str) -> Integer {
    Integer::from_string(s.to_string()).unwrap()
}

#[test]
fn point_one_plus_point_two_is_exactly_point_three() {
    let sum = Float::add(dec("0.1"), dec("0.2"));
    assert_eq!(parts(&sum), parts(&dec("0.3")));
    assert_eq!(sum.to_string(), "0.3");
}

#[test]
fn addition_aligns_to_the_larger_scale() {
    let sum = Float::add(dec("1.5"), dec("0.25"));
    assert_eq!(sum.value.digits, vec![5, 7, 1]);
    assert_eq!(sum.scale.digits, vec![2]);
    assert_eq!(sum.to_string(), "1.75");
    let sum = Float::add(dec("-2"), dec("0.001"));
    assert_eq!(sum.to_string(), "-1.999");
    let sum = Float::add(dec("0.5"), dec("0.5"));
    assert_eq!(sum.to_string(), "1.0");
}

#[test]
fn addition_with_negative_scale() {
    let hundreds = Float::new(whole("-2"), whole("3"));
    assert_eq!(hundreds.clone().to_string(), "300");
    let sum = Float::add(hundreds, dec("0.5"));
    assert_eq!(sum.to_string(), "300.5");
}

#[test]
fn subtraction_and_multiplication() {
    assert_eq!(Float::sub(dec("1"), dec("0.01")).to_string(), "0.99");
    assert_eq!(Float::sub(dec("0.3"), dec("0.3")).to_string(), "0.0");
    let product = Float::mul(dec("0.3"), dec("2"));
    assert_eq!(product.to_string(), "0.6");
    let product = Float::mul(dec("-1.5"), dec("0.25"));
    assert_eq!(product.value.digits, vec![5, 7, 3]);
    assert_eq!(product.to_string(), "-0.375");
}

#[test]
fn comparison_by_value_across_scales() {
    assert_eq!(Float::cmp(dec("1.0"), dec("1")), Ordering::Equal);
    assert_eq!(Float::cmp(dec("0"), dec("0.5")), Ordering::Less);
    assert_eq!(Float::cmp(dec("-0.5"), dec("-0.25")), Ordering::Less);
    assert_eq!(Float::cmp(dec("10"), dec("9.99")), Ordering::Greater);
}

#[test]
fn text_round_trip() {
    for s in ["0", "0.3", "-0.3", "12.50", "-0.005", "1234567.891", "7"] {
        assert_eq!(dec(s).to_string(), s);
        let again = dec(&dec(s).to_string());
        assert_eq!(parts(&again), parts(&dec(s)));
    }
}

#[test]
fn parse_accepts_point_at_either_end() {
    let x = dec(".5");
    assert_eq!(x.value.digits, vec![5]);
    assert_eq!(x.scale.digits, vec![1]);
    let y = dec("5.");
    assert_eq!(y.value.digits, vec![5]);
    assert_eq!(y.scale.digits, vec![0]);
}

#[test]
fn decimal_parse_rejects_malformed_literals() {
    for s in ["", "-", ".", "-.", "1.2.3", "1-2", "a.5", "--1", "1..2", "+1"] {
        assert!(Float::from_string(s.to_string()).is_err(), "{}", s);
    }
}

#[test]
fn tidy_strips_trailing_zero_digits() {
    let mut x = dec("12.500");
    x.tidy();
    assert_eq!(x.value.digits, vec![5, 2, 1]);
    assert_eq!(x.scale.digits, vec![1]);
    let mut z = dec("0.000");
    z.tidy();
    assert_eq!(z.value.digits, vec![0]);
    let mut h = dec("1200");
    h.tidy();
    assert_eq!(h.value.digits, vec![2, 1]);
    assert!(h.scale.sign);
    assert_eq!(h.scale.digits, vec![2]);
    assert_eq!(h.to_string(), "1200");
}

#[test]
fn shifts_move_the_scale() {
    let mut x = dec("1.25");
    x.high_shift(3);
    assert_eq!(x.clone().to_string(), "1250");
    x.low_shift(5);
    assert_eq!(x.to_string(), "0.0125");
}

#[test]
fn integer_promotion_and_opposite() {
    let x = Float::from_integer(whole("-42"));
    assert_eq!(x.clone().to_string(), "-42");
    assert_eq!(Float::opposite(x).to_string(), "42");
    assert!(Float::zero().is_zero());
    assert!(!dec("0.01").is_zero());
}
