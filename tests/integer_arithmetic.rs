use runex::integer::Integer;
use std::cmp::Ordering;

fn parse_int(s: &str) -> Integer {
    Integer::from_string(s.to_string()).unwrap()
}

fn text(n: Integer) -> String {
    n.to_string()
}

/// Plain long multiplication of decimal strings, used as an oracle.
fn schoolbook(a: &str, b: &str) -> String {
    let neg = a.starts_with('-') != b.starts_with('-');
    let x: Vec<u32> = a.trim_start_matches('-').bytes().rev().map(|c| (c - b'0') as u32).collect();
    let y: Vec<u32> = b.trim_start_matches('-').bytes().rev().map(|c| (c - b'0') as u32).collect();
    let mut r = vec![0u32; x.len() + y.len()];
    for (i, dx) in x.iter().enumerate() {
        for (j, dy) in y.iter().enumerate() {
            r[i + j] += dx * dy;
        }
    }
    for k in 0..r.len() - 1 {
        let carry = r[k] / 10;
        r[k] %= 10;
        r[k + 1] += carry;
    }
    while r.len() > 1 && *r.last().unwrap() == 0 {
        r.pop();
    }
    let digits: String = r.iter().rev().map(|d| char::from(b'0' + *d as u8)).collect();
    if neg && digits != "0" {
        format!("-{}", digits)
    } else {
        digits
    }
}

fn digits_of_length(n: usize, seed: u32) -> String {
    let mut s = String::new();
    let mut v = seed;
    for i in 0..n {
        v = v.wrapping_mul(1103515245).wrapping_add(12345);
        let d = (v >> 16) % 10;
        let d = if i == 0 && d == 0 { 7 } else { d };
        s.push(char::from(b'0' + d as u8));
    }
    s
}

#[test]
fn parse_and_print_round_trip() {
    for s in ["0", "7", "-7", "1234567890123456789012345", "-1000"] {
        assert_eq!(text(parse_int(s)), s);
    }
}

#[test]
fn parse_canonicalizes_leading_zeros_and_negative_zero() {
    let n = parse_int("-000");
    assert!(!n.sign);
    assert_eq!(n.digits, vec![0]);
    assert_eq!(text(parse_int("00420")), "420");
}

#[test]
fn parse_rejects_malformed_literals() {
    for s in ["", "-", "12a", "--1", "1-2", "+5", "1.5", " 1"] {
        assert!(Integer::from_string(s.to_string()).is_err(), "{}", s);
    }
}

#[test]
fn digits_are_least_significant_first() {
    let n = parse_int("-120");
    assert!(n.sign);
    assert_eq!(n.digits, vec![0, 2, 1]);
}

#[test]
fn native_integer_round_trip() {
    for v in [0isize, 1, -1, 9, 10, -10, 99, 100, 123456789, -987654321, isize::MAX, isize::MIN] {
        let n = Integer::from_isize(v);
        assert_eq!(n.clone().to_isize(), v);
        assert_eq!(text(n), v.to_string());
    }
}

#[test]
fn addition_and_subtraction() {
    assert_eq!(text(Integer::add(parse_int("999"), parse_int("1"))), "1000");
    assert_eq!(text(Integer::add(parse_int("-5"), parse_int("3"))), "-2");
    assert_eq!(text(Integer::add(parse_int("5"), parse_int("-8"))), "-3");
    assert_eq!(text(Integer::add(parse_int("12"), parse_int("-12"))), "0");
    assert_eq!(text(Integer::sub(parse_int("1000"), parse_int("1"))), "999");
    assert_eq!(text(Integer::sub(parse_int("-1000"), parse_int("-1"))), "-999");
}

#[test]
fn addition_is_commutative_and_associative() {
    let (a, b, c) = ("98765432109876", "-123456789", "55555");
    let ab = text(Integer::add(parse_int(a), parse_int(b)));
    let ba = text(Integer::add(parse_int(b), parse_int(a)));
    assert_eq!(ab, ba);
    let left = text(Integer::add(Integer::add(parse_int(a), parse_int(b)), parse_int(c)));
    let right = text(Integer::add(parse_int(a), Integer::add(parse_int(b), parse_int(c))));
    assert_eq!(left, right);
    let zero = Integer::add(parse_int(a), Integer::opposite(parse_int(a)));
    assert!(!zero.sign);
    assert_eq!(zero.digits, vec![0]);
}

#[test]
fn order_agrees_with_subtraction() {
    let pairs = [("5", "3"), ("-5", "3"), ("-5", "-3"), ("7", "7"), ("100", "99"), ("-100", "-99")];
    for (a, b) in pairs {
        let order = Integer::cmp(parse_int(a), parse_int(b));
        let diff = Integer::sub(parse_int(a), parse_int(b));
        let against_zero = Integer::cmp(diff, Integer::zero());
        assert_eq!(order, against_zero);
    }
    assert_eq!(Integer::cmp(parse_int("-1"), parse_int("0")), Ordering::Less);
    assert_eq!(Integer::cmp(parse_int("10"), parse_int("9")), Ordering::Greater);
    assert_eq!(Integer::cmp(parse_int("-0"), parse_int("0")), Ordering::Equal);
}

#[test]
fn multiplication_small_values() {
    assert_eq!(text(Integer::mul(parse_int("12"), parse_int("34"))), "408");
    assert_eq!(text(Integer::mul(parse_int("99"), parse_int("99"))), "9801");
    assert_eq!(text(Integer::mul(parse_int("-7"), parse_int("6"))), "-42");
    assert_eq!(text(Integer::mul(parse_int("-7"), parse_int("-6"))), "42");
    assert_eq!(text(Integer::mul(parse_int("0"), parse_int("-6"))), "0");
    assert_eq!(text(Integer::mul(parse_int("123"), parse_int("4"))), "492");
}

#[test]
fn multiplication_matches_schoolbook_across_sizes() {
    let sizes = [1usize, 2, 3, 5, 9, 17, 33];
    for (i, &n) in sizes.iter().enumerate() {
        for (j, &m) in sizes.iter().enumerate() {
            let a = digits_of_length(n, i as u32 + 1);
            let b = format!("-{}", digits_of_length(m, 100 + j as u32));
            let expected = schoolbook(&a, &b);
            assert_eq!(text(Integer::mul(parse_int(&a), parse_int(&b))), expected, "{} * {}", a, b);
            assert_eq!(text(Integer::mul(parse_int(&b), parse_int(&a))), expected, "{} * {}", b, a);
        }
    }
}

#[test]
fn shifts_move_digits() {
    let mut n = parse_int("25");
    n.high_shift(2);
    assert_eq!(n.digits, vec![0, 0, 5, 2]);
    n.low_shift(3);
    assert_eq!(n.digits, vec![2]);
}

#[test]
fn tidy_carries_and_trims() {
    let mut n = Integer::new(true, vec![12, 0, 0, 0]);
    n.tidy();
    assert!(n.sign);
    assert_eq!(n.digits, vec![2, 1]);
    let mut z = Integer::new(true, vec![0, 0]);
    z.tidy();
    assert!(!z.sign);
    assert_eq!(z.digits, vec![0]);
}
