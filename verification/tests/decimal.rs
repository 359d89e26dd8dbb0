use raycaster::decimal::push_decimal;

fn text_of(n: i32) -> String {
    let mut out: Vec<u8> = Vec::new();
    push_decimal(&mut out, n);
    String::from_utf8(out).unwrap()
}

#[test]
fn zero_is_one_digit() {
    assert_eq!(text_of(0), "0");
}

#[test]
fn single_digits() {
    assert_eq!(text_of(7), "7");
    assert_eq!(text_of(9), "9");
}

#[test]
fn digits_come_most_significant_first() {
    assert_eq!(text_of(10), "10");
    assert_eq!(text_of(255), "255");
    assert_eq!(text_of(1203), "1203");
}

#[test]
fn negative_numbers_carry_a_minus_sign() {
    assert_eq!(text_of(-1), "-1");
    assert_eq!(text_of(-40), "-40");
}

#[test]
fn the_ends_of_the_range() {
    assert_eq!(text_of(i32::MAX), "2147483647");
    assert_eq!(text_of(i32::MIN), "-2147483648");
}

#[test]
fn agrees_with_the_standard_formatting() {
    let samples: Vec<i32> = vec![
        0, 1, -1, 9, 10, 11, 99, 100, 101, 254, 255, 256, 999, 1000, 65535, -65536, 1000000,
        -999999999, 2147483646, -2147483647,
    ];
    for n in samples {
        assert_eq!(text_of(n), format!("{}", n));
    }
}

#[test]
fn appends_to_what_is_there() {
    let mut out: Vec<u8> = vec![b'x', b'='];
    push_decimal(&mut out, 42);
    push_decimal(&mut out, -5);
    assert_eq!(out, b"x=42-5".to_vec());
}
