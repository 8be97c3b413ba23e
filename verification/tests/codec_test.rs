use lexicon_fractional_index::{
    decrement_int, increment_int, key_between, key_digits, midpoint, n_keys_between,
    validate_order_key,
};

const SMALLEST: &str = "A00000000000000000000000000";
const SMALLEST_SUCC: &str = "A00000000000000000000000001";

#[test]
fn increment_values_test() {
    assert_eq!(increment_int("a0"), Ok("a1".to_owned()));
    assert_eq!(increment_int("a9"), Ok("aA".to_owned()));
    assert_eq!(increment_int("aZ"), Ok("aa".to_owned()));
    assert_eq!(increment_int("az"), Ok("b00".to_owned()));
    assert_eq!(increment_int("b0z"), Ok("b10".to_owned()));
    assert_eq!(increment_int("Zz"), Ok("a0".to_owned()));
    assert_eq!(increment_int("Yzz"), Ok("Z0".to_owned()));
    assert_eq!(increment_int(SMALLEST), Ok(SMALLEST_SUCC.to_owned()));
    assert_eq!(
        increment_int("zzzzzzzzzzzzzzzzzzzzzzzzzzz"),
        Ok("".to_owned())
    );
}

#[test]
fn decrement_values_test() {
    assert_eq!(decrement_int("a1"), Ok("a0".to_owned()));
    assert_eq!(decrement_int("aA"), Ok("a9".to_owned()));
    assert_eq!(decrement_int("a0"), Ok("Zz".to_owned()));
    assert_eq!(decrement_int("b00"), Ok("az".to_owned()));
    assert_eq!(decrement_int("Z0"), Ok("Yzz".to_owned()));
    assert_eq!(decrement_int(SMALLEST_SUCC), Ok(SMALLEST.to_owned()));
    assert_eq!(decrement_int(SMALLEST), Ok("".to_owned()));
}

#[test]
fn codec_roundtrip_test() {
    // stepping up and back down, and down and back up, is the identity
    // away from the ends of the integer range
    let samples = ["a0", "a1", "az", "b00", "Zz", "Z0", "Yzz", "b3F", SMALLEST_SUCC];
    for x in samples {
        let up = increment_int(x).unwrap();
        if !up.is_empty() {
            assert_eq!(decrement_int(&up), Ok(x.to_owned()));
        }
        let down = decrement_int(x).unwrap();
        if !down.is_empty() {
            assert_eq!(increment_int(&down), Ok(x.to_owned()));
        }
    }
}

#[test]
fn increment_rejects_malformed_test() {
    assert_eq!(
        increment_int("b1"),
        Err("invalid integer part of order key: b1".to_owned())
    );
    assert_eq!(
        increment_int(""),
        Err("invalid integer part of order key: ".to_owned())
    );
    assert_eq!(
        increment_int("!0"),
        Err("invalid order key head: !".to_owned())
    );
}

#[test]
fn validate_order_key_test() {
    assert_eq!(validate_order_key("a0"), Ok(()));
    assert_eq!(validate_order_key("Zz"), Ok(()));
    assert_eq!(validate_order_key("a0V"), Ok(()));
    assert_eq!(validate_order_key(SMALLEST_SUCC), Ok(()));
    assert_eq!(
        validate_order_key(""),
        Err("invalid order key".to_owned())
    );
    assert_eq!(
        validate_order_key("0"),
        Err("invalid order key head: 0".to_owned())
    );
    assert_eq!(
        validate_order_key("a00"),
        Err("invalid order key: a00".to_owned())
    );
    assert_eq!(
        validate_order_key("b1"),
        Err("invalid order key: b1".to_owned())
    );
    assert_eq!(
        validate_order_key("a!"),
        Err("invalid order key: a!".to_owned())
    );
    assert_eq!(
        validate_order_key(SMALLEST),
        Err(format!("invalid order key: {}", SMALLEST))
    );
}

#[test]
fn key_digits_test() {
    let d = key_digits("a0V").unwrap();
    assert!(!d.negative);
    assert_eq!(d.int_digits, vec![0]);
    assert_eq!(d.frac_digits, vec![31]);

    let d = key_digits("Zz").unwrap();
    assert!(d.negative);
    assert_eq!(d.int_digits, vec![61]);
    assert_eq!(d.frac_digits, Vec::<u8>::new());

    let d = key_digits("b10").unwrap();
    assert!(!d.negative);
    assert_eq!(d.int_digits, vec![1, 0]);
    assert_eq!(d.frac_digits, Vec::<u8>::new());

    let d = key_digits("a00V").unwrap();
    assert_eq!(d.int_digits, vec![0]);
    assert_eq!(d.frac_digits, vec![0, 31]);

    assert_eq!(key_digits(""), Err("invalid order key".to_owned()));
    assert_eq!(
        key_digits("!"),
        Err("invalid order key head: !".to_owned())
    );
    assert_eq!(
        key_digits("a400"),
        Err("invalid order key: a400".to_owned())
    );
    assert_eq!(key_digits("a!"), Err("invalid order key: a!".to_owned()));
}

#[test]
fn midpoint_values_test() {
    assert_eq!(midpoint("", ""), "V".to_owned());
    assert_eq!(midpoint("", "V"), "G".to_owned());
    assert_eq!(midpoint("V", ""), "l".to_owned());
    assert_eq!(midpoint("", "1"), "0V".to_owned());
    // the lower side is read as padded with zero digits, so the result
    // extends below "01" without picking up a trailing zero
    assert_eq!(midpoint("", "01"), "00V".to_owned());
    assert_eq!(midpoint("49", "5"), "4a".to_owned());
    assert_eq!(midpoint("001", "001002"), "001001".to_owned());
}

#[test]
fn key_between_zero_padding_test() -> Result<(), String> {
    let k = key_between(&Some("a0".to_owned()), &Some("a001".to_owned()))?;
    assert_eq!(k, "a000V");
    assert!("a0" < k.as_str() && k.as_str() < "a001");
    assert_eq!(validate_order_key(&k), Ok(()));
    Ok(())
}

#[test]
fn reserved_minimum_corner_test() {
    // the only input on which the generated key is not itself valid:
    // stepping down from the reserved minimum's successor reaches the
    // reserved minimum, and a further step fails
    let k = key_between(&None, &Some(SMALLEST_SUCC.to_owned())).unwrap();
    assert_eq!(k, SMALLEST);

    let ks = n_keys_between(&None, &Some(SMALLEST_SUCC.to_owned()), 1).unwrap();
    assert_eq!(ks, vec![SMALLEST.to_owned()]);

    assert_eq!(
        n_keys_between(&None, &Some(SMALLEST_SUCC.to_owned()), 2),
        Err(format!("invalid order key: {}", SMALLEST))
    );
}

#[test]
fn n_keys_zero_and_one_test() -> Result<(), String> {
    let ks = n_keys_between(&None, &None, 0)?;
    assert!(ks.is_empty());
    let ks = n_keys_between(&Some("a0".to_owned()), &Some("a1".to_owned()), 1)?;
    assert_eq!(ks, vec!["a0V".to_owned()]);
    Ok(())
}

#[test]
fn n_keys_order_error_test() {
    assert_eq!(
        n_keys_between(&Some("a1".to_owned()), &Some("a0".to_owned()), 3),
        Err("invalid order: a1 >= a0".to_owned())
    );
    assert_eq!(
        n_keys_between(&Some("a00".to_owned()), &None, 3),
        Err("invalid order key: a00".to_owned())
    );
}
