use shopping::quantity::{QuantityUnit, RQuantity};

fn q(token: &str) -> RQuantity {
    RQuantity::new(token).expect("token should parse")
}

#[test]
fn parses_integer_gram_token() {
    let v = q("250g");
    assert_eq!(v.render(), "250g");
    assert_eq!(v.unit(), QuantityUnit::Gram);
    assert!(v.is_positive());
}

#[test]
fn parses_fraction_cup_token() {
    let v = q("1/2c");
    assert_eq!(v.render(), "1/2c");
    assert_eq!(v.unit(), QuantityUnit::Cup);
}

#[test]
fn parses_all_unit_codes() {
    assert_eq!(q("1t").unit(), QuantityUnit::Teaspoon);
    assert_eq!(q("1T").unit(), QuantityUnit::Tablespoon);
    assert_eq!(q("1c").unit(), QuantityUnit::Cup);
    assert_eq!(q("1g").unit(), QuantityUnit::Gram);
    assert_eq!(q("1ct").unit(), QuantityUnit::Count);
    assert_eq!(q("1lb").unit(), QuantityUnit::Pound);
}

#[test]
fn parse_reduces_to_lowest_terms() {
    assert_eq!(q("2/4c").render(), "1/2c");
    assert_eq!(q("10/5g").render(), "2g");
    assert_eq!(q("0/7ct").render(), "0ct");
}

#[test]
fn parse_accepts_leading_zeros() {
    assert_eq!(q("007g").render(), "7g");
}

#[test]
fn parse_render_round_trip_preserves_value() {
    for token in ["250g", "1/2c", "3/2t", "7ct", "2/4c", "0g", "12lb", "9/8T"] {
        let first = q(token);
        let second = q(&first.render());
        assert_eq!(first, second);
    }
}

#[test]
fn malformed_tokens_are_rejected() {
    for token in ["", "g", "12", "1/2", "1/2x", "1//2c", "1/0g", "x250g", "250 g", "-3g", "1/c"] {
        assert!(RQuantity::new(token).is_err(), "token {:?} should fail", token);
    }
}

#[test]
fn oversized_numbers_are_rejected() {
    assert!(RQuantity::new("9223372036854775808g").is_err());
    assert!(RQuantity::new("1/9223372036854775808g").is_err());
    assert!(RQuantity::new("9223372036854775807g").is_ok());
}

#[test]
fn add_combines_exact_rationals() {
    let sum = q("1/2c").add(&q("1/3c"));
    assert_eq!(sum.render(), "5/6c");
    let whole = q("1/2c").add(&q("1/2c"));
    assert_eq!(whole.render(), "1c");
}

#[test]
fn subtract_can_go_negative() {
    let d = q("1g").sub(&q("2g"));
    assert!(!d.is_positive());
    assert_eq!(d.render(), "-1g");
}

#[test]
fn zero_is_not_positive() {
    assert!(!q("0ct").is_positive());
    let d = q("3g").sub(&q("3g"));
    assert!(!d.is_positive());
}

#[test]
fn add_then_subtract_gives_back_left_operand() {
    let a = q("3/4c");
    let b = q("5/6c");
    assert_eq!(a.add(&b).sub(&b), a);
    let x = q("7ct");
    let y = q("2ct");
    assert_eq!(x.add(&y).sub(&y), x);
}

#[test]
fn unit_mismatch_is_not_enforced_left_unit_wins() {
    // A deliberate policy inherited from the design: mixing units silently
    // keeps the left operand's unit.
    let mixed = q("2g").add(&q("3ct"));
    assert_eq!(mixed.unit(), QuantityUnit::Gram);
    assert_eq!(mixed.render(), "5g");
    let mixed_sub = q("2c").sub(&q("1/2t"));
    assert_eq!(mixed_sub.unit(), QuantityUnit::Cup);
    assert_eq!(mixed_sub.render(), "3/2c");
}
