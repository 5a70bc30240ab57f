use vgstore::numeric_encoder::EncodedTerm;
use vgstore::model::{BlankNode, Term};
use vgstore::term_encoder::{parse_integer_str, TermEncoder};

#[test]
fn encoded_float_equality_is_reflexive_on_nan() {
    let nan = EncodedTerm::FloatLiteral(f32::NAN.to_be_bytes());
    let other_nan = EncodedTerm::FloatLiteral((-f32::NAN).to_be_bytes());
    assert!(nan == EncodedTerm::FloatLiteral(f32::NAN.to_be_bytes()));
    assert!(nan == other_nan);
    assert!(nan != EncodedTerm::FloatLiteral(1.0f32.to_be_bytes()));
    assert!(EncodedTerm::FloatLiteral(0.0f32.to_be_bytes()) == EncodedTerm::FloatLiteral((-0.0f32).to_be_bytes()));
    assert!(EncodedTerm::FloatLiteral(1.5f32.to_be_bytes()) == EncodedTerm::FloatLiteral(1.5f32.to_be_bytes()));
    assert!(EncodedTerm::FloatLiteral(1.5f32.to_be_bytes()) != EncodedTerm::FloatLiteral(2.5f32.to_be_bytes()));
}

#[test]
fn encoded_double_equality_is_reflexive_on_nan() {
    let nan = EncodedTerm::DoubleLiteral(f64::NAN.to_be_bytes());
    assert!(nan == EncodedTerm::DoubleLiteral(f64::NAN.to_be_bytes()));
    assert!(nan != EncodedTerm::DoubleLiteral(f64::INFINITY.to_be_bytes()));
    assert!(EncodedTerm::DoubleLiteral(f64::INFINITY.to_be_bytes()) == EncodedTerm::DoubleLiteral(f64::INFINITY.to_be_bytes()));
    assert!(EncodedTerm::DoubleLiteral(0.0f64.to_be_bytes()) == EncodedTerm::DoubleLiteral((-0.0f64).to_be_bytes()));
    assert!(EncodedTerm::IntegerLiteral(1) != EncodedTerm::DoubleLiteral(1.0f64.to_be_bytes()));
}

#[test]
fn integer_strings_parse_as_std_documents() {
    assert!(matches!(parse_integer_str("42"), Some(EncodedTerm::IntegerLiteral(42))));
    assert!(matches!(parse_integer_str("+7"), Some(EncodedTerm::IntegerLiteral(7))));
    assert!(matches!(parse_integer_str("-0012"), Some(EncodedTerm::IntegerLiteral(-12))));
    assert!(matches!(
        parse_integer_str("-9223372036854775808"),
        Some(EncodedTerm::IntegerLiteral(i64::MIN))
    ));
    assert!(parse_integer_str("9223372036854775808").is_none());
    assert!(parse_integer_str("").is_none());
    assert!(parse_integer_str("-").is_none());
    assert!(parse_integer_str("1.0").is_none());
    assert!(parse_integer_str(" 1").is_none());
}

fn blank_id(id: &str) -> Option<u128> {
    match TermEncoder::new().encode_term(&Term::BlankNode(BlankNode::new(id.to_owned()))) {
        EncodedTerm::NumericalBlankNode { id } => Some(id),
        _ => None,
    }
}

#[test]
fn numerical_blank_node_ids_are_lowercase_hex_without_leading_zero() {
    assert_eq!(blank_id("a1"), Some(0xa1));
    assert_eq!(blank_id("f"), Some(15));
    assert_eq!(blank_id("ffffffffffffffffffffffffffffffff"), Some(u128::MAX));
    assert_eq!(blank_id("100000000000000000000000000000000"), None);
    assert_eq!(blank_id("0a"), None);
    assert_eq!(blank_id("A1"), None);
    assert_eq!(blank_id("b1g"), None);
    assert_eq!(blank_id("é1"), None);
}
