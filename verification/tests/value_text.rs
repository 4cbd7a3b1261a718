use bufr_decoder::Value;

#[test]
fn test_value_fmt() {
    assert_eq!(Value::Missing.to_text(), "Missing");
    assert_eq!(Value::Decimal(1234, -2).to_text(), "12.34");
    assert_eq!(Value::Decimal(1234, 2).to_text(), "123400");
    assert_eq!(Value::Integer(42).to_text(), "42");
    assert_eq!(Value::String("Hello".to_string()).to_text(), "\"Hello\"");
}
