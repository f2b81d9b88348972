use drips::port::{port_in_range, PortError};

#[test]
fn accepts_ports_in_range() {
    assert_eq!(port_in_range("1"), Ok(1));
    assert_eq!(port_in_range("8080"), Ok(8080));
    assert_eq!(port_in_range("9999"), Ok(9999));
    assert_eq!(port_in_range("65535"), Ok(65535));
}

#[test]
fn accepts_leading_plus() {
    assert_eq!(port_in_range("+443"), Ok(443));
}

#[test]
fn rejects_zero_as_out_of_range() {
    assert_eq!(port_in_range("0"), Err(PortError::OutOfRange));
}

#[test]
fn rejects_values_above_range() {
    assert_eq!(port_in_range("65536"), Err(PortError::OutOfRange));
    assert_eq!(port_in_range("100000"), Err(PortError::OutOfRange));
    assert_eq!(
        port_in_range("18446744073709551615"),
        Err(PortError::OutOfRange)
    );
}

#[test]
fn rejects_non_numerals() {
    assert_eq!(port_in_range(""), Err(PortError::NotANumber));
    assert_eq!(port_in_range("+"), Err(PortError::NotANumber));
    assert_eq!(port_in_range("abc"), Err(PortError::NotANumber));
    assert_eq!(port_in_range("80a"), Err(PortError::NotANumber));
    assert_eq!(port_in_range("-1"), Err(PortError::NotANumber));
    assert_eq!(port_in_range(" 8080"), Err(PortError::NotANumber));
    assert_eq!(port_in_range("8 080"), Err(PortError::NotANumber));
}

#[test]
fn rejects_values_beyond_u64() {
    assert_eq!(
        port_in_range("18446744073709551616"),
        Err(PortError::NotANumber)
    );
    assert_eq!(
        port_in_range("99999999999999999999999999"),
        Err(PortError::NotANumber)
    );
}
