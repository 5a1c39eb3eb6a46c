use comp_gate::discovery::{parse_connection_addr, AddressError};

fn ok(host: &str, port: u16) -> Result<(String, u16), AddressError> {
    Ok((host.to_string(), port))
}

#[test]
fn address_is_read_from_the_first_line() {
    assert_eq!(parse_connection_addr("127.0.0.1:54321"), ok("127.0.0.1", 54321));
    assert_eq!(parse_connection_addr("127.0.0.1:80\nrest:1"), ok("127.0.0.1", 80));
    assert_eq!(parse_connection_addr("::1"), Err(AddressError::InvalidPort));
}

#[test]
fn blank_lines_and_white_space_are_passed_over() {
    assert_eq!(parse_connection_addr("\n  \r\n\t127.0.0.1:8080 \r\n"), ok("127.0.0.1", 8080));
    assert_eq!(parse_connection_addr(" \u{a0}host:1\u{2003}"), ok("host", 1));
    assert_eq!(parse_connection_addr("a b:7"), ok("a b", 7));
}

#[test]
fn only_the_first_two_parts_count() {
    assert_eq!(parse_connection_addr("h:12:34:xyz"), ok("h", 12));
    assert_eq!(parse_connection_addr(":9"), ok("", 9));
}

#[test]
fn port_numbers() {
    assert_eq!(parse_connection_addr("h:0"), ok("h", 0));
    assert_eq!(parse_connection_addr("h:65535"), ok("h", 65535));
    assert_eq!(parse_connection_addr("h:+443"), ok("h", 443));
    assert_eq!(parse_connection_addr("h:00080"), ok("h", 80));
    for bad in ["h:", "h:65536", "h:99999999999", "h:-1", "h:+", "h:++1", "h:8 0", "h:80a", "h:٣"] {
        assert_eq!(parse_connection_addr(bad), Err(AddressError::InvalidPort), "{}", bad);
        let text = bad.split(':').nth(1).unwrap();
        assert!(text.parse::<u16>().is_err(), "{}", bad);
    }
    for good in ["0", "65535", "+443", "00080", "+0"] {
        let line = format!("h:{}", good);
        assert_eq!(parse_connection_addr(&line), ok("h", good.parse::<u16>().unwrap()));
    }
}

#[test]
fn files_without_an_address() {
    assert_eq!(parse_connection_addr(""), Err(AddressError::Empty));
    assert_eq!(parse_connection_addr(" \n\t\n"), Err(AddressError::Empty));
    assert_eq!(parse_connection_addr("localhost"), Err(AddressError::Malformed));
    assert_eq!(parse_connection_addr("\nlocalhost 80\nh:1"), Err(AddressError::Malformed));
}
