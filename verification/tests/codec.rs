use comp_gate::device::{device_path_to_device_id, interface_path_to_instance_path, DeviceId};
use comp_gate::hex::{decode_hex, encode_hex, hex_val, HexError};
use comp_gate::whitelist::{deserialize_set_bytes, serialize_set_bytes, WhitelistError};

#[test]
fn interface_path_becomes_device_id() {
    let id = device_path_to_device_id(
        "\\\\?\\USB#VID_046D&PID_C52B#5&2752457f&0&2#{a5dcbf10-6530-11d2-901f-00c04fb951ed}",
    );
    assert_eq!(id.as_str(), "USB\\VID_046D&PID_C52B\\5&2752457F&0&2");
}

#[test]
fn instance_path_keeps_case() {
    assert_eq!(
        interface_path_to_instance_path("\\\\?\\USB#VID_046D#5&2752457f#{guid}"),
        "USB\\VID_046D\\5&2752457f"
    );
}

#[test]
fn path_without_marker_or_hash() {
    assert_eq!(interface_path_to_instance_path("plain"), "plain");
    assert_eq!(interface_path_to_instance_path(""), "");
    assert_eq!(interface_path_to_instance_path("a#b"), "a");
    assert_eq!(interface_path_to_instance_path("#"), "");
    assert_eq!(interface_path_to_instance_path("\\\\?\\"), "");
    assert_eq!(interface_path_to_instance_path("\\\\?\\x#y#z"), "x\\y");
    assert_eq!(device_path_to_device_id("usb#vid_1#é").as_str(), "USB\\VID_1");
}

#[test]
fn hex_encoding_is_lowercase_pairs() {
    assert_eq!(encode_hex(&[]), "");
    assert_eq!(encode_hex(&[0x00, 0x0f, 0xa5, 0xff]), "000fa5ff");
}

#[test]
fn hex_decoding_takes_both_cases() {
    assert_eq!(decode_hex("000fa5ff"), Ok(vec![0x00, 0x0f, 0xa5, 0xff]));
    assert_eq!(decode_hex("000FA5Ff"), Ok(vec![0x00, 0x0f, 0xa5, 0xff]));
    assert_eq!(decode_hex(""), Ok(vec![]));
}

#[test]
fn hex_decoding_refuses_bad_text() {
    assert_eq!(decode_hex("abc"), Err(HexError::InvalidLength));
    assert_eq!(decode_hex("zz"), Err(HexError::InvalidChar(b'z')));
    assert_eq!(decode_hex("0g"), Err(HexError::InvalidChar(b'g')));
    assert_eq!(decode_hex("g"), Err(HexError::InvalidLength));
}

#[test]
fn hex_digit_values() {
    assert_eq!(hex_val(b'0'), Ok(0));
    assert_eq!(hex_val(b'9'), Ok(9));
    assert_eq!(hex_val(b'a'), Ok(10));
    assert_eq!(hex_val(b'f'), Ok(15));
    assert_eq!(hex_val(b'A'), Ok(10));
    assert_eq!(hex_val(b'F'), Ok(15));
    assert_eq!(hex_val(b'/'), Err(HexError::InvalidChar(b'/')));
    assert_eq!(hex_val(b':'), Err(HexError::InvalidChar(b':')));
    assert_eq!(hex_val(b'G'), Err(HexError::InvalidChar(b'G')));
    assert_eq!(hex_val(b'`'), Err(HexError::InvalidChar(b'`')));
}

#[test]
fn hex_round_trip_of_all_bytes() {
    let all: Vec<u8> = (0..=255u8).collect();
    assert_eq!(decode_hex(&encode_hex(&all)), Ok(all));
}

#[test]
fn records_have_length_then_text() {
    let set = vec![DeviceId::new("AB"), DeviceId::new("é")];
    assert_eq!(
        serialize_set_bytes(&set),
        vec![2, 0, 0, 0, 0, 0, 0, 0, b'A', b'B', 2, 0, 0, 0, 0, 0, 0, 0, 0xc3, 0xa9]
    );
    assert_eq!(serialize_set_bytes(&Vec::new()), Vec::<u8>::new());
}

#[test]
fn records_with_long_text_use_higher_length_bytes() {
    let long = "x".repeat(0x1_02);
    let bytes = serialize_set_bytes(&vec![DeviceId::new(&long)]);
    assert_eq!(&bytes[..8], &[2, 1, 0, 0, 0, 0, 0, 0]);
    assert_eq!(bytes.len(), 8 + 0x1_02);
    assert_eq!(deserialize_set_bytes(&bytes), Ok(vec![DeviceId::new(&long)]));
}

#[test]
fn records_round_trip_as_a_set() {
    let set = vec![DeviceId::new("USB\\A"), DeviceId::new("HID\\B"), DeviceId::new("")];
    let back = deserialize_set_bytes(&serialize_set_bytes(&set)).unwrap();
    assert_eq!(back, set);
    let twice = vec![DeviceId::new("A"), DeviceId::new("B"), DeviceId::new("A")];
    let back = deserialize_set_bytes(&serialize_set_bytes(&twice)).unwrap();
    assert_eq!(back, vec![DeviceId::new("A"), DeviceId::new("B")]);
}

#[test]
fn damaged_records_are_refused() {
    assert_eq!(deserialize_set_bytes(&[1, 0, 0]), Err(WhitelistError::TruncatedLength));
    assert_eq!(
        deserialize_set_bytes(&[2, 0, 0, 0, 0, 0, 0, 0, b'A']),
        Err(WhitelistError::TruncatedText)
    );
    assert_eq!(
        deserialize_set_bytes(&[0xff, 0xff, 0xff, 0xff, 0xff, 0xff, 0xff, 0xff]),
        Err(WhitelistError::TruncatedText)
    );
    assert_eq!(
        deserialize_set_bytes(&[1, 0, 0, 0, 0, 0, 0, 0, 0xff]),
        Err(WhitelistError::InvalidUtf8)
    );
    assert_eq!(
        deserialize_set_bytes(&[1, 0, 0, 0, 0, 0, 0, 0, b'A', 9]),
        Err(WhitelistError::TruncatedLength)
    );
}
