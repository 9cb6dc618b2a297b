//! Exact wire-text expectations for the protocol codec.

use frame_relay::protocol::{decode, encode, Message};

#[test]
fn encode_welcome_exact() {
    let text = encode(&Message::WelcomeClient);
    assert_eq!(text, "{\"WelcomeClient\":null}");
}

#[test]
fn encode_data_exact() {
    let text = encode(&Message::Data(vec![1, 2, 3]));
    assert_eq!(text, "{\"Data\":[1,2,3]}");
}

#[test]
fn encode_data_empty() {
    let text = encode(&Message::Data(Vec::new()));
    assert_eq!(text, "{\"Data\":[]}");
}

#[test]
fn encode_data_digit_widths() {
    let text = encode(&Message::Data(vec![0, 9, 10, 99, 100, 255]));
    assert_eq!(text, "{\"Data\":[0,9,10,99,100,255]}");
}

#[test]
fn encode_location_exact() {
    let text = encode(&Message::DataLocation(String::from("/dev/shm/blender_bevy_frame")));
    assert_eq!(text, "{\"DataLocation\":\"/dev/shm/blender_bevy_frame\"}");
}

#[test]
fn encode_location_escapes() {
    let text = encode(&Message::DataLocation(String::from("a\"b\\c")));
    assert_eq!(text, "{\"DataLocation\":\"a\\\"b\\\\c\"}");
}

#[test]
fn decode_welcome() {
    let m = decode("{\"WelcomeClient\":null}").unwrap();
    assert_eq!(m, Message::WelcomeClient);
}

#[test]
fn decode_data() {
    let m = decode("{\"Data\":[1,2,3]}").unwrap();
    assert_eq!(m, Message::Data(vec![1, 2, 3]));
}

#[test]
fn decode_data_empty() {
    let m = decode("{\"Data\":[]}").unwrap();
    assert_eq!(m, Message::Data(Vec::new()));
}

#[test]
fn decode_location() {
    let m = decode("{\"DataLocation\":\"/dev/shm/blender_bevy_frame\"}").unwrap();
    assert_eq!(m, Message::DataLocation(String::from("/dev/shm/blender_bevy_frame")));
}

#[test]
fn decode_location_escapes() {
    let m = decode("{\"DataLocation\":\"a\\\"b\\\\c\"}").unwrap();
    assert_eq!(m, Message::DataLocation(String::from("a\"b\\c")));
}

#[test]
fn round_trip_welcome() {
    let m = Message::WelcomeClient;
    assert_eq!(decode(&encode(&m)).unwrap(), m);
}

#[test]
fn round_trip_data() {
    let m = Message::Data(vec![0, 1, 127, 128, 200, 255]);
    assert_eq!(decode(&encode(&m)).unwrap(), m);
}

#[test]
fn round_trip_location() {
    let m = Message::DataLocation(String::from("C:\\frames\\\"current\".bin"));
    assert_eq!(decode(&encode(&m)).unwrap(), m);
}

#[test]
fn round_trip_location_unicode() {
    let m = Message::DataLocation(String::from("/tmp/caf\u{e9}/\u{1F4A1}"));
    assert_eq!(decode(&encode(&m)).unwrap(), m);
}

#[test]
fn decode_rejects_garbage() {
    assert!(decode("").is_err());
    assert!(decode("{}").is_err());
    assert!(decode("hello").is_err());
    assert!(decode("{\"Welcome\":null}").is_err());
}

#[test]
fn decode_rejects_value_out_of_range() {
    assert!(decode("{\"Data\":[256]}").is_err());
    assert!(decode("{\"Data\":[999]}").is_err());
    assert!(decode("{\"Data\":[1234]}").is_err());
}

#[test]
fn decode_rejects_noncanonical_numbers() {
    assert!(decode("{\"Data\":[01]}").is_err());
    assert!(decode("{\"Data\":[007]}").is_err());
    assert!(decode("{\"Data\":[1, 2]}").is_err());
}

#[test]
fn decode_rejects_malformed_lists() {
    assert!(decode("{\"Data\":[1,]}").is_err());
    assert!(decode("{\"Data\":[,1]}").is_err());
    assert!(decode("{\"Data\":[1,2}").is_err());
    assert!(decode("{\"Data\":[1,2]").is_err());
}

#[test]
fn decode_rejects_trailing_text() {
    assert!(decode("{\"WelcomeClient\":null} ").is_err());
    assert!(decode("{\"Data\":[1]}x").is_err());
}

#[test]
fn decode_rejects_bad_strings() {
    assert!(decode("{\"DataLocation\":\"a}").is_err());
    assert!(decode("{\"DataLocation\":\"a\\x\"}").is_err());
    assert!(decode("{\"DataLocation\":\"a\\\"}").is_err());
    assert!(decode("{\"DataLocation\":\"a\"").is_err());
}
