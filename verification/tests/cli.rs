use sat_tunnel::cli::{
    parse_arguments, parse_number, push_decimal, push_text, usage_text, ArgError, Binary, Flag,
    SatDecap, SatEncap, DEFAULT_BUFFER_LENGTH, DEFAULT_PAYLOAD_LENGTH, DEFAULT_READ_TIMEOUT,
};

fn args(words: &[&str]) -> Vec<Vec<u8>> {
    words.iter().map(|w| w.as_bytes().to_vec()).collect()
}

#[test]
fn defaults() {
    assert_eq!(DEFAULT_PAYLOAD_LENGTH, 2048);
    assert_eq!(DEFAULT_BUFFER_LENGTH, 8192);
    assert_eq!(DEFAULT_READ_TIMEOUT, 100);
    assert_eq!(<SatEncap as Binary>::DEFAULT_PAYLOAD_LENGTH, 0);
    assert_eq!(<SatDecap as Binary>::DEFAULT_PAYLOAD_LENGTH, 2048);
}

#[test]
fn names() {
    assert_eq!(SatEncap::name(), "satencap");
    assert_eq!(SatDecap::name(), "satdecap");
}

#[test]
fn required_arguments_alone() {
    let a = parse_arguments::<SatEncap>(&args(&[
        "satencap", "-i", "tap0", "-l", "127.0.0.1:5000", "-r", "127.0.0.1:5001",
    ]))
    .expect("arguments");
    assert_eq!(a.tap_iface, b"tap0");
    assert_eq!(a.local, b"127.0.0.1:5000");
    assert_eq!(a.remote, b"127.0.0.1:5001");
    assert_eq!(a.payload_len, 0);
    assert_eq!(a.buffer_len, 8192);
    assert_eq!(a.read_timeout, 100);
}

#[test]
fn default_payload_length_depends_on_the_program() {
    let words = args(&["x", "-i", "tap0", "-l", "a:1", "-r", "b:2"]);
    assert_eq!(parse_arguments::<SatEncap>(&words).unwrap().payload_len, 0);
    assert_eq!(parse_arguments::<SatDecap>(&words).unwrap().payload_len, 2048);
}

#[test]
fn optional_arguments_in_any_order() {
    let a = parse_arguments::<SatDecap>(&args(&[
        "satdecap", "-t", "250", "-r", "b:2", "-b", "1500", "-i", "tap7", "-p", "+64", "-l", "a:1",
    ]))
    .expect("arguments");
    assert_eq!(a.tap_iface, b"tap7");
    assert_eq!(a.local, b"a:1");
    assert_eq!(a.remote, b"b:2");
    assert_eq!(a.payload_len, 64);
    assert_eq!(a.buffer_len, 1500);
    assert_eq!(a.read_timeout, 250);
}

#[test]
fn later_value_replaces_the_earlier() {
    let a = parse_arguments::<SatEncap>(&args(&[
        "x", "-i", "tap0", "-i", "tap1", "-l", "a:1", "-r", "b:2", "-p", "1", "-p", "2",
    ]))
    .expect("arguments");
    assert_eq!(a.tap_iface, b"tap1");
    assert_eq!(a.payload_len, 2);
}

#[test]
fn help_is_asked_for() {
    let r = parse_arguments::<SatEncap>(&args(&["x", "-h"]));
    assert_eq!(r.unwrap_err(), ArgError::Help);
    let r = parse_arguments::<SatEncap>(&args(&["x", "-i", "tap0", "-h", "-l"]));
    assert_eq!(r.unwrap_err(), ArgError::Help);
}

#[test]
fn first_fault_wins() {
    let r = parse_arguments::<SatEncap>(&args(&["x", "-p", "abc", "-h"]));
    assert_eq!(r.unwrap_err(), ArgError::InvalidNumber(Flag::PayloadLen));
    let r = parse_arguments::<SatEncap>(&args(&["x", "--verbose", "-h"]));
    assert_eq!(r.unwrap_err(), ArgError::UnknownArgument(1));
}

#[test]
fn unknown_arguments() {
    for word in ["-x", "tap0", "", "-", "-ii", "--i", "i"] {
        let r = parse_arguments::<SatEncap>(&args(&["x", "-i", "tap0", word, "v"]));
        assert_eq!(r.unwrap_err(), ArgError::UnknownArgument(3));
    }
}

#[test]
fn flag_without_value() {
    let cases = [
        ("-i", Flag::Interface),
        ("-l", Flag::Local),
        ("-r", Flag::Remote),
        ("-p", Flag::PayloadLen),
        ("-b", Flag::BufferLen),
        ("-t", Flag::ReadTimeout),
    ];
    for (word, flag) in cases {
        let r = parse_arguments::<SatEncap>(&args(&["x", word]));
        assert_eq!(r.unwrap_err(), ArgError::MissingValue(flag));
    }
}

#[test]
fn value_may_look_like_a_flag() {
    let a = parse_arguments::<SatEncap>(&args(&["x", "-i", "-h", "-l", "a:1", "-r", "b:2"]))
        .expect("arguments");
    assert_eq!(a.tap_iface, b"-h");
}

#[test]
fn numbers_that_are_none() {
    for (word, flag) in [("-p", Flag::PayloadLen), ("-b", Flag::BufferLen), ("-t", Flag::ReadTimeout)] {
        for text in ["", "+", "-1", "12a", " 12", "1.5", "0x10", "99999999999999999999999"] {
            let r = parse_arguments::<SatEncap>(&args(&["x", word, text]));
            assert_eq!(r.unwrap_err(), ArgError::InvalidNumber(flag));
        }
    }
}

#[test]
fn missing_required_arguments() {
    let r = parse_arguments::<SatEncap>(&args(&["x"]));
    assert_eq!(r.unwrap_err(), ArgError::MissingLocal);
    let r = parse_arguments::<SatEncap>(&args(&[]));
    assert_eq!(r.unwrap_err(), ArgError::MissingLocal);
    let r = parse_arguments::<SatEncap>(&args(&["x", "-i", "tap0", "-r", "b:2"]));
    assert_eq!(r.unwrap_err(), ArgError::MissingLocal);
    let r = parse_arguments::<SatEncap>(&args(&["x", "-i", "tap0", "-l", "a:1"]));
    assert_eq!(r.unwrap_err(), ArgError::MissingRemote);
    let r = parse_arguments::<SatEncap>(&args(&["x", "-l", "a:1", "-r", "b:2"]));
    assert_eq!(r.unwrap_err(), ArgError::MissingInterface);
}

#[test]
fn parse_number_exact_values() {
    assert_eq!(parse_number(b"0", 100), Some(0));
    assert_eq!(parse_number(b"007", 100), Some(7));
    assert_eq!(parse_number(b"100", 100), Some(100));
    assert_eq!(parse_number(b"101", 100), None);
    assert_eq!(parse_number(b"+42", 100), Some(42));
    assert_eq!(parse_number(b"++42", 100), None);
    assert_eq!(parse_number(b"42+", 100), None);
    assert_eq!(parse_number(b"", 100), None);
    assert_eq!(parse_number(b"+", 100), None);
    assert_eq!(parse_number(b"5", 4), None);
    assert_eq!(parse_number(b"0", 0), Some(0));
    assert_eq!(parse_number(b"18446744073709551615", u64::MAX), Some(u64::MAX));
    assert_eq!(parse_number(b"18446744073709551616", u64::MAX), None);
    assert_eq!(parse_number(b"184467440737095516150", u64::MAX), None);
}

#[test]
fn decimal_digits() {
    for (n, text) in [(0u64, "0"), (7, "7"), (10, "10"), (2048, "2048"), (u64::MAX, "18446744073709551615")] {
        let mut out = b"n=".to_vec();
        push_decimal(&mut out, n);
        assert_eq!(out, format!("n={}", text).into_bytes());
    }
}

#[test]
fn decimal_digits_read_back() {
    for n in [0u64, 1, 9, 10, 99, 100, 8192, 65535, 1 << 40, u64::MAX] {
        let mut out = Vec::new();
        push_decimal(&mut out, n);
        assert_eq!(parse_number(&out, u64::MAX), Some(n));
    }
}

#[test]
fn text_is_appended_as_bytes() {
    let mut out = vec![b'>'];
    push_text(&mut out, "abc");
    push_text(&mut out, "");
    push_text(&mut out, "é");
    assert_eq!(out, ">abcé".as_bytes());
}

#[test]
fn usage_names_the_program_and_its_defaults() {
    let encap = String::from_utf8(SatEncap::usage()).expect("text");
    assert!(encap.starts_with("Usage: satencap -i TAP_IFACE -l LOCAL_ADDR_PORT -r REMOTE_ADDR_PORT"));
    assert!(encap.contains("PAYLOAD_LEN       the constant size (bytes) of outcoming payload to the UDP tunnel. Set 0 to send packets of variable payload length (default: 0)\n"));
    assert!(encap.contains("BUFFER_LEN        the max size (bytes) of incoming IP packet (default: 8192)\n"));
    assert!(encap.ends_with("READ_TIMEOUT      the timeout (ms) to read incoming IP packets (default: 100)\n"));
    let decap = String::from_utf8(SatDecap::usage()).expect("text");
    assert!(decap.starts_with("Usage: satdecap "));
    assert!(decap.contains("PAYLOAD_LEN       the constant size (bytes) of incoming payload to the UDP tunnel (default: 2048)\n"));
    assert!(decap.contains("BUFFER_LEN        the max size (bytes) of outcoming IP packet (default: 8192)\n"));
    assert!(decap.ends_with("READ_TIMEOUT      the timeout (ms) to read incoming payload from UDP tunnel (default: 100)\n"));
}

#[test]
fn usage_text_is_made_of_its_parts() {
    let text = String::from_utf8(usage_text("prog", "P", "B", "T", 5)).expect("text");
    assert!(text.starts_with("Usage: prog -i"));
    assert!(text.ends_with(
        "    Optional arguments\n        PAYLOAD_LEN       P (default: 5)\n        BUFFER_LEN        B (default: 8192)\n        READ_TIMEOUT      T (default: 100)\n"
    ));
}
