use textutils::head::{header, parse_positive_int, take_bytes, take_lines, Config};

#[test]
fn test_parse_positive_int() {
    // 3 is an OK int
    let res = parse_positive_int("3");
    assert!(res.is_ok());
    assert_eq!(res.unwrap(), 3);

    // Any string is an error
    let res = parse_positive_int("foo");
    assert!(res.is_err());
    assert_eq!(res.unwrap_err().to_string(), "foo".to_string());
}

#[test]
fn parse_positive_int_edges() {
    assert_eq!(parse_positive_int("0"), Err("0".to_string()));
    assert_eq!(parse_positive_int(""), Err("".to_string()));
    assert_eq!(parse_positive_int("+"), Err("+".to_string()));
    assert_eq!(parse_positive_int("-3"), Err("-3".to_string()));
    assert_eq!(parse_positive_int("+7"), Ok(7));
    assert_eq!(parse_positive_int("0010"), Ok(10));
    assert_eq!(parse_positive_int("3x"), Err("3x".to_string()));
    let max = usize::MAX.to_string();
    assert_eq!(parse_positive_int(&max), Ok(usize::MAX));
    let over = format!("{}0", max);
    assert_eq!(parse_positive_int(&over), Err(over.clone()));
}

#[test]
fn take_two_of_five_lines() {
    let data = b"one\ntwo\nthree\nfour\nfive\n";
    assert_eq!(take_lines(data, 2), b"one\ntwo\n".to_vec());
}

#[test]
fn take_more_lines_than_present() {
    let data = b"one\r\ntwo";
    assert_eq!(take_lines(data, 10), data.to_vec());
    assert_eq!(take_lines(data, 1), b"one\r\n".to_vec());
    assert_eq!(take_lines(b"", 3), Vec::<u8>::new());
    assert_eq!(take_lines(data, 0), Vec::<u8>::new());
}

#[test]
fn take_leading_bytes() {
    assert_eq!(take_bytes(b"hello\nworld\n", 3), "hel");
    assert_eq!(take_bytes(b"hi", 100), "hi");
    // a cut inside a two-byte character decodes to a replacement character
    assert_eq!(take_bytes("h\u{e9}llo".as_bytes(), 2), "h\u{fffd}");
}

#[test]
fn headers_between_inputs() {
    assert_eq!(header("a.txt", 0, 2), b"==> a.txt <==\n".to_vec());
    assert_eq!(header("b.txt", 1, 2), b"\n==> b.txt <==\n".to_vec());
    assert!(header("a.txt", 0, 1).is_empty());
}

#[test]
fn config_rejects_zero_amounts() {
    let files = vec!["-".to_string()];
    assert!(Config::new(files.clone(), 0, None).is_err());
    assert!(Config::new(files.clone(), 10, Some(0)).is_err());
    let c = Config::new(files, 10, Some(4)).unwrap();
    assert_eq!(c.lines, 10);
    assert_eq!(c.bytes, Some(4));
}
