use textutils::cat::Config;
use textutils::echo::echo_line;

#[test]
fn cat_numbers_every_line() {
    let c = Config::new(vec!["-".to_string()], true, false).unwrap();
    assert_eq!(c.render_line("abc", 0), (b"     1\tabc\n".to_vec(), 1));
    assert_eq!(c.render_line("", 1), (b"     2\t\n".to_vec(), 2));
}

#[test]
fn cat_numbers_nonblank_lines() {
    let c = Config::new(vec!["-".to_string()], false, true).unwrap();
    assert_eq!(c.render_line("", 0), (b"\n".to_vec(), 0));
    assert_eq!(c.render_line("x", 0), (b"     1\tx\n".to_vec(), 1));
    assert_eq!(c.render_line("y", 999999), (b"1000000\ty\n".to_vec(), 1000000));
}

#[test]
fn cat_plain_and_conflict() {
    let c = Config::new(vec!["-".to_string()], false, false).unwrap();
    assert_eq!(c.render_line("plain", 5), (b"plain\n".to_vec(), 5));
    assert!(Config::new(vec![], true, true).is_err());
}

#[test]
fn echo_joins_with_spaces() {
    let words = vec!["Hello".to_string(), "there".to_string()];
    assert_eq!(echo_line(&words, false), b"Hello there\n".to_vec());
    assert_eq!(echo_line(&words, true), b"Hello there".to_vec());
    assert_eq!(echo_line(&vec![], false), b"\n".to_vec());
}
