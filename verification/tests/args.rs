use calc_flash::args::parse_args;

fn strs(v: &[&str]) -> Vec<String> {
    v.iter().map(|s| s.to_string()).collect()
}

#[test]
fn expression_and_output_file() {
    let (e, f) = parse_args(&strs(&["5! + 10", "-o", "out.txt"]));
    assert_eq!(e.as_deref(), Some("5! + 10"));
    assert_eq!(f.as_deref(), Some("out.txt"));
    let (e, f) = parse_args(&strs(&["--output", "log", "2^10"]));
    assert_eq!(e.as_deref(), Some("2^10"));
    assert_eq!(f.as_deref(), Some("log"));
}

#[test]
fn flags_and_missing_values() {
    assert_eq!(parse_args(&strs(&[])), (None, None));
    assert_eq!(parse_args(&strs(&["-o"])), (None, None));
    assert_eq!(parse_args(&strs(&["-v", "1+1"])), (Some("1+1".to_string()), None));
    assert_eq!(parse_args(&strs(&["1", "2"])), (Some("2".to_string()), None));
    assert_eq!(parse_args(&strs(&["-5"])), (None, None));
    assert_eq!(parse_args(&strs(&[""])), (Some(String::new()), None));
    assert_eq!(
        parse_args(&strs(&["-o", "a", "-o", "b"])),
        (None, Some("b".to_string()))
    );
}
