use calc_flash::bigint::BigInt;
use calc_flash::repl::{digits_report, is_space_char, parse_command, trim, Action, Command, Session};

fn eval_text(c: Command) -> Option<String> {
    match c {
        Command::Eval(e) => Some(e),
        _ => None,
    }
}

#[test]
fn trimming_removes_unicode_spaces() {
    assert_eq!(trim("  1 + 2 \t\n"), "1 + 2");
    assert_eq!(trim("\u{3000}\u{a0}x\u{2009}"), "x");
    assert_eq!(trim(" \r\n "), "");
    assert_eq!(trim("a b"), "a b");
    assert!(is_space_char('\u{85}'));
    assert!(!is_space_char('\u{200b}'));
    assert!(!is_space_char('x'));
}

#[test]
fn commands_are_recognised() {
    assert!(matches!(parse_command("   "), Command::Blank));
    assert!(matches!(parse_command(""), Command::Blank));
    assert!(matches!(parse_command(":quit"), Command::Quit));
    assert!(matches!(parse_command("  :q  "), Command::Quit));
    assert!(matches!(parse_command(":full"), Command::Full));
    assert!(matches!(parse_command(":digits\n"), Command::Digits));
    match parse_command(":save   out.txt  ") {
        Command::Save(p) => assert_eq!(p, "out.txt"),
        other => panic!("{other:?}"),
    }
    match parse_command(" :dump big.txt") {
        Command::Dump(p) => assert_eq!(p, "big.txt"),
        other => panic!("{other:?}"),
    }
    assert_eq!(eval_text(parse_command(" 2 + 2 ")), Some("2 + 2".to_string()));
    assert_eq!(eval_text(parse_command(":save")), Some(":save".to_string()));
    assert_eq!(eval_text(parse_command(":quitx")), Some(":quitx".to_string()));
    assert_eq!(eval_text(parse_command(":Q")), Some(":Q".to_string()));
}

#[test]
fn session_steps() {
    let s = Session::new(None);
    let (s, a) = s.step(parse_command(":full"));
    assert!(matches!(a, Action::NoResult));
    let (s, a) = s.step(parse_command(":digits"));
    assert!(matches!(a, Action::NoResult));
    let (s, a) = s.step(parse_command(":dump f"));
    assert!(matches!(a, Action::NoResultToDump));
    let (s, a) = s.step(parse_command("1/0"));
    match a {
        Action::Evaluate(e, log) => {
            assert_eq!(e, "1/0");
            assert_eq!(log, None);
        }
        other => panic!("{other:?}"),
    }
    let s = s.evaluated(false);
    assert!(!s.has_last);
    let (s, a) = s.step(parse_command(":save log.txt"));
    match a {
        Action::StartLog(p) => assert_eq!(p, "log.txt"),
        other => panic!("{other:?}"),
    }
    assert_eq!(s.log_file, Some("log.txt".to_string()));
    let (s, a) = s.step(parse_command("2^10"));
    match a {
        Action::Evaluate(e, log) => {
            assert_eq!(e, "2^10");
            assert_eq!(log, Some("log.txt".to_string()));
        }
        other => panic!("{other:?}"),
    }
    let s = s.evaluated(true);
    assert!(s.has_last);
    let (s, a) = s.step(parse_command(":full"));
    match a {
        Action::ShowFull(log) => assert_eq!(log, Some("log.txt".to_string())),
        other => panic!("{other:?}"),
    }
    let (s, a) = s.step(parse_command(":dump out"));
    match a {
        Action::Dump(p) => assert_eq!(p, "out"),
        other => panic!("{other:?}"),
    }
    let (s, a) = s.step(parse_command(":digits"));
    assert!(matches!(a, Action::ShowDigits));
    let (s, a) = s.step(parse_command("   "));
    assert!(matches!(a, Action::Nothing));
    let s = s.evaluated(false);
    assert!(s.has_last);
    let (_, a) = s.step(parse_command(":q"));
    assert!(matches!(a, Action::Quit));
}

#[test]
fn digit_reports() {
    assert_eq!(digits_report(4, Some(4)), "4 digits");
    assert_eq!(digits_report(20, None), "~20 digits");
    assert_eq!(digits_report(10_000, Some(9_999)), "9999 digits");
    assert_eq!(digits_report(10_001, Some(10_001)), "~10001 digits (approximate)");
    assert_eq!(digits_report(301_030, None), "~301030 digits (approximate)");
}

#[test]
fn integer_text_reads_back() {
    for x in [0i64, 7, -7, 10, -1000, i64::MAX, i64::MIN] {
        let text = BigInt::from_i64(x).to_decimal();
        assert_eq!(text.parse::<i64>().unwrap(), x);
    }
}
