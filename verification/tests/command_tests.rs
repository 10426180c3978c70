use kona_rs::command::{parse_command, parse_i64, parse_usize, split_fields, SwarmCommand};

#[test]
fn fields_split_at_whitespace() {
    assert_eq!(split_fields("  set_pieces\t12  "), vec!["set_pieces", "12"]);
    assert_eq!(split_fields(""), Vec::<String>::new());
    assert_eq!(split_fields(" \n"), Vec::<String>::new());
    assert_eq!(split_fields("a\u{3000}b\u{a0}c\u{85}d"), vec!["a", "b", "c", "d"]);
    assert_eq!(split_fields("a\u{200b}b"), vec!["a\u{200b}b"]);
}

#[test]
fn numbers_read_as_parse_does() {
    assert_eq!(parse_usize("12"), Some(12));
    assert_eq!(parse_usize("+7"), Some(7));
    assert_eq!(parse_usize("-1"), None);
    assert_eq!(parse_usize(""), None);
    assert_eq!(parse_usize("+"), None);
    assert_eq!(parse_usize("1x"), None);
    assert_eq!(parse_usize("18446744073709551615"), Some(usize::MAX));
    assert_eq!(parse_usize("18446744073709551616"), None);
    assert_eq!(parse_i64("-9223372036854775808"), Some(i64::MIN));
    assert_eq!(parse_i64("9223372036854775807"), Some(i64::MAX));
    assert_eq!(parse_i64("9223372036854775808"), None);
    assert_eq!(parse_i64("-0"), Some(0));
    assert_eq!(parse_i64("-"), None);
    assert_eq!(parse_i64("+3"), Some(3));
}

#[test]
fn commands_are_recognised_without_case() {
    assert!(matches!(parse_command("\n"), SwarmCommand::Blank));
    assert!(matches!(parse_command("Quit\n"), SwarmCommand::Exit));
    assert!(matches!(parse_command("exit"), SwarmCommand::Exit));
    assert!(matches!(parse_command("HELP"), SwarmCommand::Help));
    assert!(matches!(parse_command("status extra"), SwarmCommand::Status));
    assert!(matches!(parse_command("query"), SwarmCommand::Query));
    assert!(matches!(parse_command("bench"), SwarmCommand::Bench));
    assert!(matches!(parse_command("swarm"), SwarmCommand::Swarm));
}

#[test]
fn command_arguments_are_read() {
    assert!(matches!(parse_command("select"), SwarmCommand::Select(None)));
    match parse_command("select Rarest") {
        SwarmCommand::Select(Some(s)) => assert_eq!(s, "Rarest"),
        _ => panic!("expected select"),
    }
    assert!(matches!(parse_command("set_pieces"), SwarmCommand::SetPieces(None)));
    assert!(matches!(parse_command("set_pieces ten"), SwarmCommand::SetPieces(Some(None))));
    assert!(matches!(parse_command("  SET_PIECES 12 "), SwarmCommand::SetPieces(Some(Some(12)))));
    assert!(matches!(parse_command("set_seeders 0"), SwarmCommand::SetSeeders(Some(Some(0)))));
    assert!(matches!(parse_command("set_priority 3"), SwarmCommand::SetPriority(None)));
    assert!(matches!(parse_command("set_priority 3 x"), SwarmCommand::SetPriority(Some((Some(3), None)))));
    assert!(matches!(parse_command("set_client -1 1"), SwarmCommand::SetClient(Some((None, Some(1))))));
    match parse_command("Frob 1") {
        SwarmCommand::Unknown(s) => assert_eq!(s, "frob"),
        _ => panic!("expected an unknown command"),
    }
}
