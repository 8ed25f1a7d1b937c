use adventurer::commands::{parse_command, Command};

#[test]
fn plain_verbs_parse() {
    assert!(matches!(parse_command("help"), Command::Help));
    assert!(matches!(parse_command("look"), Command::Look));
    assert!(matches!(parse_command("inventory"), Command::Inventory));
    assert!(matches!(parse_command("inv"), Command::Inventory));
    assert!(matches!(parse_command("save"), Command::Save));
    assert!(matches!(parse_command("load"), Command::Load));
    assert!(matches!(parse_command("quit"), Command::Quit));
    assert!(matches!(parse_command("exit"), Command::Quit));
}

#[test]
fn go_and_move_carry_the_direction() {
    match parse_command("go north") {
        Command::Go(d) => assert_eq!(d, "north"),
        _ => panic!("go should parse"),
    }
    match parse_command("move east") {
        Command::Go(d) => assert_eq!(d, "east"),
        _ => panic!("move is an alias of go"),
    }
}

#[test]
fn take_and_use_keep_multi_word_arguments() {
    match parse_command("take iron sword") {
        Command::Take(a) => assert_eq!(a, "iron sword"),
        _ => panic!("take should parse"),
    }
    match parse_command("use water flask") {
        Command::Use(a) => assert_eq!(a, "water flask"),
        _ => panic!("use should parse"),
    }
}

#[test]
fn input_is_trimmed_and_verbs_match_any_case() {
    assert!(matches!(parse_command("  LOOK  "), Command::Look));
    match parse_command("  Take   rusty key ") {
        Command::Take(a) => assert_eq!(a, "rusty key"),
        _ => panic!("take should parse"),
    }
    match parse_command("GO west") {
        Command::Go(d) => assert_eq!(d, "west"),
        _ => panic!("go should parse"),
    }
}

#[test]
fn unknown_input_comes_back_whole() {
    match parse_command("dance wildly") {
        Command::Unknown(s) => assert_eq!(s, "dance wildly"),
        _ => panic!("dance is not a verb"),
    }
    match parse_command("") {
        Command::Unknown(s) => assert_eq!(s, ""),
        _ => panic!("empty input is unknown"),
    }
}
