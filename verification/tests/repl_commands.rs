use anise_orbit::repl::{parse_command, Command, Context};

#[test]
fn empty_lines() {
    assert!(matches!(parse_command(""), Command::Empty));
    assert!(matches!(parse_command("  \t "), Command::Empty));
}

#[test]
fn load_takes_the_second_word() {
    match parse_command("load de438s.bsp") {
        Command::Load(f) => assert_eq!(f, "de438s.bsp"),
        other => panic!("unexpected {:?}", other),
    }
    match parse_command("  load \t a.anise  extra") {
        Command::Load(f) => assert_eq!(f, "a.anise"),
        other => panic!("unexpected {:?}", other),
    }
    match parse_command("\u{3000}load\u{2003}x\u{85}") {
        Command::Load(f) => assert_eq!(f, "x"),
        other => panic!("unexpected {:?}", other),
    }
}

#[test]
fn write_and_unknown_commands() {
    assert!(matches!(parse_command("write"), Command::Write));
    assert!(matches!(parse_command(" write now"), Command::Write));
    assert!(matches!(parse_command("writes"), Command::Unknown));
    assert!(matches!(parse_command("loader x"), Command::Unknown));
    assert!(matches!(parse_command("Load x"), Command::Unknown));
}

#[test]
fn context_is_empty() {
    let _context = Context {};
}
