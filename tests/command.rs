use csv_frame::command::{exec, parse_command, parse_filter, parse_instruction, CommandError, ExecError, ParsedCommand, Slice};
use csv_frame::frame::{Frame, FrameError};

#[test]
fn command() {
    let (tail, command) = parse_instruction("Filter Type 1 = Fire").unwrap();
    let ret = match command.as_str() {
        "Filter" => parse_filter(&tail).unwrap().1,
        _ => ParsedCommand::Average,
    };
    assert_eq!(ret, ParsedCommand::EqualFilter("Type 1".to_string(), "Fire".to_string()));
}

#[test]
fn err() {
    let res = parse_instruction("NoCommand Type 1 = Fire");
    let err = Err(CommandError { input: "NoCommand Type 1 = Fire".to_string() });
    assert_eq!(res, err);
}

#[test]
fn only_equality_is_accepted() {
    assert!(parse_command("Filter Type 1 < 3").is_err());
    assert!(parse_command("Filter Type 1 > 3").is_err());
    assert!(parse_command("Average Type 1").is_err());
    assert!(parse_command("Filter Type=Fire").is_err());
    assert_eq!(
        parse_command("Filter   Name = Jolteon"),
        Ok(ParsedCommand::EqualFilter("Name".to_string(), "Jolteon".to_string()))
    );
}

#[test]
fn exec_builds_a_filter() {
    let mut frame = Frame::new();
    let rest = frame.append(b"Type 1,Name\nFire,A\nWater,B\n", true, &[]);
    frame.append_remainder(&rest);
    match exec("Filter Type 1 = Water", &frame) {
        Ok(Slice::FilterSlice(f)) => assert_eq!(f.to_bools(), vec![false, true]),
        Err(e) => panic!("{:?}", e),
    }
    assert!(matches!(exec("Sum x", &frame), Err(ExecError::CannotParse)));
    assert!(matches!(exec("Filter Kind = Fire", &frame), Err(ExecError::Frame(FrameError::NoSuchColumn))));
}
