use pico_th_collector::commands::{
    parse_command, parse_delay_args, parse_get_args, Command, CommandArgs, DELAY_COMMAND_FORMAT,
    GET_COMMAND_FORMAT,
};
use pico_th_collector::pico_interface::PORT_FORMAT_ERROR_MESSAGE;

fn args(list: &[&str]) -> Vec<String> {
    list.iter().map(|s| s.to_string()).collect()
}

fn usage(format: &str) -> String {
    format!("        expected args:\n            {}\n    pass 'help' for optional command list", format)
}

#[test]
fn get_without_port() {
    match parse_get_args(&args(&[])) {
        Err(e) => assert_eq!(
            e,
            format!("Missing port argument: \n{}{}", usage(GET_COMMAND_FORMAT), PORT_FORMAT_ERROR_MESSAGE)
        ),
        Ok(_) => panic!("expected an error"),
    }
}

#[test]
fn get_help() {
    assert!(matches!(parse_get_args(&args(&["help"])), Ok(CommandArgs::Help)));
    assert!(matches!(parse_get_args(&args(&["--help", "x"])), Ok(CommandArgs::Help)));
}

#[test]
fn get_without_file() {
    match parse_get_args(&args(&["COM3"])) {
        Err(e) => assert_eq!(e, format!("Missing file argument: \n{}", usage(GET_COMMAND_FORMAT))),
        Ok(_) => panic!("expected an error"),
    }
}

#[test]
fn get_defaults() {
    match parse_get_args(&args(&["COM3", "out.csv"])) {
        Ok(CommandArgs::Run(o)) => {
            assert_eq!(o.port, "COM3");
            assert_eq!(o.save_file, "out.csv");
            assert!(!o.use_previous_time_offset);
            assert_eq!(o.extra_time_offset, 0);
        },
        _ => panic!("expected options"),
    }
}

#[test]
fn get_options_in_any_case() {
    match parse_get_args(&args(&["/dev/rfcomm0", "a.csv", "--UsePrev", "--USEOFFSET", "3600"])) {
        Ok(CommandArgs::Run(o)) => {
            assert!(o.use_previous_time_offset);
            assert_eq!(o.extra_time_offset, 3600);
        },
        _ => panic!("expected options"),
    }
}

#[test]
fn get_option_errors() {
    match parse_get_args(&args(&["p", "f", "--useoffset"])) {
        Err(e) => assert_eq!(e, "No offset supplied with --useoffset: \n    should be: --useoffset [offset]\n"),
        Ok(_) => panic!("expected an error"),
    }
    match parse_get_args(&args(&["p", "f", "--useoffset", "-5"])) {
        Err(e) => assert_eq!(e, "arg Supplied with --useoffset is not a valid u32 number: \n"),
        Ok(_) => panic!("expected an error"),
    }
    match parse_get_args(&args(&["p", "f", "--Bogus"])) {
        Err(e) => assert_eq!(e, "unknown optional arg supplied: --Bogus\n    pass 'help' for optional command list"),
        Ok(_) => panic!("expected an error"),
    }
}

#[test]
fn delay_arguments() {
    match parse_delay_args(&args(&[])) {
        Err(e) => assert_eq!(
            e,
            format!("Missing port argument: \n{}{}", usage(DELAY_COMMAND_FORMAT), PORT_FORMAT_ERROR_MESSAGE)
        ),
        Ok(_) => panic!("expected an error"),
    }
    assert!(matches!(parse_delay_args(&args(&["help"])), Ok(CommandArgs::Help)));
    match parse_delay_args(&args(&["COM3"])) {
        Ok(CommandArgs::Run(o)) => {
            assert_eq!(o.port, "COM3");
            assert_eq!(o.set_time, 0);
        },
        _ => panic!("expected options"),
    }
    match parse_delay_args(&args(&["COM3", "--SET", "255"])) {
        Ok(CommandArgs::Run(o)) => assert_eq!(o.set_time, 255),
        _ => panic!("expected options"),
    }
    match parse_delay_args(&args(&["COM3", "--set", "256"])) {
        Err(e) => assert_eq!(e, "arg Supplied with --set is not a valid u8 number: \n"),
        Ok(_) => panic!("expected an error"),
    }
    match parse_delay_args(&args(&["COM3", "--set"])) {
        Err(e) => assert_eq!(e, "No offset supplied with --set: \n    should be: --set [delay in seconds]\n"),
        Ok(_) => panic!("expected an error"),
    }
    match parse_delay_args(&args(&["COM3", "--useprev"])) {
        Err(e) => assert_eq!(e, "unknown optional arg supplied: --useprev\n    pass 'help' for optional command list"),
        Ok(_) => panic!("expected an error"),
    }
}

#[test]
fn command_names() {
    assert!(matches!(parse_command("get"), Some(Command::Get)));
    assert!(matches!(parse_command("GET"), Some(Command::Get)));
    assert!(matches!(parse_command("Delay"), Some(Command::Delay)));
    assert!(matches!(parse_command("help"), Some(Command::Help)));
    assert!(matches!(parse_command("--HELP"), Some(Command::Help)));
    assert!(parse_command("fetch").is_none());
}
