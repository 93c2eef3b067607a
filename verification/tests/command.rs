use zila::command_parser::{usage, CommandError, CommandParser, CommandResult};

fn parse(args: &[&str]) -> Result<CommandResult, CommandError> {
    let args: Vec<String> = args.iter().map(|a| a.to_string()).collect();
    CommandParser::new(args).parse_commands()
}

#[test]
fn source_alone() {
    let result = parse(&["zila", "main.zila"]).unwrap();
    assert_eq!(result.file, "main.zila");
    assert_eq!(result.output_file, "output");
    assert!(result.command_line_args.is_empty());
    assert_eq!(result.program_name, "zila");
}

#[test]
fn output_stem() {
    let result = parse(&["zila", "-o", "prog", "main.zila"]).unwrap();
    assert_eq!(result.file, "main.zila");
    assert_eq!(result.output_file, "prog");
    let result = parse(&["zila", "main.zila", "-o", "-o"]).unwrap();
    assert_eq!(result.output_file, "-o");
}

#[test]
fn rest_behind_double_dash() {
    let result = parse(&["zila", "main.zila", "--", "-o", "x", "y"]).unwrap();
    assert_eq!(result.file, "main.zila");
    assert_eq!(result.output_file, "output");
    assert_eq!(result.command_line_args, vec!["-o", "x", "y"]);
    let result = parse(&["zila", "main.zila", "--"]).unwrap();
    assert!(result.command_line_args.is_empty());
}

#[test]
fn refusals() {
    assert_eq!(parse(&["zila"]).unwrap_err(), CommandError::NoFileGiven);
    assert_eq!(parse(&["zila", "-o", "x"]).unwrap_err(), CommandError::NoFileGiven);
    assert_eq!(parse(&["zila", "--", "a.zila"]).unwrap_err(), CommandError::NoFileGiven);
    assert_eq!(
        parse(&["zila", "a.zila", "-o"]).unwrap_err(),
        CommandError::FlagExpectsArgument
    );
    assert_eq!(
        parse(&["zila", "-o", "x", "a.zila", "-o", "y"]).unwrap_err(),
        CommandError::MultipleOutputs
    );
    assert_eq!(
        parse(&["zila", "a.zila", "b.zila"]).unwrap_err(),
        CommandError::MultipleInputs
    );
    assert_eq!(
        parse(&["zila", "a.zila", "-x"]).unwrap_err(),
        CommandError::UnknownFlag { index: 2 }
    );
    assert_eq!(
        parse(&["zila", "-", "a.zila"]).unwrap_err(),
        CommandError::UnknownFlag { index: 1 }
    );
    assert_eq!(
        parse(&["zila", "-oo", "a.zila"]).unwrap_err(),
        CommandError::UnknownFlag { index: 1 }
    );
}

#[test]
fn the_first_refusal_wins() {
    assert_eq!(
        parse(&["zila", "a", "-x", "b"]).unwrap_err(),
        CommandError::UnknownFlag { index: 2 }
    );
    assert_eq!(
        parse(&["zila", "a", "b", "-x"]).unwrap_err(),
        CommandError::MultipleInputs
    );
    assert_eq!(
        parse(&["zila", "-o", "x", "-o"]).unwrap_err(),
        CommandError::FlagExpectsArgument
    );
}

#[test]
fn usage_text() {
    assert_eq!(
        usage("zila"),
        "usage: zila [OPTIONS] <file.zila>\n  OPTIONS:\n    -o <file>       Sets the name of the output assembly, object file, and executable\n"
    );
}
