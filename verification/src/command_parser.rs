//! The command line: one source file, an optional `-o <stem>`, and whatever
//! follows `--`.

use vstd::prelude::*;
use vstd::string::*;
use crate::text::str_eq;

verus! {

/// Why a command line was refused.
#[derive(Debug, Clone, Copy, PartialEq, Eq, Structural)]
pub enum CommandError {
    /// `-o` is the last argument.
    FlagExpectsArgument,
    /// `-o` stands twice.
    MultipleOutputs,
    /// Argument `index` is a flag that is not known.
    UnknownFlag { index: usize },
    /// Two arguments name a source file.
    MultipleInputs,
    /// No argument names a source file.
    NoFileGiven,
}

/// What a command line asks for.
#[derive(Debug)]
pub struct CommandResult {
    /// The source file.
    pub file: String,
    /// The stem of the files to write.
    pub output_file: String,
    /// The arguments behind `--`.
    pub command_line_args: Vec<String>,
    pub program_name: String,
}

pub open spec fn texts(args: Seq<String>) -> Seq<Seq<char>> {
    Seq::new(args.len(), |i: int| args[i]@)
}

pub open spec fn is_flag(arg: Seq<char>) -> bool {
    arg.len() > 0 && arg[0] == '-'
}

/// The end of the options: the source file must be known by then, and the
/// stem is `output` where none was given. `rest` is the place of the first
/// argument that is handed on.
pub open spec fn finished(file: Option<Seq<char>>, output: Option<Seq<char>>, rest: int) -> Result<
    (Seq<char>, Seq<char>, int),
    CommandError,
> {
    match file {
        Some(file) => Ok(
            (
                file,
                match output {
                    Some(stem) => stem,
                    None => "output"@,
                },
                rest,
            ),
        ),
        None => Err(CommandError::NoFileGiven),
    }
}

/// What the arguments from place `i` on ask for, where `file` and `output` are
/// what the arguments before asked for: the source file, the stem, and the
/// place of the first argument behind `--`.
pub open spec fn parsed_from(
    args: Seq<Seq<char>>,
    i: int,
    file: Option<Seq<char>>,
    output: Option<Seq<char>>,
) -> Result<(Seq<char>, Seq<char>, int), CommandError>
    decreases args.len() - i,
{
    if i < 0 || i >= args.len() {
        finished(file, output, args.len() as int)
    } else if is_flag(args[i]) {
        let flag = args[i].skip(1);
        if flag == "o"@ {
            if i + 1 >= args.len() {
                Err(CommandError::FlagExpectsArgument)
            } else if output is Some {
                Err(CommandError::MultipleOutputs)
            } else {
                parsed_from(args, i + 2, file, Some(args[i + 1]))
            }
        } else if flag == "-"@ {
            finished(file, output, i + 1)
        } else {
            Err(CommandError::UnknownFlag { index: i as usize })
        }
    } else if file is Some {
        Err(CommandError::MultipleInputs)
    } else {
        parsed_from(args, i + 1, Some(args[i]), output)
    }
}

/// The text that tells how the program is called.
pub open spec fn usage_text(program: Seq<char>) -> Seq<char> {
    "usage: "@ + program + " [OPTIONS] <file.zila>\n"@ + "  OPTIONS:\n"@
        + "    -o <file>       Sets the name of the output assembly, object file, and executable\n"@
}

/// The text that tells how the program is called.
pub fn usage(program: &str) -> (text: String)
    ensures
        text@ == usage_text(program@),
{
    let mut text = String::new();
    text.append("usage: ");
    text.append(program);
    text.append(" [OPTIONS] <file.zila>\n");
    text.append("  OPTIONS:\n");
    text.append(
        "    -o <file>       Sets the name of the output assembly, object file, and executable\n",
    );
    assert(text@ =~= usage_text(program@));
    text
}

/// Reads a command line, argument by argument.
pub struct CommandParser {
    pub args: Vec<String>,
    pub position: usize,
    pub file: Option<String>,
    pub output_file: Option<String>,
    pub program_name: String,
}

pub open spec fn text_of(value: Option<String>) -> Option<Seq<char>> {
    match value {
        Some(text) => Some(text@),
        None => None,
    }
}

impl CommandParser {
    /// A parser for `args`, whose first argument is the name of the program.
    pub fn new(args: Vec<String>) -> (parser: Self)
        requires
            args@.len() > 0,
        ensures
            parser.args == args,
            parser.position == 1,
            parser.file is None,
            parser.output_file is None,
            parser.program_name@ == args@[0]@,
    {
        let program_name = args[0].clone();
        Self { args, position: 1, file: None, output_file: None, program_name }
    }

    fn make_default(self, file: String, rest: usize) -> (result: CommandResult)
        requires
            rest <= self.args@.len(),
        ensures
            result.file == file,
            result.output_file@ == (match text_of(self.output_file) {
                Some(stem) => stem,
                None => "output"@,
            }),
            texts(result.command_line_args@) == texts(self.args@).skip(rest as int),
            result.program_name == self.program_name,
    {
        let output_file = match self.output_file {
            Some(stem) => stem,
            None => String::from_str("output"),
        };
        let mut command_line_args: Vec<String> = Vec::new();
        let mut i: usize = rest;
        while i < self.args.len()
            invariant
                rest <= i <= self.args@.len(),
                command_line_args@.len() == i - rest,
                forall|k: int|
                    0 <= k < command_line_args@.len() ==> #[trigger] command_line_args@[k]@
                        == self.args@[rest + k]@,
            decreases self.args@.len() - i,
        {
            command_line_args.push(self.args[i].clone());
            i = i + 1;
        }
        assert(texts(command_line_args@) =~= texts(self.args@).skip(rest as int));
        CommandResult { file, output_file, command_line_args, program_name: self.program_name }
    }

    /// Reads the arguments that are left.
    pub fn parse_commands(self) -> (result: Result<CommandResult, CommandError>)
        requires
            1 <= self.position <= self.args@.len(),
        ensures
            match parsed_from(
                texts(self.args@),
                self.position as int,
                text_of(self.file),
                text_of(self.output_file),
            ) {
                Ok((file, stem, rest)) => result is Ok && result->Ok_0.file@ == file
                    && result->Ok_0.output_file@ == stem && texts(result->Ok_0.command_line_args@)
                    == texts(self.args@).skip(rest) && result->Ok_0.program_name
                    == self.program_name,
                Err(error) => result == Err::<CommandResult, CommandError>(error),
            },
    {
        let mut parser = self;
        let ghost all = texts(self.args@);
        let ghost goal = parsed_from(
            all,
            self.position as int,
            text_of(self.file),
            text_of(self.output_file),
        );
        assert(all.len() == self.args@.len());
        let length = parser.args.len();
        let mut rest = length;
        while parser.position < length
            invariant_except_break
                rest == length,
                goal == parsed_from(
                    all,
                    parser.position as int,
                    text_of(parser.file),
                    text_of(parser.output_file),
                ),
            invariant
                parser.args == self.args,
                parser.program_name == self.program_name,
                length == self.args@.len(),
                all == texts(self.args@),
                all.len() == length,
                1 <= parser.position <= length,
                goal == parsed_from(
                    all,
                    self.position as int,
                    text_of(self.file),
                    text_of(self.output_file),
                ),
            ensures
                parser.args == self.args,
                parser.program_name == self.program_name,
                rest <= length,
                goal == finished(text_of(parser.file), text_of(parser.output_file), rest as int),
            decreases length - parser.position,
        {
            let i = parser.position;
            assert(all[i as int] == parser.args@[i as int]@);
            let key = parser.args[i].as_str();
            let width = key.unicode_len();
            if width > 0 && key.get_char(0) == '-' {
                let flag = key.substring_char(1, width);
                assert(flag@ =~= all[i as int].skip(1));
                if str_eq(flag, "o") {
                    if i + 1 >= length {
                        return Err(CommandError::FlagExpectsArgument);
                    }
                    if parser.output_file.is_some() {
                        return Err(CommandError::MultipleOutputs);
                    }
                    assert(all[i + 1] == parser.args@[i + 1]@);
                    parser.output_file = Some(parser.args[i + 1].clone());
                    parser.position = i + 2;
                } else if str_eq(flag, "-") {
                    rest = i + 1;
                    break;
                } else {
                    return Err(CommandError::UnknownFlag { index: i });
                }
            } else {
                if parser.file.is_some() {
                    return Err(CommandError::MultipleInputs);
                }
                parser.file = Some(parser.args[i].clone());
                parser.position = i + 1;
            }
        }
        match parser.file {
            Some(ref file) => {
                let file = file.clone();
                Ok(parser.make_default(file, rest))
            },
            None => Err(CommandError::NoFileGiven),
        }
    }
}

} // verus!
