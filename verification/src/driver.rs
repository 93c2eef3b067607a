//! The compiler from the words of a program to its assembly: analysis, then
//! lowering, then code generation. The first stage that fails ends it.

use vstd::prelude::*;
use crate::analyzer::infer::{Analyzer, CompileError, Failure, analyzed};
use crate::compiler::{Compiler, Instruction, LowerError, lemma_lowered_linked, lowered};
use crate::lexer::Word;
use crate::x86_64gen::{
    GenerateError, Generator, generated, lemma_fault_is_division, strings_known,
};

verus! {

/// Why no assembly was made of a program.
#[derive(Debug)]
pub enum BuildError<'src> {
    /// The analysis failed.
    Analysis(CompileError<'src>),
    /// The program was analysed, but could not be lowered.
    Lowering(LowerError),
    /// The program was lowered, but could not be rendered.
    Generation(GenerateError),
}

/// The mathematical model of a [`BuildError`].
pub enum BuildFailure<'src> {
    Analysis(Failure<'src>),
    Lowering(LowerError),
    Generation(GenerateError),
}

impl<'src> BuildError<'src> {
    pub open spec fn model(&self) -> BuildFailure<'src> {
        match self {
            BuildError::Analysis(error) => BuildFailure::Analysis(error.model()),
            BuildError::Lowering(error) => BuildFailure::Lowering(*error),
            BuildError::Generation(error) => BuildFailure::Generation(*error),
        }
    }
}

/// The assembly of the program that `words` are, or the failure of the first
/// stage that fails.
pub open spec fn built<'src>(words: Seq<Word<'src>>) -> Result<Seq<char>, BuildFailure<'src>> {
    match analyzed(words) {
        Err(failure) => Err(BuildFailure::Analysis(failure)),
        Ok((_, items)) => match lowered::<'src>(items) {
            Err(error) => Err(BuildFailure::Lowering(error)),
            Ok(program) => match generated(program.procs, program.literals) {
                Err(error) => Err(BuildFailure::Generation(error)),
                Ok(text) => Ok(text),
            },
        },
    }
}

/// Compiles the program that `words` are to assembly.
pub fn compile<'src>(words: Vec<Word<'src>>) -> (result: Result<String, BuildError<'src>>)
    ensures
        match built(words@) {
            Ok(text) => result is Ok && result->Ok_0@ == text,
            Err(failure) => result is Err && result->Err_0.model() == failure,
        },
{
    let (_, items) = match Analyzer::analyze(words) {
        Ok(analysis) => analysis,
        Err(error) => {
            return Err(BuildError::Analysis(error));
        },
    };
    let (procs, literals) = match Compiler::compile(items) {
        Ok(program) => program,
        Err(error) => {
            return Err(BuildError::Lowering(error));
        },
    };
    match Generator::generate(procs.as_slice(), literals.as_slice()) {
        Ok(text) => Ok(text),
        Err(error) => Err(BuildError::Generation(error)),
    }
}

/// A program that was analysed and lowered is rendered unless it divides:
/// where code generation fails, it fails for a division, which has no code
/// sequence yet.
pub proof fn lemma_generation_fails_for_division<'src>(words: Seq<Word<'src>>)
    requires
        built(words) is Err,
        built(words)->Err_0 is Generation,
        lowered::<'src>(analyzed(words)->Ok_0.1)->Ok_0.fits(),
    ensures
        built(words)->Err_0->Generation_0 is Unimplemented,
{
    let items = analyzed(words)->Ok_0.1;
    let program = lowered::<'src>(items)->Ok_0;
    lemma_lowered_linked(items, program);
    assert forall|p: int| 0 <= p < program.procs.len() implies strings_known(
        (#[trigger] program.procs[p]).code,
        program.literals,
    ) by {
        assert forall|k: int| 0 <= k < program.procs[p].code.len() implies ((
        #[trigger] program.procs[p].code[k]).1 matches Instruction::PushString(index) ==> index
            < program.literals.len()) by {
            assert(program.links(program.procs[p].code[k].1));
        }
    }
    lemma_fault_is_division(program.procs, program.literals);
}

} // verus!
