//! The pipeline executor's routing decision: after a stage runs, either its
//! standard output becomes the next stage's input, or the output is handed to
//! the writer under the stage's redirection. Redirecting standard output
//! cancels piping; redirecting standard error does not.

use vstd::prelude::*;

use crate::command::CmdInput;
use crate::command::CmdInputModel;
use crate::command::CmdOutput;
use crate::command::CmdOutputModel;
use crate::command::ExecutionOutput;
use crate::command::ExecutionOutputModel;
use crate::command::StdinPlanModel;
use crate::command::stdin_plan_of;
use crate::writer::Redirection;
use crate::writer::RedirectionModel;

verus! {

use vstd::utf8::encode_utf8;

/// Where a stage's output goes next.
pub enum StagePlan {
    /// Stash this as the next stage's standard input.
    PipeNext(CmdInput),
    /// Hand the output to the writer under the stage's redirection.
    Write(ExecutionOutput),
    /// Nothing flows on and nothing is written.
    Ignore,
}

/// Ghost form of a stage plan.
pub enum StagePlanModel {
    PipeNext(CmdInputModel),
    Write(ExecutionOutputModel),
    Ignore,
}

impl View for StagePlan {
    type V = StagePlanModel;

    open spec fn view(&self) -> StagePlanModel {
        match self {
            StagePlan::PipeNext(input) => StagePlanModel::PipeNext(input@),
            StagePlan::Write(out) => StagePlanModel::Write(out@),
            StagePlan::Ignore => StagePlanModel::Ignore,
        }
    }
}

/// Whether a stage's output may flow into a pipe: it wrote to standard
/// output only, and its standard output was not redirected to a file.
pub open spec fn may_pipe(output: ExecutionOutputModel, redirection: RedirectionModel) -> bool {
    &&& output.0 is Some
    &&& output.1 is None
    &&& !(redirection is Stdout)
}

/// The routing of one stage's output.
pub open spec fn stage_plan(
    output: ExecutionOutputModel,
    redirection: RedirectionModel,
    is_piped: bool,
) -> StagePlanModel {
    if is_piped && may_pipe(output, redirection) {
        match output.0->Some_0 {
            CmdOutputModel::Stdout(s) => StagePlanModel::PipeNext(CmdInputModel::Text(s)),
            CmdOutputModel::StdoutBytes(b) => StagePlanModel::PipeNext(CmdInputModel::Bytes(b)),
            CmdOutputModel::Stream => StagePlanModel::PipeNext(CmdInputModel::Pipe),
            _ => StagePlanModel::Ignore,
        }
    } else {
        StagePlanModel::Write(output)
    }
}

/// Decide where a stage's output goes: into the next stage's standard input
/// when the stage is not last, wrote only to standard output, and standard
/// output was not sent to a file; otherwise to the writer.
pub fn pipeline_step(output: ExecutionOutput, redirection: &Redirection, is_piped: bool) -> (r:
    StagePlan)
    ensures
        r@ == stage_plan(output@, redirection@, is_piped),
{
    let piping = is_piped && matches!(output.1, Option::None) && matches!(
        output.0,
        Option::Some(_),
    ) && !matches!(redirection, Redirection::Stdout { .. });
    if piping {
        let ExecutionOutput(stdout_slot, _) = output;
        match stdout_slot {
            Some(CmdOutput::Stdout(s)) => StagePlan::PipeNext(CmdInput::Text(s)),
            Some(CmdOutput::StdoutBytes(b)) => StagePlan::PipeNext(CmdInput::Bytes(b)),
            Some(CmdOutput::Stream) => StagePlan::PipeNext(CmdInput::Pipe),
            _ => StagePlan::Ignore,
        }
    } else {
        StagePlan::Write(output)
    }
}

/// Law: in `A | B` with `A` a built-in that wrote the text `T` to standard
/// output and no redirection of it, `B`'s standard input is exactly the bytes
/// of `T`: the stage plan pipes `T` on, and the spawn plan writes `T`'s bytes
/// into the child.
pub proof fn lemma_piped_text_becomes_stdin(text: Seq<char>, redirection: RedirectionModel)
    requires
        !(redirection is Stdout),
    ensures
        stage_plan(crate::command::stdout_only(text), redirection, true)
            == StagePlanModel::PipeNext(CmdInputModel::Text(text)),
        stdin_plan_of(Some(CmdInputModel::Text(text))) == StdinPlanModel::WriteBytes(
            encode_utf8(text),
        ),
{
}

/// Law: a stage whose standard output is redirected to a file never feeds the
/// next stage: its whole output goes to the writer, and the next stage's
/// standard input falls back to the terminal.
pub proof fn lemma_stdout_redirection_cancels_pipe(
    output: ExecutionOutputModel,
    file_path: Seq<char>,
    append: bool,
)
    ensures
        stage_plan(output, RedirectionModel::Stdout { file_path, append }, true)
            == StagePlanModel::Write(output),
        stdin_plan_of(None) == StdinPlanModel::Inherit,
        forall|text: Seq<char>|
            #[trigger] crate::writer::output_string_plan_spec(
                RedirectionModel::Stdout { file_path, append },
                text,
            ) == seq![
                crate::writer::WriteActionModel::FileWrite {
                    path: file_path,
                    append,
                    data: encode_utf8(text),
                    newline_if_nonempty: true,
                },
            ],
{
}

} // verus!
