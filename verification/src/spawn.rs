//! What goes to a spawn strategy and what comes back from it.
use vstd::prelude::*;
use vstd::string::*;
use crate::digest::Digest;
use crate::error::{Error, ErrorView};
use crate::order;
use crate::string_map::StringMap;
use crate::text;

verus! {

/// One input of a spawn: its path and its bytes.
#[derive(PartialEq, Eq, Debug)]
pub struct InputArtifact {
    pub path: String,
    pub content: Vec<u8>,
}

/// What an [`InputArtifact`] stands for.
pub struct InputArtifactView {
    pub path: Seq<char>,
    pub content: Seq<u8>,
}

impl View for InputArtifact {
    type V = InputArtifactView;

    open spec fn view(&self) -> InputArtifactView {
        InputArtifactView { path: self.path@, content: self.content@ }
    }
}

/// What a strategy has to run: the environment is the declared one and nothing else.
#[derive(PartialEq, Eq, Debug)]
pub struct SpawnRequest {
    pub mnemonic: String,
    pub argv: Vec<String>,
    pub env: StringMap,
    pub inputs: Vec<InputArtifact>,
    pub outputs: Vec<String>,
}

/// What a [`SpawnRequest`] stands for.
pub struct SpawnRequestView {
    pub mnemonic: Seq<char>,
    pub argv: Seq<Seq<char>>,
    pub env: Seq<(Seq<char>, Seq<char>)>,
    pub inputs: Seq<InputArtifactView>,
    pub outputs: Seq<Seq<char>>,
}

impl View for SpawnRequest {
    type V = SpawnRequestView;

    open spec fn view(&self) -> SpawnRequestView {
        SpawnRequestView {
            mnemonic: self.mnemonic@,
            argv: text::texts(self.argv@),
            env: self.env@,
            inputs: order::views(self.inputs@),
            outputs: text::texts(self.outputs@),
        }
    }
}

/// One file that a spawn produced: its path, its bytes and their digest.
#[derive(PartialEq, Eq, Debug)]
pub struct SpawnOutput {
    pub path: String,
    pub content: Vec<u8>,
    pub digest: Digest,
}

/// What a [`SpawnOutput`] stands for.
pub struct SpawnOutputView {
    pub path: Seq<char>,
    pub content: Seq<u8>,
    pub digest: Seq<char>,
}

impl View for SpawnOutput {
    type V = SpawnOutputView;

    open spec fn view(&self) -> SpawnOutputView {
        SpawnOutputView { path: self.path@, content: self.content@, digest: self.digest@ }
    }
}

/// What a spawn ended with: its exit code and what it produced.
#[derive(PartialEq, Eq, Debug)]
pub struct SpawnResult {
    pub code: i32,
    pub outputs: Vec<SpawnOutput>,
}

/// What a [`SpawnResult`] stands for.
pub struct SpawnResultView {
    pub code: i32,
    pub outputs: Seq<SpawnOutputView>,
}

impl View for SpawnResult {
    type V = SpawnResultView;

    open spec fn view(&self) -> SpawnResultView {
        SpawnResultView { code: self.code, outputs: order::views(self.outputs@) }
    }
}

/// How a strategy, or the check of what it produced, can fail.
#[allow(inconsistent_fields)]
#[derive(PartialEq, Eq, Debug)]
pub enum ExecError {
    /// A declared output that was not produced.
    OutputNotProduced { mnemonic: String, path: String },
    /// A declared input that was not there.
    MissingInput { mnemonic: String, path: String },
    /// The spawn itself failed.
    SpawnFailed { mnemonic: String, detail: String },
    /// Something that the strategy does not support.
    Unsupported { what: &'static str, detail: String },
    /// Any other failure, by its description.
    Other { description: String },
}

/// What an [`ExecError`] says.
pub enum ExecErrorView {
    OutputNotProduced { mnemonic: Seq<char>, path: Seq<char> },
    MissingInput { mnemonic: Seq<char>, path: Seq<char> },
    SpawnFailed { mnemonic: Seq<char>, detail: Seq<char> },
    Unsupported { what: Seq<char>, detail: Seq<char> },
    Other { description: Seq<char> },
}

impl View for ExecError {
    type V = ExecErrorView;

    open spec fn view(&self) -> ExecErrorView {
        match *self {
            ExecError::OutputNotProduced { mnemonic, path } => ExecErrorView::OutputNotProduced {
                mnemonic: mnemonic@,
                path: path@,
            },
            ExecError::MissingInput { mnemonic, path } => ExecErrorView::MissingInput {
                mnemonic: mnemonic@,
                path: path@,
            },
            ExecError::SpawnFailed { mnemonic, detail } => ExecErrorView::SpawnFailed {
                mnemonic: mnemonic@,
                detail: detail@,
            },
            ExecError::Unsupported { what, detail } => ExecErrorView::Unsupported {
                what: what@,
                detail: detail@,
            },
            ExecError::Other { description } => ExecErrorView::Other { description: description@ },
        }
    }
}

/// The failure of a node for a failure of a strategy. An output that was not produced is an invalid
/// result of the action; `InputMissing` is kept for declared inputs; and no failure is swallowed.
pub open spec fn mapped_exec(e: ExecErrorView) -> ErrorView {
    match e {
        ExecErrorView::OutputNotProduced { mnemonic, path } => ErrorView::Invalid {
            what: "declared action output not produced"@,
            detail: mnemonic + ": "@ + path,
        },
        ExecErrorView::MissingInput { mnemonic, path } => ErrorView::InputMissing {
            what: "declared action input"@,
            detail: mnemonic + ": "@ + path,
        },
        ExecErrorView::SpawnFailed { mnemonic, detail } => ErrorView::Invalid {
            what: "spawn"@,
            detail: mnemonic + ": "@ + detail,
        },
        ExecErrorView::Unsupported { what, detail } => ErrorView::Unsupported { what, detail },
        ExecErrorView::Other { description } => ErrorView::Invalid {
            what: "exec"@,
            detail: description,
        },
    }
}

/// `head`, a colon and a space, and `tail`.
fn labelled(head: String, tail: &str) -> (r: String)
    ensures
        r@ == head@ + ": "@ + tail@,
{
    let mut r = head;
    r.append(": ");
    r.append(tail);
    r
}

/// The failure of a node for a failure of a strategy.
pub fn map_exec(e: ExecError) -> (r: Error)
    ensures
        r@ == mapped_exec(e@),
{
    match e {
        ExecError::OutputNotProduced { mnemonic, path } => Error::Invalid {
            what: "declared action output not produced".to_owned(),
            detail: labelled(mnemonic, path.as_str()),
        },
        ExecError::MissingInput { mnemonic, path } => Error::InputMissing {
            what: "declared action input".to_owned(),
            detail: labelled(mnemonic, path.as_str()),
        },
        ExecError::SpawnFailed { mnemonic, detail } => Error::Invalid {
            what: "spawn".to_owned(),
            detail: labelled(mnemonic, detail.as_str()),
        },
        ExecError::Unsupported { what, detail } => Error::Unsupported { what, detail },
        ExecError::Other { description } => Error::Invalid {
            what: "exec".to_owned(),
            detail: description,
        },
    }
}

/// Requests, results and what they hold are seen as their fields.
pub proof fn law_spawns_are_their_fields(
    i: InputArtifact,
    q: SpawnRequest,
    o: SpawnOutput,
    r: SpawnResult,
)
    ensures
        i@.path == i.path@ && i@.content == i.content@,
        q@.mnemonic == q.mnemonic@ && q@.env == q.env@,
        q@.argv.len() == q.argv@.len() && q@.inputs.len() == q.inputs@.len(),
        q@.outputs.len() == q.outputs@.len(),
        forall|n: int| 0 <= n < q.argv@.len() ==> #[trigger] q@.argv[n] == q.argv@[n]@,
        forall|n: int| 0 <= n < q.inputs@.len() ==> #[trigger] q@.inputs[n] == q.inputs@[n]@,
        forall|n: int| 0 <= n < q.outputs@.len() ==> #[trigger] q@.outputs[n] == q.outputs@[n]@,
        o@.path == o.path@ && o@.content == o.content@ && o@.digest == o.digest.hex@,
        r@.code == r.code && r@.outputs.len() == r.outputs@.len(),
        forall|n: int| 0 <= n < r.outputs@.len() ==> #[trigger] r@.outputs[n] == r.outputs@[n]@,
{
}

/// No failure of a strategy is swallowed, and only a missing input is an `InputMissing`: an output that
/// was not produced, a failed spawn and any other failure are `Invalid`, what is not supported stays
/// `Unsupported`, and each carries the texts of the failure.
pub proof fn law_exec_failures_stay_failures(
    mnemonic: Seq<char>,
    path: Seq<char>,
    what: Seq<char>,
    detail: Seq<char>,
)
    ensures
        mapped_exec(ExecErrorView::OutputNotProduced { mnemonic, path }) == (ErrorView::Invalid {
            what: "declared action output not produced"@,
            detail: mnemonic + ": "@ + path,
        }),
        mapped_exec(ExecErrorView::MissingInput { mnemonic, path }) == (ErrorView::InputMissing {
            what: "declared action input"@,
            detail: mnemonic + ": "@ + path,
        }),
        mapped_exec(ExecErrorView::SpawnFailed { mnemonic, detail }) == (ErrorView::Invalid {
            what: "spawn"@,
            detail: mnemonic + ": "@ + detail,
        }),
        mapped_exec(ExecErrorView::Unsupported { what, detail }) == (ErrorView::Unsupported {
            what,
            detail,
        }),
        mapped_exec(ExecErrorView::Other { description: detail }) == (ErrorView::Invalid {
            what: "exec"@,
            detail,
        }),
{
}

/// A failure of a strategy is seen as what it is: its kind and its texts.
pub proof fn law_exec_error_keeps_kind_and_texts(e: ExecError)
    ensures
        match e {
            ExecError::OutputNotProduced { mnemonic, path } => e@ == (
            ExecErrorView::OutputNotProduced { mnemonic: mnemonic@, path: path@ }),
            ExecError::MissingInput { mnemonic, path } => e@ == (ExecErrorView::MissingInput {
                mnemonic: mnemonic@,
                path: path@,
            }),
            ExecError::SpawnFailed { mnemonic, detail } => e@ == (ExecErrorView::SpawnFailed {
                mnemonic: mnemonic@,
                detail: detail@,
            }),
            ExecError::Unsupported { what, detail } => e@ == (ExecErrorView::Unsupported {
                what: what@,
                detail: detail@,
            }),
            ExecError::Other { description } => e@ == (ExecErrorView::Other {
                description: description@,
            }),
        },
{
}

} // verus!
