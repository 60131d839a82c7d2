//! What a command left behind when it ended.
use vstd::prelude::*;

verus! {

/// How a command ended and what it printed.
pub struct Output {
    pub success: bool,
    pub stdout: Vec<u8>,
    pub stderr: Vec<u8>,
}

/// What an [`Output`] says.
pub struct OutputView {
    pub success: bool,
    pub stdout: Seq<u8>,
    pub stderr: Seq<u8>,
}

impl View for Output {
    type V = OutputView;

    open spec fn view(&self) -> OutputView {
        OutputView { success: self.success, stdout: self.stdout@, stderr: self.stderr@ }
    }
}

/// The output of a command, or the error that kept it from running.
pub open spec fn output_view(
    output: Result<Output, String>,
) -> Result<OutputView, Seq<char>> {
    match output {
        Ok(output) => Ok(output@),
        Err(error) => Err(error@),
    }
}

} // verus!
