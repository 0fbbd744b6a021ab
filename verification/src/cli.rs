//! The command-line surface, as plain data: the front end that reads the
//! actual arguments builds these values and hands them in.

use vstd::prelude::*;

verus! {

/// Arguments to the score-rendering command.
#[derive(Debug)]
pub struct RenderArgs {
    /// Output file name for the rendered image.
    pub output: String,
}

/// The program's subcommands.
#[derive(Debug)]
pub enum SubCommand {
    /// Parse a notation file and write the processed score.
    Generate { input: String, output: String },
    /// Render a score definition as an image.
    Render(RenderArgs),
}

/// The parsed command line.
#[derive(Debug)]
pub struct Args {
    pub subcommand: SubCommand,
}

} // verus!
