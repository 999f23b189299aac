//! A structural diff, merge and patch engine for configuration trees.
//!
//! Documents parsed from a serialization surface are held as
//! [`value::TreeValue`], a format-agnostic tree. The differ walks two trees
//! and classifies every node as added, removed, modified or unchanged; its
//! output can be turned into a portable patch or fed to the merger. The
//! applier replays a patch against a fresh copy of a base document,
//! atomically. The codec renders trees as canonical bytes and parses them
//! back.

pub mod codec;
pub mod diff;
pub mod laws;
pub mod merge;
pub mod patch;
pub mod value;

use vstd::prelude::*;

use crate::value::{TreeValue, Node};
use crate::patch::{PatchOp, PatchError, apply_ops, ops_of, apply};
use crate::diff::{patch_of, diff_spec, generate_patch};

verus! {

/// A request to the engine: compare two documents and produce a patch, or
/// replay a stored patch against a base document.
pub enum Command {
    GeneratePatch(TreeValue, TreeValue),
    ApplyPatch(Vec<PatchOp>, TreeValue),
}

/// What one invocation of the engine is asked to do.
pub struct Config {
    pub command: Command,
}

/// The result of one invocation.
#[derive(Debug)]
pub enum RunOutcome {
    GeneratedPatch(Vec<PatchOp>),
    PatchedDocument(TreeValue),
}

/// Dispatch one command: generating a patch always succeeds; applying one
/// reports the applier's error if any operation fails.
pub fn run(config: &Config) -> (r: Result<RunOutcome, PatchError>)
    ensures
        match config.command {
            Command::GeneratePatch(o, rf) => match r {
                Ok(RunOutcome::GeneratedPatch(p)) => ops_of(p@) == patch_of(diff_spec(o@, rf@)),
                _ => false,
            },
            Command::ApplyPatch(p, base) => match r {
                Ok(RunOutcome::PatchedDocument(out)) => apply_ops(base@, ops_of(p@)) == Ok::<
                    Node,
                    PatchError,
                >(out@),
                Ok(_) => false,
                Err(e) => apply_ops(base@, ops_of(p@)) == Err::<Node, PatchError>(e),
            },
        },
{
    match &config.command {
        Command::GeneratePatch(o, rf) => Ok(RunOutcome::GeneratedPatch(generate_patch(o, rf))),
        Command::ApplyPatch(p, base) => match apply(base, p) {
            Ok(out) => Ok(RunOutcome::PatchedDocument(out)),
            Err(e) => Err(e),
        },
    }
}

} // verus!
