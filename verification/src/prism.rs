//! The model checker's side of the fence: where its executable lives, and
//! how its textual output is turned into counterexample lines.
//!
//! Invoking the checker is the caller's business; the core only keeps the
//! configuration and extracts the counterexample block — the lines between
//! the witness announcement and the next non-state line, each starting with
//! an opening parenthesis.

use vstd::prelude::*;
use vstd::string::StringExecFns;
use crate::transition_systems::TransitionSystem;
use crate::transition_system_parser::split_lines;

verus! {

pub struct PrismRunner {
    pub path_to_prism: String,
    pub path_to_java: Option<String>,
}

impl PrismRunner {
    pub fn set_path_to_prism(&mut self, path_to_prism: String)
        ensures
            final(self).path_to_prism == path_to_prism,
            final(self).path_to_java == old(self).path_to_java,
    {
        self.path_to_prism = path_to_prism;
    }

    pub fn set_path_to_java(&mut self, path_to_java: String)
        ensures
            final(self).path_to_java == Some(path_to_java),
            final(self).path_to_prism == old(self).path_to_prism,
    {
        self.path_to_java = Some(path_to_java);
    }
}

pub struct PrismInterface {
    pub runner: PrismRunner,
    pub silent: bool,
}

impl PrismInterface {
    pub fn new(runner: PrismRunner) -> (r: PrismInterface)
        ensures
            r.runner == runner,
            r.silent == false,
    {
        PrismInterface { runner, silent: false }
    }

    pub fn set_silent(&mut self, silent: bool)
        ensures
            final(self).silent == silent,
            final(self).runner == old(self).runner,
    {
        self.silent = silent;
    }

    /// Extracts the counterexample block from the checker's output: the
    /// lines after the witness announcement that start with an opening
    /// parenthesis, up to the first line that does not. Every returned
    /// line starts with `(`.
    pub fn parse_counterexample_from_output(&self, output: &String) -> (ce: Vec<String>)
        ensures
            forall|i: int|
                0 <= i < ce@.len() ==> (#[trigger] ce@[i])@.len() > 0 && ce@[i]@[0] == '(',
    {
        let lines = split_lines(output);
        let mut counterexample: Vec<String> = Vec::new();
        let mut in_block = false;
        let mut done = false;
        let line_count = lines.len();
        let mut li: usize = 0;
        while li < line_count
            invariant
                li <= line_count,
                line_count == lines@.len(),
                forall|i: int|
                    0 <= i < counterexample@.len() ==> (#[trigger] counterexample@[i])@.len() > 0
                        && counterexample@[i]@[0] == '(',
            decreases line_count - li,
        {
            let line = &lines[li];
            if !done {
                if !in_block {
                    if starts_with_witness_marker(line) {
                        in_block = true;
                    }
                } else {
                    if line.as_str().unicode_len() > 0 && line.as_str().get_char(0) == '(' {
                        counterexample.push(line.clone());
                    } else {
                        done = true;
                    }
                }
            }
            li = li + 1;
        }
        counterexample
    }
}

/// Whether a line announces the witness block of the checker's output.
fn starts_with_witness_marker(line: &String) -> (b: bool)
{
    let marker = String::from_str("Counterexample/witness");
    let mn = marker.as_str().unicode_len();
    let ln = line.as_str().unicode_len();
    if ln < mn {
        return false;
    }
    let mut i: usize = 0;
    while i < mn
        invariant
            i <= mn,
            mn == marker@.len(),
            mn <= line@.len(),
        decreases mn - i,
    {
        if line.as_str().get_char(i) != marker.as_str().get_char(i) {
            return false;
        }
        i = i + 1;
    }
    true
}

pub struct RunResults {
    pub counterexample: Vec<usize>,
    pub transition_system: TransitionSystem,
}

impl RunResults {
    pub fn new(counterexample: Vec<usize>, transition_system: TransitionSystem) -> (r: RunResults)
        ensures
            r.counterexample == counterexample,
            r.transition_system == transition_system,
    {
        RunResults { counterexample, transition_system }
    }
}

} // verus!
