//! Run configuration: which responsibility flavour, metric and engine to
//! use, and where the model and counterexample come from. The command-line
//! front end fills these in; the core only reads them.

use vstd::prelude::*;
use vstd::string::StringExecFns;
use crate::responsibility::WeightType;
use crate::sampler::SampleTarget;

verus! {

/// Pessimistic responsibility treats off-path states as adversarial by
/// default; optimistic responsibility treats them as helpful.
#[derive(Copy, Clone, Debug, Eq, PartialEq, Structural)]
pub enum ResponsibilityVersion {
    Optimistic,
    Pessimistic,
}

pub struct PrismConfig {
    pub path: String,
    pub java_path: Option<String>,
}

pub struct BenchmarkSubcommand {
    pub file: String,
}

pub enum CounterexampleInput {
    ModelChecker,
    File { file: String },
}

pub enum ResponsibilityOutput {
    Stdout,
    File { file: String },
}

pub enum Engine {
    Exact,
    Stochastic(SampleTarget),
}

impl Engine {
    pub fn is_stochastic(&self) -> (r: bool)
        ensures
            r == (self is Stochastic),
    {
        match self {
            Engine::Exact => false,
            Engine::Stochastic(_) => true,
        }
    }
}

pub enum ModelInput {
    PrismFile { file: String },
    TransitionSystemFile { state_file: String, transition_file: String, label_file: String },
}

pub struct RunSubcommand {
    pub model_input: ModelInput,
    pub counterexample_input: CounterexampleInput,
    pub bad_label: Option<String>,
    pub responsibility_output: ResponsibilityOutput,
    pub engine: Engine,
    pub grouped: bool,
}

pub enum Subcommand {
    Run(RunSubcommand),
    Benchmark(BenchmarkSubcommand),
}

pub struct Settings {
    pub prism_config: PrismConfig,
    pub thread_count: Option<usize>,
    pub responsibility_metric: WeightType,
    pub responsibility_version: ResponsibilityVersion,
    pub subcommand: Subcommand,
    pub no_prism: bool,
}

/// The characters of a model file's extension.
pub open spec fn prism_ext() -> Seq<char> {
    ".prism"@
}

/// Does the name end in the model extension?
pub open spec fn has_prism_ext(s: Seq<char>) -> bool {
    s.len() >= 6 && s.subrange(s.len() - 6, s.len() as int) =~= prism_ext()
}

/// The name with every trailing model extension removed.
pub open spec fn spec_trim_prism(s: Seq<char>) -> Seq<char>
    decreases s.len(),
{
    if has_prism_ext(s) {
        spec_trim_prism(s.subrange(0, s.len() - 6))
    } else {
        s
    }
}

/// Whether the name ends in the model extension.
fn ends_with_prism(s: &String) -> (b: bool)
    ensures
        b == has_prism_ext(s@),
{
    proof {
        reveal_strlit(".prism");
    }
    let n = s.as_str().unicode_len();
    if n < 6 {
        return false;
    }
    let b = s.as_str().get_char(n - 6) == '.' && s.as_str().get_char(n - 5) == 'p' && s.as_str().get_char(
        n - 4,
    ) == 'r' && s.as_str().get_char(n - 3) == 'i' && s.as_str().get_char(n - 2) == 's'
        && s.as_str().get_char(n - 1) == 'm';
    proof {
        if b {
            assert(s@.subrange(s@.len() - 6, s@.len() as int) =~= prism_ext());
        } else {
            if has_prism_ext(s@) {
                assert(s@.subrange(s@.len() - 6, s@.len() as int)[0] == '.');
                assert(s@.subrange(s@.len() - 6, s@.len() as int)[1] == 'p');
                assert(s@.subrange(s@.len() - 6, s@.len() as int)[2] == 'r');
                assert(s@.subrange(s@.len() - 6, s@.len() as int)[3] == 'i');
                assert(s@.subrange(s@.len() - 6, s@.len() as int)[4] == 's');
                assert(s@.subrange(s@.len() - 6, s@.len() as int)[5] == 'm');
            }
        }
    }
    b
}

/// The file name with every trailing model extension removed.
pub fn trim_prism_extension(file: &String) -> (stem: String)
    ensures
        stem@ == spec_trim_prism(file@),
{
    let mut current = file.clone();
    while ends_with_prism(&current)
        invariant
            spec_trim_prism(current@) == spec_trim_prism(file@),
        decreases current@.len(),
    {
        let n = current.as_str().unicode_len();
        let shorter = current.as_str().substring_char(0, n - 6);
        current = String::from_str(shorter);
    }
    current
}

/// Appends an extension to a stem.
pub fn stem_with_ext(stem: &String, ext: &str) -> (r: String)
    ensures
        r@ == stem@ + ext@,
{
    let mut r = stem.clone();
    r.append(ext);
    r
}

impl ModelInput {
    /// When the model checker is bypassed, a model file name turns into the
    /// three exported transition-system file names sharing its stem, and a
    /// missing counterexample source turns into the stem's counterexample
    /// file.
    pub fn apply_no_prism(self, no_prism: bool, counterexample: CounterexampleInput) -> (r: (
        ModelInput,
        CounterexampleInput,
    ))
        ensures
            !no_prism ==> r == (self, counterexample),
            no_prism ==> (match self {
                ModelInput::PrismFile { file } => {
                    let stem = spec_trim_prism(file@);
                    &&& (r.0 matches ModelInput::TransitionSystemFile {
                        state_file,
                        transition_file,
                        label_file,
                    } && state_file@ == stem + ".sta"@ && transition_file@ == stem + ".tra"@
                        && label_file@ == stem + ".lab"@)
                    &&& (counterexample is ModelChecker ==> (r.1 matches CounterexampleInput::File {
                        file,
                    } && file@ == stem + ".ce"@))
                    &&& (counterexample is File ==> r.1 == counterexample)
                },
                ModelInput::TransitionSystemFile { .. } => r.0 == self && r.1 == counterexample,
            }),
    {
        if !no_prism {
            (self, counterexample)
        } else {
            match self {
                ModelInput::PrismFile { file } => {
                    let stem = trim_prism_extension(&file);
                    let state_file = stem_with_ext(&stem, ".sta");
                    let transition_file = stem_with_ext(&stem, ".tra");
                    let label_file = stem_with_ext(&stem, ".lab");
                    let ce = match counterexample {
                        CounterexampleInput::ModelChecker => CounterexampleInput::File {
                            file: stem_with_ext(&stem, ".ce"),
                        },
                        CounterexampleInput::File { file } => CounterexampleInput::File { file },
                    };
                    (
                        ModelInput::TransitionSystemFile {
                            state_file,
                            transition_file,
                            label_file,
                        },
                        ce,
                    )
                },
                ModelInput::TransitionSystemFile { state_file, transition_file, label_file } => {
                    (
                        ModelInput::TransitionSystemFile {
                            state_file,
                            transition_file,
                            label_file,
                        },
                        counterexample,
                    )
                },
            }
        }
    }
}

} // verus!
