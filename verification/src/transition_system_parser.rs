//! Parsing of exported transition-system files: the state file (variable
//! header and one valuation per line), the transition file (source, action,
//! destination, probability), the label file (header of `index="name"`
//! pairs and one `state: labels` entry per line), and counterexample files
//! in both the plain and the `name=value` format.
//!
//! The file contents arrive as strings; reading them from disk is the
//! caller's business. Every rejected input is reported through
//! [`ParseError`], never by panicking.

use vstd::prelude::*;
use vstd::string::StringExecFns;
use crate::transition_systems::{State, Transition, TransitionSystem, Variable};
use crate::cli::stem_with_ext;

verus! {

/// Why a file was rejected, with the line it happened on where one exists.
#[derive(Copy, Clone, Debug, Eq, PartialEq, Structural)]
pub enum ParseError {
    /// The state file has no header line.
    MissingStateHeader,
    /// A state line lacks the expected colon.
    MissingColon { line: usize },
    /// A state index is not numeric or not consecutive.
    BadStateIndex { line: usize },
    /// A state has the wrong number of variable valuations.
    BadValuationCount { line: usize },
    /// The transition file has no header line.
    MissingTransitionHeader,
    /// A transition entry has fewer than four fields or a bad number.
    BadTransitionEntry { line: usize },
    /// A transition endpoint is not a state of the system.
    BadTransitionEndpoint { line: usize },
    /// A transition carries a probability other than one.
    UnsupportedProbability { line: usize },
    /// The label file has no header line.
    MissingLabelHeader,
    /// The label header has a malformed `index="name"` pair.
    BadLabelHeader,
    /// Two label header entries share an index.
    DuplicateLabelIndex,
    /// A label entry line has a bad format or an unknown label index.
    BadLabelEntry { line: usize },
    /// No state carries the initial-state label.
    NoInitialState,
    /// Two states carry the initial-state label.
    MultipleInitialStates,
    /// A state index in a label entry is out of range.
    BadLabelState { line: usize },
    /// A counterexample line does not name a state of the system.
    UnknownCounterexampleState { line: usize },
    /// A counterexample line has a bad format.
    BadCounterexampleLine { line: usize },
}

/// The numeric value of a digit sequence.
pub open spec fn digits_value(s: Seq<char>) -> int
    decreases s.len(),
{
    if s.len() == 0 {
        0
    } else {
        digits_value(s.drop_last()) * 10 + (s.last() as int - '0' as int)
    }
}

pub open spec fn all_digits(s: Seq<char>) -> bool {
    forall|i: int| 0 <= i < s.len() ==> '0' <= #[trigger] s[i] <= '9'
}

/// Parses an unsigned decimal number: the exact value when the text is one
/// or more digits and fits, nothing otherwise.
pub fn parse_usize_digits(s: &String) -> (r: Option<usize>)
    ensures
        match r {
            Some(v) => s@.len() > 0 && all_digits(s@) && v == digits_value(s@),
            None => s@.len() == 0 || !all_digits(s@) || digits_value(s@) > usize::MAX,
        },
{
    let n = s.as_str().unicode_len();
    if n == 0 {
        return None;
    }
    let mut value: usize = 0;
    let mut i: usize = 0;
    while i < n
        invariant
            i <= n,
            n == s@.len(),
            all_digits(s@.take(i as int)),
            value == digits_value(s@.take(i as int)),
        decreases n - i,
    {
        let c = s.as_str().get_char(i);
        if c < '0' || c > '9' {
            proof {
                assert(!all_digits(s@));
            }
            return None;
        }
        let d = (c as u32 - '0' as u32) as usize;
        proof {
            assert(s@.take(i + 1).drop_last() =~= s@.take(i as int));
            assert(s@.take(i + 1).last() == s@[i as int]);
        }
        if value > (usize::MAX - d) / 10 {
            proof {
                assert(digits_value(s@.take(i + 1)) > usize::MAX) by (nonlinear_arith)
                    requires
                        digits_value(s@.take(i + 1)) == value * 10 + d,
                        value > (usize::MAX - d) / 10,
                        d <= 9,
                ;
                if all_digits(s@) {
                    lemma_digits_value_mono(s@, i + 1);
                }
            }
            return None;
        }
        value = value * 10 + d;
        i = i + 1;
    }
    proof {
        assert(s@.take(n as int) =~= s@);
    }
    Some(value)
}

pub proof fn lemma_digits_value_nonneg(s: Seq<char>)
    requires
        all_digits(s),
    ensures
        digits_value(s) >= 0,
    decreases s.len(),
{
    if s.len() > 0 {
        assert(all_digits(s.drop_last()));
        lemma_digits_value_nonneg(s.drop_last());
        let a = digits_value(s.drop_last());
        assert(a * 10 >= 0) by (nonlinear_arith)
            requires
                a >= 0,
        ;
    }
}

/// On digit text, a longer prefix never has a smaller value.
pub proof fn lemma_digits_value_mono(s: Seq<char>, k: int)
    requires
        all_digits(s),
        0 <= k <= s.len(),
    ensures
        digits_value(s.take(k)) <= digits_value(s),
    decreases s.len() - k,
{
    if k < s.len() {
        lemma_digits_value_mono(s, k + 1);
        assert(s.take(k + 1).drop_last() =~= s.take(k));
        assert(all_digits(s.take(k)));
        lemma_digits_value_nonneg(s.take(k));
        let a = digits_value(s.take(k));
        let b = digits_value(s.take(k + 1));
        assert(b == a * 10 + (s.take(k + 1).last() as int - '0' as int));
        assert(a <= a * 10) by (nonlinear_arith)
            requires
                a >= 0,
        ;
        assert(s.take(k + 1).last() == s[k]);
    } else {
        assert(s.take(k) =~= s);
    }
}

/// No line holds a newline.
pub open spec fn lines_clean(lines: Seq<String>) -> bool {
    forall|i: int| 0 <= i < lines.len() ==> !(#[trigger] lines[i])@.contains('\n')
}

/// Splits text into lines at every newline, dropping one trailing carriage
/// return per line.
pub fn split_lines(s: &String) -> (lines: Vec<String>)
    ensures
        lines_clean(lines@),
        s@.len() > 0 ==> lines@.len() >= 1,
{
    let n = s.as_str().unicode_len();
    let mut lines: Vec<String> = Vec::new();
    let mut start: usize = 0;
    let mut i: usize = 0;
    while i < n
        invariant
            start <= i <= n,
            n == s@.len(),
            lines_clean(lines@),
            forall|k: int| start <= k < i ==> s@[k] != '\n',
        decreases n - i,
    {
        if s.as_str().get_char(i) == '\n' {
            lines.push(extract_line(s, start, i));
            start = i + 1;
        }
        i = i + 1;
    }
    if start < n || n == 0 {
        lines.push(extract_line(s, start, n));
    } else {
        if lines.len() == 0 {
            lines.push(extract_line(s, start, n));
        }
    }
    lines
}

/// One line of `s`: the characters of `[start, end)` without one trailing
/// carriage return.
fn extract_line(s: &String, start: usize, end: usize) -> (line: String)
    requires
        start <= end <= s@.len(),
    ensures
        !s@.subrange(start as int, end as int).contains('\n') ==> !line@.contains('\n'),
{
    let mut stop = end;
    if end > start {
        if s.as_str().get_char(end - 1) == '\r' {
            stop = end - 1;
        }
    }
    let line = s.as_str().substring_char(start, stop);
    proof {
        assert forall|c: char| line@.contains(c) implies s@.subrange(
            start as int,
            end as int,
        ).contains(c) by {
            let w = choose|w: int| 0 <= w < line@.len() && line@[w] == c;
            assert(s@.subrange(start as int, end as int)[w] == c);
        }
    }
    String::from_str(line)
}

/// Splits a line at every occurrence of the separator; the pieces contain
/// no separator and there is one more piece than separators.
pub fn split_on_char(s: &String, sep: char) -> (parts: Vec<String>)
    ensures
        parts@.len() >= 1,
        forall|i: int| 0 <= i < parts@.len() ==> !(#[trigger] parts@[i])@.contains(sep),
{
    let n = s.as_str().unicode_len();
    let mut parts: Vec<String> = Vec::new();
    let mut start: usize = 0;
    let mut i: usize = 0;
    while i < n
        invariant
            start <= i <= n,
            n == s@.len(),
            forall|k: int| 0 <= k < parts@.len() ==> !(#[trigger] parts@[k])@.contains(sep),
            forall|k: int| start <= k < i ==> s@[k] != sep,
        decreases n - i,
    {
        if s.as_str().get_char(i) == sep {
            let piece = s.as_str().substring_char(start, i);
            proof {
                assert forall|c: char| piece@.contains(c) implies c != sep by {
                    let w = choose|w: int| 0 <= w < piece@.len() && piece@[w] == c;
                    assert(s@[start + w] == c);
                }
            }
            parts.push(String::from_str(piece));
            start = i + 1;
        }
        i = i + 1;
    }
    let piece = s.as_str().substring_char(start, n);
    proof {
        assert forall|c: char| piece@.contains(c) implies c != sep by {
            let w = choose|w: int| 0 <= w < piece@.len() && piece@[w] == c;
            assert(s@[start + w] == c);
        }
    }
    parts.push(String::from_str(piece));
    parts
}

/// Strips leading and trailing spaces and tabs and carriage returns.
pub fn trim_blanks(s: &String) -> (r: String)
    ensures
        r@.len() <= s@.len(),
{
    let n = s.as_str().unicode_len();
    let mut start: usize = 0;
    while start < n
        invariant
            start <= n,
            n == s@.len(),
        decreases n - start,
    {
        let c = s.as_str().get_char(start);
        if c == ' ' || c == '\t' || c == '\r' {
            start = start + 1;
        } else {
            break ;
        }
    }
    let mut end = n;
    while end > start
        invariant
            start <= end <= n,
            n == s@.len(),
        decreases end,
    {
        let c = s.as_str().get_char(end - 1);
        if c == ' ' || c == '\t' || c == '\r' {
            end = end - 1;
        } else {
            break ;
        }
    }
    String::from_str(s.as_str().substring_char(start, end))
}

/// Looks up the position of the first occurrence of `sep`.
pub fn find_char(s: &String, sep: char) -> (r: Option<usize>)
    ensures
        match r {
            Some(i) => i < s@.len() && s@[i as int] == sep && forall|k: int|
                0 <= k < i ==> s@[k] != sep,
            None => forall|k: int| 0 <= k < s@.len() ==> s@[k] != sep,
        },
{
    let n = s.as_str().unicode_len();
    let mut i: usize = 0;
    while i < n
        invariant
            i <= n,
            n == s@.len(),
            forall|k: int| 0 <= k < i ==> s@[k] != sep,
        decreases n - i,
    {
        if s.as_str().get_char(i) == sep {
            return Some(i);
        }
        i = i + 1;
    }
    None
}

/// The text before and after the first occurrence of `sep`, when there is
/// one.
pub fn split_once_char(s: &String, sep: char) -> (r: Option<(String, String)>)
    ensures
        r is Some ==> s@.contains(sep),
        r is None ==> !s@.contains(sep),
{
    match find_char(s, sep) {
        Some(i) => {
            let n = s.as_str().unicode_len();
            let left = String::from_str(s.as_str().substring_char(0, i));
            let right = String::from_str(s.as_str().substring_char(i + 1, n));
            Some((left, right))
        },
        None => {
            proof {
                if s@.contains(sep) {
                    let w = choose|w: int| 0 <= w < s@.len() && s@[w] == sep;
                }
            }
            None
        },
    }
}

/// Is the decimal literal exactly one: `1`, `1.`, or `1.0...0`?
pub open spec fn spec_decimal_is_one(s: Seq<char>) -> bool {
    &&& s.len() >= 1
    &&& s[0] == '1'
    &&& forall|i: int| 1 <= i < s.len() ==> (#[trigger] s[i]) == '0' || (i == 1 && s[i] == '.')
    &&& (s.len() >= 2 ==> s[1] == '.')
}

/// Recognises probability one written as a decimal literal, without
/// touching floating point.
pub fn decimal_is_one(s: &String) -> (r: bool)
    ensures
        r == spec_decimal_is_one(s@),
{
    let n = s.as_str().unicode_len();
    if n == 0 {
        return false;
    }
    if s.as_str().get_char(0) != '1' {
        return false;
    }
    if n == 1 {
        return true;
    }
    if s.as_str().get_char(1) != '.' {
        return false;
    }
    let mut i: usize = 2;
    while i < n
        invariant
            2 <= i <= n,
            n == s@.len(),
            s@[0] == '1',
            s@[1] == '.',
            forall|k: int| 2 <= k < i ==> (#[trigger] s@[k]) == '0',
        decreases n - i,
    {
        if s.as_str().get_char(i) != '0' {
            return false;
        }
        i = i + 1;
    }
    true
}


/// Every label attached to a state occurs in the label table.
pub open spec fn labels_covered(states: Seq<State>, label_names: Seq<(usize, String)>) -> bool {
    forall|s: int, j: int|
        0 <= s < states.len() && 0 <= j < states[s].labels@.len() ==> exists|k: int|
            0 <= k < label_names.len() && (#[trigger] label_names[k]).0 == (
            #[trigger] states[s].labels@[j])
}


/// Label coverage survives editing one state, as long as its labels are
/// kept or extended by one label from the table.
pub proof fn lemma_labels_covered_update(
    prev: Seq<State>,
    cur: Seq<State>,
    label_names: Seq<(usize, String)>,
    state: int,
    extra: Option<usize>,
)
    requires
        labels_covered(prev, label_names),
        cur.len() == prev.len(),
        0 <= state < prev.len(),
        forall|s: int|
            0 <= s < cur.len() && s != state ==> (#[trigger] cur[s]).labels@ == prev[s].labels@,
        match extra {
            None => cur[state].labels@ == prev[state].labels@,
            Some(l) => cur[state].labels@ == prev[state].labels@.push(l) && exists|k: int|
                0 <= k < label_names.len() && (#[trigger] label_names[k]).0 == l,
        },
    ensures
        labels_covered(cur, label_names),
{
    assert forall|s: int, j: int|
        0 <= s < cur.len() && 0 <= j < cur[s].labels@.len() implies exists|k: int|
        0 <= k < label_names.len() && (#[trigger] label_names[k]).0 == (
        #[trigger] cur[s].labels@[j]) by {
        let from_prev = if s != state {
            true
        } else {
            match extra {
                None => true,
                Some(l) => j < prev[state].labels@.len(),
            }
        };
        if from_prev {
            assert(cur[s].labels@[j] == prev[s].labels@[j]);
            assert(exists|k: int|
                0 <= k < label_names.len() && (#[trigger] label_names[k]).0 == prev[s].labels@[j]);
            let w = choose|k: int|
                0 <= k < label_names.len() && (#[trigger] label_names[k]).0 == prev[s].labels@[j];
            assert(label_names[w].0 == cur[s].labels@[j]);
        } else {
            let l = extra->Some_0;
            assert(cur[s].labels@[j] == l);
            let w = choose|k: int|
                0 <= k < label_names.len() && (#[trigger] label_names[k]).0 == l;
            assert(label_names[w].0 == cur[s].labels@[j]);
        }
    }
}

pub struct TransitionSystemParser {
    pub states_file_name: String,
    pub transitions_file_name: String,
    pub labels_file_name: String,
}

impl TransitionSystemParser {
    /// File names derived from a common stem, with the exporter's three
    /// extensions.
    pub fn from_stem(results_file_stem: String) -> (p: TransitionSystemParser)
        ensures
            p.states_file_name@ == results_file_stem@ + ".sta"@,
            p.transitions_file_name@ == results_file_stem@ + ".tra"@,
            p.labels_file_name@ == results_file_stem@ + ".lab"@,
    {
        let states_file_name = stem_with_ext(&results_file_stem, ".sta");
        let transitions_file_name = stem_with_ext(&results_file_stem, ".tra");
        let labels_file_name = stem_with_ext(&results_file_stem, ".lab");
        TransitionSystemParser { states_file_name, transitions_file_name, labels_file_name }
    }

    pub fn from_files(
        states_file_name: String,
        transitions_file_name: String,
        labels_file_name: String,
    ) -> (p: TransitionSystemParser)
        ensures
            p.states_file_name == states_file_name,
            p.transitions_file_name == transitions_file_name,
            p.labels_file_name == labels_file_name,
    {
        TransitionSystemParser { states_file_name, transitions_file_name, labels_file_name }
    }

    /// Parses the three file contents into a transition system. On success
    /// the result is structurally sound: one state per state line, each
    /// with as many valuation indices as there are variables, in-range
    /// transitions, in-range labels, and an initial state.
    pub fn parse(
        &self,
        states_content: &String,
        transitions_content: &String,
        labels_content: &String,
        bad_label: &String,
    ) -> (r: Result<TransitionSystem, ParseError>)
        ensures
            match r {
                Ok(ts) => {
                    &&& ts.initial_state < ts.states@.len()
                    &&& forall|s: int, j: int|
                        0 <= s < ts.states@.len() && 0 <= j < ts.states@[s].outgoing_transitions@.len()
                            ==> (#[trigger] ts.states@[s].outgoing_transitions@[j]).destination
                            < ts.states@.len()
                    &&& forall|s: int|
                        0 <= s < ts.states@.len() ==> (#[trigger] ts.states@[s]).valuation_indices@.len()
                            == ts.variables@.len()
                    &&& labels_covered(ts.states@, ts.label_names@)
                    &&& forall|k1: int, k2: int|
                        0 <= k1 < k2 < ts.label_names@.len() ==> (#[trigger] ts.label_names@[k1]).0
                            != (#[trigger] ts.label_names@[k2]).0
                    &&& forall|s: int, v: int|
                        0 <= s < ts.states@.len() && 0 <= v < ts.states@[s].valuation_indices@.len()
                            ==> (#[trigger] ts.states@[s].valuation_indices@[v])
                            < ts.variables@[v].valuation_names@.len()
                },
                Err(_) => true,
            },
    {
        let (mut states, variables) = match Self::parse_states_and_vars(states_content) {
            Ok(sv) => sv,
            Err(e) => {
                return Err(e);
            },
        };
        match Self::parse_transitions(transitions_content, &mut states) {
            Ok(()) => {},
            Err(e) => {
                return Err(e);
            },
        }
        let (initial_state, label_names) = match Self::parse_labels(
            labels_content,
            &mut states,
            bad_label,
        ) {
            Ok(il) => il,
            Err(e) => {
                return Err(e);
            },
        };
        Ok(TransitionSystem::new(states, initial_state, variables, label_names))
    }

    /// Parses the state file: a parenthesised comma-separated variable
    /// header, then one `index:(v1,...,vk)` line per state with
    /// consecutive indices.
    pub fn parse_states_and_vars(state_file: &String) -> (r: Result<
        (Vec<State>, Vec<Variable>),
        ParseError,
    >)
        ensures
            match r {
                Ok((states, variables)) => {
                    &&& forall|s: int|
                        0 <= s < states@.len() ==> (#[trigger] states@[s]).valuation_indices@.len()
                            == variables@.len()
                    &&& forall|s: int|
                        0 <= s < states@.len() ==> (#[trigger] states@[s]).outgoing_transitions@.len()
                            == 0 && states@[s].labels@.len() == 0 && !states@[s].is_bad
                    &&& forall|s: int, v: int|
                        0 <= s < states@.len() && 0 <= v < states@[s].valuation_indices@.len() ==> (
                        #[trigger] states@[s].valuation_indices@[v])
                            < variables@[v].valuation_names@.len()
                },
                Err(_) => true,
            },
    {
        if state_file.as_str().unicode_len() == 0 {
            return Err(ParseError::MissingStateHeader);
        }
        let lines = split_lines(state_file);
        if lines.len() == 0 {
            return Err(ParseError::MissingStateHeader);
        }
        let header = trim_blanks(&lines[0]);
        let hn = header.as_str().unicode_len();
        if hn < 2 {
            return Err(ParseError::MissingStateHeader);
        }
        let inner = String::from_str(header.as_str().substring_char(1, hn - 1));
        let var_names = split_on_char(&inner, ',');
        let mut variables: Vec<Variable> = Vec::new();
        let vcount = var_names.len();
        let mut v: usize = 0;
        while v < vcount
            invariant
                v <= vcount,
                vcount == var_names@.len(),
                variables@.len() == v,
            decreases vcount - v,
        {
            variables.push(Variable::new(var_names[v].clone()));
            v = v + 1;
        }

        let mut states: Vec<State> = Vec::new();
        let line_count = lines.len();
        let mut li: usize = 1;
        while li < line_count
            invariant
                1 <= li <= line_count,
                line_count == lines@.len(),
                variables@.len() == vcount,
                forall|s: int|
                    0 <= s < states@.len() ==> (#[trigger] states@[s]).valuation_indices@.len()
                        == variables@.len(),
                forall|s: int|
                    0 <= s < states@.len() ==> (#[trigger] states@[s]).outgoing_transitions@.len()
                        == 0 && states@[s].labels@.len() == 0 && !states@[s].is_bad,
                forall|s: int, w: int|
                    0 <= s < states@.len() && 0 <= w < states@[s].valuation_indices@.len() ==> (
                    #[trigger] states@[s].valuation_indices@[w])
                        < variables@[w].valuation_names@.len(),
            decreases line_count - li,
        {
            let line = trim_blanks(&lines[li]);
            if line.as_str().unicode_len() == 0 {
                li = li + 1;
                continue ;
            }
            let (index_string, valuations) = match split_once_char(&line, ':') {
                Some(pair) => pair,
                None => {
                    return Err(ParseError::MissingColon { line: li });
                },
            };
            let parsed_index = match parse_usize_digits(&trim_blanks(&index_string)) {
                Some(ix) => ix,
                None => {
                    return Err(ParseError::BadStateIndex { line: li });
                },
            };
            if parsed_index != states.len() {
                return Err(ParseError::BadStateIndex { line: li });
            }
            let vn = valuations.as_str().unicode_len();
            if vn < 2 {
                return Err(ParseError::BadValuationCount { line: li });
            }
            let inner_vals = String::from_str(valuations.as_str().substring_char(1, vn - 1));
            let val_strings = split_on_char(&inner_vals, ',');
            let vs_count = val_strings.len();
            if vs_count != vcount {
                return Err(ParseError::BadValuationCount { line: li });
            }
            let mut valuation_indices: Vec<usize> = Vec::new();
            let mut w: usize = 0;
            while w < vs_count
                invariant
                    w <= vs_count,
                    vs_count == val_strings@.len(),
                    vs_count == variables@.len(),
                    valuation_indices@.len() == w,
                    forall|k: int|
                        0 <= k < w ==> (#[trigger] valuation_indices@[k])
                            < variables@[k].valuation_names@.len(),
                    forall|s2: int|
                        0 <= s2 < states@.len() ==> (#[trigger] states@[s2]).valuation_indices@.len()
                            == variables@.len(),
                    forall|s2: int|
                        0 <= s2 < states@.len() ==> (#[trigger] states@[s2]).outgoing_transitions@.len()
                            == 0 && states@[s2].labels@.len() == 0 && !states@[s2].is_bad,
                    forall|s2: int, w2: int|
                        0 <= s2 < states@.len() && 0 <= w2 < states@[s2].valuation_indices@.len()
                            ==> (#[trigger] states@[s2].valuation_indices@[w2])
                            < variables@[w2].valuation_names@.len(),
                decreases vs_count - w,
            {
                let vi = match add_valuation(&mut variables, w, &val_strings[w]) {
                    Some(vi) => vi,
                    None => {
                        return Err(ParseError::BadValuationCount { line: li });
                    },
                };
                valuation_indices.push(vi);
                w = w + 1;
            }
            states.push(State::new(valuation_indices));
            li = li + 1;
        }
        Ok((states, variables))
    }

    /// Parses the transition file: a header, then `source action
    /// destination probability` lines; only probability one is supported.
    pub fn parse_transitions(transitions_file: &String, states: &mut Vec<State>) -> (r: Result<
        (),
        ParseError,
    >)
        requires
            forall|s: int|
                0 <= s < old(states)@.len() ==> (#[trigger] old(states)@[s]).outgoing_transitions@.len()
                    == 0,
        ensures
            match r {
                Ok(()) => {
                    &&& final(states)@.len() == old(states)@.len()
                    &&& forall|s: int|
                        0 <= s < final(states)@.len() ==> (#[trigger] final(states)@[s]).valuation_indices
                            == old(states)@[s].valuation_indices && final(states)@[s].labels
                            == old(states)@[s].labels && final(states)@[s].is_bad == old(states)@[s].is_bad
                    &&& forall|s: int, j: int|
                        0 <= s < final(states)@.len() && 0 <= j < final(states)@[s].outgoing_transitions@.len() ==> (#[trigger] final(states)@[s].outgoing_transitions@[j]).destination < final(states)@.len()
                },
                Err(_) => true,
            },
    {
        if transitions_file.as_str().unicode_len() == 0 {
            return Err(ParseError::MissingTransitionHeader);
        }
        let lines = split_lines(transitions_file);
        if lines.len() == 0 {
            return Err(ParseError::MissingTransitionHeader);
        }
        let n_states = states.len();
        let line_count = lines.len();
        let mut li: usize = 1;
        while li < line_count
            invariant
                1 <= li <= line_count,
                line_count == lines@.len(),
                n_states == states@.len(),
                states@.len() == old(states)@.len(),
                forall|s: int|
                    0 <= s < states@.len() ==> (#[trigger] states@[s]).valuation_indices == old(states)@[s].valuation_indices && states@[s].labels == old(states)@[s].labels
                        && states@[s].is_bad == old(states)@[s].is_bad,
                forall|s: int, j: int|
                    0 <= s < states@.len() && 0 <= j < states@[s].outgoing_transitions@.len() ==> (
                    #[trigger] states@[s].outgoing_transitions@[j]).destination < states@.len(),
            decreases line_count - li,
        {
            let line = trim_blanks(&lines[li]);
            if line.as_str().unicode_len() == 0 {
                li = li + 1;
                continue ;
            }
            let fields = split_on_char(&line, ' ');
            if fields.len() < 4 {
                return Err(ParseError::BadTransitionEntry { line: li });
            }
            let source = match parse_usize_digits(&fields[0]) {
                Some(v) => v,
                None => {
                    return Err(ParseError::BadTransitionEntry { line: li });
                },
            };
            let destination = match parse_usize_digits(&fields[2]) {
                Some(v) => v,
                None => {
                    return Err(ParseError::BadTransitionEntry { line: li });
                },
            };
            if !decimal_is_one(&fields[3]) {
                return Err(ParseError::UnsupportedProbability { line: li });
            }
            if source >= n_states {
                return Err(ParseError::BadTransitionEndpoint { line: li });
            }
            if destination >= n_states {
                return Err(ParseError::BadTransitionEndpoint { line: li });
            }
            let ghost prev = states@;
            states[source].outgoing_transitions.push(Transition::new(destination));
            proof {
                assert forall|s: int, j: int|
                    0 <= s < states@.len() && 0 <= j < states@[s].outgoing_transitions@.len()
                    implies (#[trigger] states@[s].outgoing_transitions@[j]).destination
                    < states@.len() by {
                    if s != source as int {
                        assert(states@[s] == prev[s]);
                    } else {
                        if j < prev[s].outgoing_transitions@.len() {
                            assert(states@[s].outgoing_transitions@[j]
                                == prev[s].outgoing_transitions@[j]);
                        }
                    }
                }
            }
            li = li + 1;
        }
        Ok(())
    }

    /// Parses the label file: a header of `index="name"` pairs, then one
    /// `state: label indices` line per labelled state. The label named
    /// `init` designates the initial state (exactly one), the bad label
    /// marks bad states, every other label is attached to its states.
    pub fn parse_labels(
        label_file: &String,
        states: &mut Vec<State>,
        bad_label: &String,
    ) -> (r: Result<(usize, Vec<(usize, String)>), ParseError>)
        requires
            forall|s: int|
                0 <= s < old(states)@.len() ==> (#[trigger] old(states)@[s]).labels@.len() == 0,
        ensures
            match r {
                Ok((initial_state, label_names)) => {
                    &&& initial_state < final(states)@.len()
                    &&& final(states)@.len() == old(states)@.len()
                    &&& forall|k1: int, k2: int|
                        0 <= k1 < k2 < label_names@.len() ==> (#[trigger] label_names@[k1]).0 != (
                        #[trigger] label_names@[k2]).0
                    &&& forall|s: int|
                        0 <= s < final(states)@.len() ==> (#[trigger] final(states)@[s]).valuation_indices
                            == old(states)@[s].valuation_indices && final(states)@[s].outgoing_transitions == old(states)@[s].outgoing_transitions
                    &&& labels_covered(final(states)@, label_names@)
                },
                Err(_) => true,
            },
    {
        if label_file.as_str().unicode_len() == 0 {
            return Err(ParseError::MissingLabelHeader);
        }
        let lines = split_lines(label_file);
        if lines.len() == 0 {
            return Err(ParseError::MissingLabelHeader);
        }
        let header = trim_blanks(&lines[0]);
        let header_pairs = split_on_char(&header, ' ');
        let mut label_names: Vec<(usize, String)> = Vec::new();
        let mut init_index: Option<usize> = None;
        let mut bad_index: Option<usize> = None;
        let hp_count = header_pairs.len();
        let mut hi: usize = 0;
        while hi < hp_count
            invariant
                hi <= hp_count,
                hp_count == header_pairs@.len(),
                forall|k1: int, k2: int|
                    0 <= k1 < k2 < label_names@.len() ==> (#[trigger] label_names@[k1]).0 != (
                    #[trigger] label_names@[k2]).0,
            decreases hp_count - hi,
        {
            let pair = trim_blanks(&header_pairs[hi]);
            if pair.as_str().unicode_len() == 0 {
                hi = hi + 1;
                continue ;
            }
            let (index_string, name_with_quotes) = match split_once_char(&pair, '=') {
                Some(p) => p,
                None => {
                    return Err(ParseError::BadLabelHeader);
                },
            };
            let index = match parse_usize_digits(&trim_blanks(&index_string)) {
                Some(v) => v,
                None => {
                    return Err(ParseError::BadLabelHeader);
                },
            };
            let name = trim_quotes(&trim_blanks(&name_with_quotes));
            if contains_label_index(&label_names, index) {
                return Err(ParseError::DuplicateLabelIndex);
            }
            if name.eq(&String::from_str("init")) {
                init_index = Some(index);
            } else {
                if name.eq(bad_label) {
                    bad_index = Some(index);
                } else {
                    label_names.push((index, name));
                }
            }
            hi = hi + 1;
        }

        let init_label = match init_index {
            Some(v) => v,
            None => {
                return Err(ParseError::NoInitialState);
            },
        };

        let n_states = states.len();
        let ghost states0 = states@;
        let mut initial_state: Option<usize> = None;
        let line_count = lines.len();
        let mut li: usize = 1;
        while li < line_count
            invariant
                1 <= li <= line_count,
                line_count == lines@.len(),
                n_states == states@.len(),
                states@.len() == states0.len(),
                match initial_state {
                    Some(v) => v < n_states,
                    None => true,
                },
                forall|k1: int, k2: int|
                    0 <= k1 < k2 < label_names@.len() ==> (#[trigger] label_names@[k1]).0 != (
                    #[trigger] label_names@[k2]).0,
                forall|s: int|
                    0 <= s < states@.len() ==> (#[trigger] states@[s]).valuation_indices
                        == states0[s].valuation_indices && states@[s].outgoing_transitions
                        == states0[s].outgoing_transitions,
                labels_covered(states@, label_names@),
            decreases line_count - li,
        {
            let line = trim_blanks(&lines[li]);
            if line.as_str().unicode_len() == 0 {
                li = li + 1;
                continue ;
            }
            let (state_string, label_index_strings) = match split_once_char(&line, ':') {
                Some(p) => p,
                None => {
                    return Err(ParseError::BadLabelEntry { line: li });
                },
            };
            let state = match parse_usize_digits(&trim_blanks(&state_string)) {
                Some(v) => v,
                None => {
                    return Err(ParseError::BadLabelEntry { line: li });
                },
            };
            if state >= n_states {
                return Err(ParseError::BadLabelState { line: li });
            }
            let entries = split_on_char(&trim_blanks(&label_index_strings), ' ');
            let e_count = entries.len();
            let mut ei: usize = 0;
            while ei < e_count
                invariant
                    ei <= e_count,
                    e_count == entries@.len(),
                    state < n_states,
                    n_states == states@.len(),
                    states@.len() == states0.len(),
                    match initial_state {
                        Some(v) => v < n_states,
                        None => true,
                    },
                    forall|k1: int, k2: int|
                        0 <= k1 < k2 < label_names@.len() ==> (#[trigger] label_names@[k1]).0 != (
                        #[trigger] label_names@[k2]).0,
                    forall|s: int|
                        0 <= s < states@.len() ==> (#[trigger] states@[s]).valuation_indices
                            == states0[s].valuation_indices && states@[s].outgoing_transitions
                            == states0[s].outgoing_transitions,
                    labels_covered(states@, label_names@),
                decreases e_count - ei,
            {
                let entry = trim_blanks(&entries[ei]);
                if entry.as_str().unicode_len() == 0 {
                    ei = ei + 1;
                    continue ;
                }
                let label_index = match parse_usize_digits(&entry) {
                    Some(v) => v,
                    None => {
                        return Err(ParseError::BadLabelEntry { line: li });
                    },
                };
                if label_index == init_label {
                    match initial_state {
                        Some(_) => {
                            return Err(ParseError::MultipleInitialStates);
                        },
                        None => {
                            initial_state = Some(state);
                        },
                    }
                } else {
                    let is_bad_label = match bad_index {
                        Some(b) => b == label_index,
                        None => false,
                    };
                    if is_bad_label {
                        let ghost prev = states@;
                        let mut st = take_state(states, state);
                        st.is_bad = true;
                        put_state(states, state, st);
                        proof {
                            lemma_labels_covered_update(
                                prev,
                                states@,
                                label_names@,
                                state as int,
                                None,
                            );
                        }
                    } else {
                        if contains_label_index(&label_names, label_index) {
                            let ghost prev = states@;
                            let mut st = take_state(states, state);
                            st.labels.push(label_index);
                            put_state(states, state, st);
                            proof {
                                lemma_labels_covered_update(
                                    prev,
                                    states@,
                                    label_names@,
                                    state as int,
                                    Some(label_index),
                                );
                            }
                        } else {
                            return Err(ParseError::BadLabelEntry { line: li });
                        }
                    }
                }
                ei = ei + 1;
            }
            li = li + 1;
        }

        let initial_state = match initial_state {
            Some(v) => v,
            None => {
                return Err(ParseError::NoInitialState);
            },
        };
        Ok((initial_state, label_names))
    }

    /// Parses a counterexample file: one state per line, either in plain
    /// `(v1,...,vk)` form or in `(name=value, ...)` form when the text
    /// holds an equals sign.
    pub fn parse_counterexample_from_file(file_content: &String, ts: &TransitionSystem) -> (r:
        Result<Vec<usize>, ParseError>)
        ensures
            match r {
                Ok(ce) => forall|i: int|
                    0 <= i < ce@.len() ==> (#[trigger] ce@[i]) < ts.states@.len(),
                Err(_) => true,
            },
    {
        let lines = split_lines(file_content);
        if has_char(file_content, '=') {
            Self::parse_counterexample_with_varnames(lines, ts)
        } else {
            Self::parse_counterexample(lines, ts)
        }
    }

    /// Parses counterexample lines of the `(name=value, ...)` form: each
    /// line is resolved to the unique state carrying that valuation.
    pub fn parse_counterexample_with_varnames(
        ce_strings: Vec<String>,
        ts: &TransitionSystem,
    ) -> (r: Result<Vec<usize>, ParseError>)
        ensures
            match r {
                Ok(ce) => forall|i: int|
                    0 <= i < ce@.len() ==> (#[trigger] ce@[i]) < ts.states@.len(),
                Err(_) => true,
            },
    {
        let mut ce: Vec<usize> = Vec::new();
        let line_count = ce_strings.len();
        let mut li: usize = 0;
        while li < line_count
            invariant
                li <= line_count,
                line_count == ce_strings@.len(),
                forall|i: int| 0 <= i < ce@.len() ==> (#[trigger] ce@[i]) < ts.states@.len(),
            decreases line_count - li,
        {
            let line = trim_blanks(&ce_strings[li]);
            let ln = line.as_str().unicode_len();
            if ln == 0 {
                li = li + 1;
                continue ;
            }
            if ln < 2 {
                return Err(ParseError::BadCounterexampleLine { line: li });
            }
            let inner = String::from_str(line.as_str().substring_char(1, ln - 1));
            let assignments = split_on_char(&inner, ',');
            let var_total = ts.variables.len();
            let mut val_indices: Vec<Option<usize>> = Vec::new();
            let mut vi: usize = 0;
            while vi < var_total
                invariant
                    vi <= var_total,
                    val_indices@.len() == vi,
                decreases var_total - vi,
            {
                val_indices.push(None);
                vi = vi + 1;
            }
            let a_count = assignments.len();
            let mut ai: usize = 0;
            while ai < a_count
                invariant
                    ai <= a_count,
                    a_count == assignments@.len(),
                    val_indices@.len() == var_total,
                    var_total == ts.variables@.len(),
                decreases a_count - ai,
            {
                let assignment = trim_blanks(&assignments[ai]);
                let (name_raw, value_raw) = match split_once_char(&assignment, '=') {
                    Some(p) => p,
                    None => {
                        return Err(ParseError::BadCounterexampleLine { line: li });
                    },
                };
                let name = trim_blanks(&name_raw);
                let value = trim_blanks(&value_raw);
                let var_index = match ts.get_variable_index(&name) {
                    Some(v) => v,
                    None => {
                        return Err(ParseError::BadCounterexampleLine { line: li });
                    },
                };
                let val_index = match ts.variables[var_index].get_valuation_index(&value) {
                    Some(v) => v,
                    None => {
                        return Err(ParseError::BadCounterexampleLine { line: li });
                    },
                };
                if val_indices[var_index].is_some() {
                    return Err(ParseError::BadCounterexampleLine { line: li });
                }
                val_indices[var_index] = Some(val_index);
                ai = ai + 1;
            }
            let mut valuation_indices: Vec<usize> = Vec::new();
            let mut vi2: usize = 0;
            while vi2 < var_total
                invariant
                    vi2 <= var_total,
                    var_total == val_indices@.len(),
                    valuation_indices@.len() == vi2,
                decreases var_total - vi2,
            {
                match val_indices[vi2] {
                    Some(v) => {
                        valuation_indices.push(v);
                    },
                    None => {
                        return Err(ParseError::BadCounterexampleLine { line: li });
                    },
                }
                vi2 = vi2 + 1;
            }
            match ts.find_state_with_valuation(&valuation_indices) {
                Some(state_index) => {
                    ce.push(state_index);
                },
                None => {
                    return Err(ParseError::UnknownCounterexampleState { line: li });
                },
            }
            li = li + 1;
        }
        Ok(ce)
    }

    /// Parses counterexample lines of the plain `(v1,...,vk)` form.
    pub fn parse_counterexample(ce_strings: Vec<String>, ts: &TransitionSystem) -> (r: Result<
        Vec<usize>,
        ParseError,
    >)
        ensures
            match r {
                Ok(ce) => forall|i: int|
                    0 <= i < ce@.len() ==> (#[trigger] ce@[i]) < ts.states@.len(),
                Err(_) => true,
            },
    {
        let mut ce: Vec<usize> = Vec::new();
        let line_count = ce_strings.len();
        let mut li: usize = 0;
        while li < line_count
            invariant
                li <= line_count,
                line_count == ce_strings@.len(),
                forall|i: int| 0 <= i < ce@.len() ==> (#[trigger] ce@[i]) < ts.states@.len(),
            decreases line_count - li,
        {
            let line = trim_blanks(&ce_strings[li]);
            let ln = line.as_str().unicode_len();
            if ln == 0 {
                li = li + 1;
                continue ;
            }
            if ln < 2 {
                return Err(ParseError::BadCounterexampleLine { line: li });
            }
            let inner = String::from_str(line.as_str().substring_char(1, ln - 1));
            let vals = split_on_char(&inner, ',');
            let v_count = vals.len();
            if v_count != ts.variables.len() {
                return Err(ParseError::BadCounterexampleLine { line: li });
            }
            let mut val_indices: Vec<usize> = Vec::new();
            let mut vi: usize = 0;
            while vi < v_count
                invariant
                    vi <= v_count,
                    v_count == vals@.len(),
                    v_count == ts.variables@.len(),
                    val_indices@.len() == vi,
                decreases v_count - vi,
            {
                let value = trim_blanks(&vals[vi]);
                match ts.variables[vi].get_valuation_index(&value) {
                    Some(v) => {
                        val_indices.push(v);
                    },
                    None => {
                        return Err(ParseError::BadCounterexampleLine { line: li });
                    },
                }
                vi = vi + 1;
            }
            match ts.find_state_with_valuation(&val_indices) {
                Some(state_index) => {
                    ce.push(state_index);
                },
                None => {
                    return Err(ParseError::UnknownCounterexampleState { line: li });
                },
            }
            li = li + 1;
        }
        Ok(ce)
    }
}

/// Whether the text holds the character anywhere.
pub fn has_char(s: &String, c: char) -> (b: bool)
    ensures
        b == s@.contains(c),
{
    match find_char(s, c) {
        Some(i) => {
            proof {
                assert(s@[i as int] == c);
            }
            true
        },
        None => {
            proof {
                if s@.contains(c) {
                    let w = choose|w: int| 0 <= w < s@.len() && s@[w] == c;
                }
            }
            false
        },
    }
}

/// Strips one leading and one trailing double quote when both are there.
pub fn trim_quotes(s: &String) -> (r: String)
    ensures
        r@.len() <= s@.len(),
{
    let n = s.as_str().unicode_len();
    if n >= 2 {
        if s.as_str().get_char(0) == '"' && s.as_str().get_char(n - 1) == '"' {
            return String::from_str(s.as_str().substring_char(1, n - 1));
        }
    }
    s.clone()
}

/// Whether a label index already occurs in the table.
fn contains_label_index(label_names: &Vec<(usize, String)>, index: usize) -> (b: bool)
    ensures
        b == exists|k: int|
            0 <= k < label_names@.len() && (#[trigger] label_names@[k]).0 == index,
{
    let n = label_names.len();
    let mut k: usize = 0;
    while k < n
        invariant
            k <= n,
            n == label_names@.len(),
            forall|j: int| 0 <= j < k ==> (#[trigger] label_names@[j]).0 != index,
        decreases n - k,
    {
        if label_names[k].0 == index {
            return true;
        }
        k = k + 1;
    }
    false
}

/// Moves one state out of the vector for editing; the slot keeps a
/// placeholder until [`put_state`] restores it.
fn take_state(states: &mut Vec<State>, index: usize) -> (st: State)
    requires
        index < old(states)@.len(),
    ensures
        st == old(states)@[index as int],
        final(states)@.len() == old(states)@.len(),
        forall|s: int|
            0 <= s < final(states)@.len() && s != index ==> (#[trigger] final(states)@[s]) == old(states)@[s],
{
    let placeholder = State::new(Vec::new());
    let mut st = placeholder;
    let ghost before = states@;
    std_mem_swap_state(&mut st, states, index);
    st
}

/// Puts an edited state back into its slot.
fn put_state(states: &mut Vec<State>, index: usize, st: State)
    requires
        index < old(states)@.len(),
    ensures
        final(states)@ =~= old(states)@.update(index as int, st),
{
    states[index] = st;
}

/// Swaps a state out of the vector.
fn std_mem_swap_state(st: &mut State, states: &mut Vec<State>, index: usize)
    requires
        index < old(states)@.len(),
    ensures
        *final(st) == old(states)@[index as int],
        final(states)@.len() == old(states)@.len(),
        forall|s: int|
            0 <= s < final(states)@.len() && s != index ==> (#[trigger] final(states)@[s]) == old(states)@[s],
{
    let taken = states.remove(index);
    states.insert(index, State::new(Vec::new()));
    proof {
        assert(states@ =~= old(states)@.update(index as int, states@[index as int]));
    }
    *st = taken;
}

/// Looks a valuation up in one variable's table, adding it when absent;
/// nothing when the table can grow no further.
fn add_valuation(variables: &mut Vec<Variable>, w: usize, value: &String) -> (r: Option<usize>)
    requires
        w < old(variables)@.len(),
    ensures
        final(variables)@.len() == old(variables)@.len(),
        forall|s: int|
            0 <= s < final(variables)@.len() && s != w ==> (#[trigger] final(variables)@[s])
                == old(variables)@[s],
        forall|s: int|
            0 <= s < final(variables)@.len() ==> (#[trigger] old(variables)@[s]).valuation_names@.len()
                <= final(variables)@[s].valuation_names@.len(),
        match r {
            Some(vi) => vi < final(variables)@[w as int].valuation_names@.len(),
            None => true,
        },
{
    let mut var = variables.remove(w);
    if var.valuation_names.len() == usize::MAX {
        variables.insert(w, var);
        proof {
            assert(variables@ =~= old(variables)@);
        }
        return None;
    }
    let vi = var.get_valuation_index_or_add(value);
    variables.insert(w, var);
    proof {
        assert(variables@ =~= old(variables)@.update(w as int, variables@[w as int]));
    }
    Some(vi)
}

} // verus!
