//! Determinism harness: repeated-trace stability measurement.
//!
//! For a system whose core claim is "same build, same root", the stability of
//! the root over repeated runs is measured like any other property. This module
//! says what to run next and what the runs amount to.

use crate::attest::{judge_dropped, DropVerdict};
use crate::attestation::Attestation;
use crate::digest;
use crate::merkle;
use crate::report;
use crate::report::format_command;
use crate::stability;
use crate::stability::{analyze, StabilityError, StabilityReport};
use crate::text;
use crate::text::{concat, format_decimal, format_wide};
use crate::tracer::utf8_text;
use vstd::prelude::*;
use vstd::string::*;
use vstd::utf8::*;

verus! {

/// Configuration for a determinism experiment.
pub struct HarnessConfig {
    /// Number of repeated trace runs.
    pub runs: usize,
    /// Directories to monitor system-wide (watch mode).
    pub watch_dirs: Vec<String>,
    /// Explicit artifact files to attest.
    pub artifacts: Vec<String>,
    /// Directories whose changed files should be attested.
    pub output_roots: Vec<String>,
    /// Produce attestations even if the event ring dropped events.
    pub allow_dropped_events: bool,
    /// The command to trace repeatedly.
    pub command: Vec<String>,
    /// Directory in which to store run attestations (optional).
    pub output_dir: Option<String>,
}

/// Why an experiment ends before its report.
#[derive(Debug, Clone, Copy, PartialEq, Eq, Structural)]
pub enum HarnessError {
    /// So few runs cannot be compared.
    TooFewRuns(usize),
    /// A run dropped events.
    Dropped { run: usize, events: u64 },
}

impl HarnessError {
    /// The error in words.
    pub fn message(&self) -> (text: String)
        ensures
            text@ == (match *self {
                HarnessError::TooFewRuns(n) =>
                    "determinism harness requires at least 2 runs (got "@ + text::decimal(n as nat)
                    + ")"@,
                HarnessError::Dropped { run, events } => "Run "@ + text::decimal(run as nat)
                    + " dropped "@ + text::decimal(events as nat)
                    + " events. Use --allow-dropped-events to continue anyway."@,
            }),
    {
        match self {
            HarnessError::TooFewRuns(n) => {
                let mut text = concat(
                    "determinism harness requires at least 2 runs (got ",
                    format_decimal(*n as u64).as_str(),
                );
                text.append(")");
                text
            },
            HarnessError::Dropped { run, events } => {
                let mut text = concat("Run ", format_decimal(*run as u64).as_str());
                text.append(" dropped ");
                text.append(format_decimal(*events).as_str());
                text.append(" events. Use --allow-dropped-events to continue anyway.");
                text
            },
        }
    }
}

/// An experiment under way.
pub struct Harness {
    runs: usize,
    allow_dropped_events: bool,
    outcomes: Vec<(String, Attestation)>,
    dropped: u128,
}

/// An experiment under way, as mathematical data.
pub struct Experiment {
    /// How many runs are wanted.
    pub runs: nat,
    /// Whether runs that dropped events count.
    pub allow_dropped_events: bool,
    /// The attestations so far, each with where it was written.
    pub outcomes: Seq<(String, Attestation)>,
    /// How many events were dropped so far.
    pub dropped: nat,
}

impl View for Harness {
    type V = Experiment;

    closed spec fn view(&self) -> Experiment {
        Experiment {
            runs: self.runs as nat,
            allow_dropped_events: self.allow_dropped_events,
            outcomes: self.outcomes@,
            dropped: self.dropped as nat,
        }
    }
}

impl Harness {
    /// Only wanted runs were recorded, and of each run its dropped events.
    #[verifier::type_invariant]
    spec fn well_formed(self) -> bool {
        &&& self.runs >= 2
        &&& self.outcomes@.len() <= self.runs
        &&& self.dropped <= self.outcomes@.len() * u64::MAX
    }

    /// Begins an experiment. One run cannot be compared with anything.
    pub fn begin(config: &HarnessConfig) -> (result: Result<Harness, HarnessError>)
        ensures
            match result {
                Ok(h) => config.runs >= 2 && h@ == (Experiment {
                    runs: config.runs as nat,
                    allow_dropped_events: config.allow_dropped_events,
                    outcomes: Seq::empty(),
                    dropped: 0,
                }),
                Err(e) => config.runs < 2 && e == HarnessError::TooFewRuns(config.runs),
            },
    {
        if config.runs < 2 {
            return Err(HarnessError::TooFewRuns(config.runs));
        }
        let h = Harness {
            runs: config.runs,
            allow_dropped_events: config.allow_dropped_events,
            outcomes: Vec::new(),
            dropped: 0,
        };
        assert(h@.outcomes =~= Seq::empty());
        Ok(h)
    }

    /// The number of the next run, from one on, if there is one.
    pub fn next_run(&self) -> (run: Option<usize>)
        ensures
            match run {
                Some(n) => self@.outcomes.len() < self@.runs && n == self@.outcomes.len() + 1,
                None => self@.outcomes.len() == self@.runs,
            },
    {
        proof {
            use_type_invariant(self);
        }
        if self.outcomes.len() < self.runs {
            Some(self.outcomes.len() + 1)
        } else {
            None
        }
    }

    /// Decides whether a run counts, by the events that it dropped. Unless that
    /// was allowed beforehand, a run that dropped any ends the experiment.
    pub fn decide(&self, dropped_events: u64) -> (result: Result<DropVerdict, HarnessError>)
        requires
            self@.outcomes.len() < self@.runs,
        ensures
            result == (if dropped_events == 0 {
                Ok::<DropVerdict, HarnessError>(DropVerdict::Complete)
            } else if self@.allow_dropped_events {
                Ok::<DropVerdict, HarnessError>(DropVerdict::Incomplete)
            } else {
                Err::<DropVerdict, HarnessError>(
                    HarnessError::Dropped {
                        run: (self@.outcomes.len() + 1) as usize,
                        events: dropped_events,
                    },
                )
            }),
    {
        match judge_dropped(dropped_events, self.allow_dropped_events) {
            DropVerdict::Complete => Ok(DropVerdict::Complete),
            DropVerdict::Incomplete => Ok(DropVerdict::Incomplete),
            DropVerdict::Refused => Err(
                HarnessError::Dropped { run: self.outcomes.len() + 1, events: dropped_events },
            ),
        }
    }

    /// Records the outcome of a run.
    pub fn record(&mut self, path: String, attestation: Attestation, dropped_events: u64)
        requires
            old(self)@.outcomes.len() < old(self)@.runs,
        ensures
            final(self)@ == (Experiment {
                outcomes: old(self)@.outcomes.push((path, attestation)),
                dropped: old(self)@.dropped + dropped_events as nat,
                ..old(self)@
            }),
    {
        proof {
            use_type_invariant(&*self);
            let n = self.outcomes@.len();
            let m = u64::MAX as nat;
            assert((n + 1) * m == n * m + m) by (nonlinear_arith);
            assert((n + 1) * m <= u128::MAX) by (nonlinear_arith)
                requires
                    n + 1 <= 0xffff_ffff_ffff_ffff,
                    m == 0xffff_ffff_ffff_ffff,
            ;
        }
        let dropped = self.dropped;
        let mut outcomes: Vec<(String, Attestation)> = Vec::new();
        self.dropped = 0;
        std::mem::swap(&mut self.outcomes, &mut outcomes);
        outcomes.push((path, attestation));
        std::mem::swap(&mut self.outcomes, &mut outcomes);
        self.dropped = dropped + dropped_events as u128;
    }

    /// Compares the runs with the first of them.
    pub fn report(&self) -> (result: Result<StabilityReport, StabilityError>)
        ensures
            match result {
                Err(StabilityError::TooFew) => self@.outcomes.len() < 2,
                Ok(report) => {
                    &&& self@.outcomes.len() >= 2
                    &&& report.baseline@ == self@.outcomes[0].0@
                    &&& report.run_count == self@.outcomes.len()
                    &&& report.runs@.len() == self@.outcomes.len()
                    &&& forall|i: int|
                        0 <= i < self@.outcomes.len() ==> stability::compares(
                            #[trigger] report.runs@[i],
                            self@.outcomes[i].0@,
                            self@.outcomes[i].1,
                            self@.outcomes[0].1,
                        )
                    &&& report.root_matches == stability::count_runs(
                        report.runs@,
                        stability::has_root(),
                    )
                    &&& report.process_root_matches == stability::count_runs(
                        report.runs@,
                        stability::has_process_root(),
                    )
                    &&& report.root_matches <= report.run_count
                    &&& report.process_root_matches <= report.run_count
                },
            },
    {
        analyze(self.outcomes.as_slice())
    }

    /// What is said when a run begins.
    pub fn run_text(&self, run: usize) -> (text: String)
        ensures
            text@ == "  Run "@ + text::decimal(run as nat) + "/"@ + text::decimal(self@.runs)
                + " ... "@,
    {
        let mut text = concat("  Run ", format_decimal(run as u64).as_str());
        text.append("/");
        text.append(format_decimal(self.runs as u64).as_str());
        text.append(" ... ");
        text
    }

    /// What is said of dropped events: nothing where there were none.
    pub fn dropped_text(&self) -> (text: String)
        ensures
            text@ == (if self@.dropped == 0 {
                Seq::empty()
            } else {
                ("Total dropped events across "@ + text::decimal(self@.runs) + " runs: "@
                    + text::decimal(self@.dropped)).push('\n')
            }),
    {
        if self.dropped == 0 {
            return String::new();
        }
        let mut text = concat(
            "Total dropped events across ",
            format_decimal(self.runs as u64).as_str(),
        );
        text.append(" runs: ");
        text.append(format_wide(self.dropped).as_str());
        text.push('\n');
        text
    }
}

/// A line that shows a list, unless it is empty.
pub open spec fn list_line(label: Seq<char>, list: Seq<String>, shown: Seq<char>) -> Seq<char> {
    if list.len() == 0 {
        Seq::empty()
    } else {
        ("  "@ + label + ": "@ + shown).push('\n')
    }
}

fn shown_line(label: &str, list: &Vec<String>, shown: &str) -> (line: String)
    ensures
        line@ == list_line(label@, list@, shown@),
{
    if list.len() == 0 {
        return String::new();
    }
    let mut line = concat("  ", label);
    line.append(": ");
    line.append(shown);
    line.push('\n');
    line
}

/// What is said when an experiment begins, given the output roots and the
/// artifacts as they are shown.
pub fn opening_text(config: &HarnessConfig, output_roots: &str, artifacts: &str) -> (text: String)
    ensures
        text@ == ("repx determinism harness — "@ + text::decimal(config.runs as nat)
            + " runs"@).push('\n') + ("  Command: "@ + report::command_text(
            text::texts(config.command@),
        )).push('\n') + list_line("Output roots"@, config.output_roots@, output_roots@)
            + list_line("Artifacts"@, config.artifacts@, artifacts@) + seq!['\n'],
{
    let mut text = concat("repx determinism harness — ", format_decimal(config.runs as u64).as_str());
    text.append(" runs");
    text.push('\n');
    let mut command = concat("  Command: ", format_command(config.command.as_slice()).as_str());
    command.push('\n');
    text.append(command.as_str());
    text.append(shown_line("Output roots", &config.output_roots, output_roots).as_str());
    text.append(shown_line("Artifacts", &config.artifacts, artifacts).as_str());
    let ghost before = text@;
    text.push('\n');
    assert(text@ =~= before + seq!['\n']);
    text
}

/// What is said of the events that a run dropped, by whether the run counts.
pub fn run_drops_text(dropped_events: u64, counts: bool) -> (text: String)
    ensures
        text@ == (if dropped_events == 0 {
            Seq::empty()
        } else if counts {
            "WARNING: "@ + text::decimal(dropped_events as nat) + " dropped, "@
        } else {
            ("FAILED ("@ + text::decimal(dropped_events as nat) + " events dropped)"@).push('\n')
        }),
{
    if dropped_events == 0 {
        return String::new();
    }
    let number = format_decimal(dropped_events);
    if counts {
        let mut text = concat("WARNING: ", number.as_str());
        text.append(" dropped, ");
        text
    } else {
        let mut text = concat("FAILED (", number.as_str());
        text.append(" events dropped)");
        text.push('\n');
        text
    }
}

/// What is said of a run that was attested.
pub fn attested_text(attestation: &Attestation) -> (text: String)
    requires
        can_be_shortened(attestation@.root_hash),
    ensures
        text@ == ("root="@ + shortened(attestation@.root_hash) + "... leaf_count="@
            + text::decimal(attestation@.leaf_count)).push('\n'),
{
    let mut text = concat("root=", short_root(attestation.root_hash.as_str()).as_str());
    text.append("... leaf_count=");
    text.append(format_decimal(attestation.tree.leaf_count as u64).as_str());
    text.push('\n');
    text
}

/// The number with at least three digits.
pub open spec fn three_digits(n: nat) -> Seq<char> {
    if n < 10 {
        "00"@ + text::decimal(n)
    } else if n < 100 {
        "0"@ + text::decimal(n)
    } else {
        text::decimal(n)
    }
}

/// The name of the file that the attestation of a run is written to.
pub fn run_file_name(run: usize) -> (name: String)
    ensures
        name@ == "run-"@ + three_digits(run as nat) + "-attestation.json"@,
{
    let digits = format_decimal(run as u64);
    let padded = if run < 10 {
        concat("00", digits.as_str())
    } else if run < 100 {
        concat("0", digits.as_str())
    } else {
        digits
    };
    let mut name = concat("run-", padded.as_str());
    name.append("-attestation.json");
    name
}

/// Whether the first 16 bytes of a root end with a character, as those of a digest
/// do.
pub open spec fn can_be_shortened(root_hash: Seq<char>) -> bool {
    encode_utf8(root_hash).len() <= 16 || valid_utf8(encode_utf8(root_hash).take(16))
}

/// The beginning of a root, as it is shown for a run: its first 16 bytes.
pub open spec fn shortened(root_hash: Seq<char>) -> Seq<char> {
    if encode_utf8(root_hash).len() <= 16 {
        root_hash
    } else {
        decode_utf8(encode_utf8(root_hash).take(16))
    }
}

/// The beginning of a root, as it is shown for a run.
pub fn short_root(root_hash: &str) -> (short: String)
    requires
        can_be_shortened(root_hash@),
    ensures
        short@ == shortened(root_hash@),
{
    let bytes = root_hash.as_bytes();
    if bytes.len() <= 16 {
        return root_hash.to_string();
    }
    let head = vstd::slice::slice_subrange(bytes, 0, 16);
    assert(head@ =~= encode_utf8(root_hash@).take(16));
    match utf8_text(head) {
        Some(short) => short.to_string(),
        None => String::new(),
    }
}

/// What a report amounts to, in words.
pub fn verdict_text(report: &StabilityReport) -> (text: String)
    requires
        report.root_matches <= report.run_count,
    ensures
        text@ == (if report.root_matches < report.run_count {
            ("WARNING: "@ + text::decimal((report.run_count - report.root_matches) as nat) + " of "@
                + text::decimal(report.run_count as nat)
                + " runs produced a different attestation root."@).push('\n')
        } else {
            ("All "@ + text::decimal(report.run_count as nat)
                + " runs produced identical attestation roots."@).push('\n')
        }),
{
    let total = format_decimal(report.run_count as u64);
    if report.root_matches < report.run_count {
        let different = format_decimal((report.run_count - report.root_matches) as u64);
        let mut text = concat("WARNING: ", different.as_str());
        text.append(" of ");
        text.append(total.as_str());
        text.append(" runs produced a different attestation root.");
        text.push('\n');
        text
    } else {
        let mut text = concat("All ", total.as_str());
        text.append(" runs produced identical attestation roots.");
        text.push('\n');
        text
    }
}

// ---------------------------------------------------------------------------
// Laws
// ---------------------------------------------------------------------------

/// Every digest, and so the root of every new attestation, can be shortened, to
/// its first 16 characters.
pub proof fn law_digests_can_be_shortened(data: Seq<u8>)
    ensures
        can_be_shortened(digest::hash_text(data)),
        shortened(digest::hash_text(data)) == digest::hash_text(data).take(16),
{
    let hash = digest::hash_text(data);
    let head = hash.take(16);
    merkle::lemma_digest_size(data);
    is_ascii_chars_encode_utf8(hash);
    assert(is_ascii_chars(head)) by {
        assert forall|i: int| 0 <= i < head.len() implies #[trigger] head[i] == hash[i] by {}
    }
    is_ascii_chars_encode_utf8(head);
    assert(encode_utf8(hash).take(16) =~= encode_utf8(head)) by {
        assert forall|i: int| 0 <= i < 16 implies encode_utf8(hash)[i] == encode_utf8(head)[i] by {
            assert(hash[i] as u8 == encode_utf8(hash)[i]);
            assert(head[i] as u8 == encode_utf8(head)[i]);
        }
    }
    encode_utf8_valid_utf8(head);
    encode_utf8_decode_utf8(head);
}

} // verus!
