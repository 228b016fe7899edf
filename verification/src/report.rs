//! Attestations in words: what one covers, and how two differ.

use crate::attestation;
use crate::attestation::{Attestation, AttestedOutput, OutputSelection, Selection};
use crate::merkle;
use crate::merkle::{diff_leaf_sets, sorted_difference, LeafSetDiff};
use crate::order;
use crate::order::sort_set;
use crate::text;
use crate::text::{chars_of, format_decimal, format_wide, text_eq};
use crate::workspace::Output;
use vstd::prelude::*;
use vstd::string::*;

verus! {

// ---------------------------------------------------------------------------
// Commands
// ---------------------------------------------------------------------------

/// Whether a character needs no quoting in a shell.
pub open spec fn is_plain(c: char) -> bool {
    ('0' <= c && c <= '9') || ('A' <= c && c <= 'Z') || ('a' <= c && c <= 'z') || c == '/' || c
        == '.' || c == '_' || c == '-' || c == '=' || c == ':' || c == '+'
}

/// A text inside single quotes, with its own single quotes written outside them.
pub open spec fn quoted_inside(s: Seq<char>) -> Seq<char>
    decreases s.len(),
{
    if s.len() == 0 {
        Seq::empty()
    } else {
        quoted_inside(s.drop_last()) + if s.last() == '\'' {
            "'\"'\"'"@
        } else {
            seq![s.last()]
        }
    }
}

/// An argument as it would be typed in a shell.
pub open spec fn shell_text(arg: Seq<char>) -> Seq<char> {
    if arg.len() == 0 {
        "''"@
    } else if forall|i: int| 0 <= i < arg.len() ==> is_plain(#[trigger] arg[i]) {
        arg
    } else {
        seq!['\''] + quoted_inside(arg) + seq!['\'']
    }
}

/// A command as it would be typed in a shell.
pub open spec fn command_text(command: Seq<Seq<char>>) -> Seq<char>
    decreases command.len(),
{
    if command.len() == 0 {
        Seq::empty()
    } else if command.len() == 1 {
        shell_text(command[0])
    } else {
        command_text(command.drop_last()) + seq![' '] + shell_text(command.last())
    }
}

/// Writes an argument as it would be typed in a shell.
pub fn shell_display_arg(arg: &str) -> (result: String)
    ensures
        result@ == shell_text(arg@),
{
    let chars = chars_of(arg);
    if chars.len() == 0 {
        return "''".to_string();
    }
    let mut plain = true;
    for i in 0..chars.len()
        invariant
            chars@ == arg@,
            plain == forall|k: int| 0 <= k < i ==> is_plain(#[trigger] arg@[k]),
    {
        let c = chars[i];
        let fine = ('0' <= c && c <= '9') || ('A' <= c && c <= 'Z') || ('a' <= c && c <= 'z') || c
            == '/' || c == '.' || c == '_' || c == '-' || c == '=' || c == ':' || c == '+';
        assert(fine == is_plain(arg@[i as int]));
        if !fine {
            plain = false;
        }
    }
    if plain {
        return arg.to_string();
    }
    let mut result = String::new();
    result.push('\'');
    assert(result@ =~= seq!['\''] + quoted_inside(arg@.take(0)));
    for i in 0..chars.len()
        invariant
            chars@ == arg@,
            result@ == seq!['\''] + quoted_inside(arg@.take(i as int)),
    {
        proof {
            assert(arg@.take(i as int + 1).drop_last() =~= arg@.take(i as int));
        }
        if chars[i] == '\'' {
            result.append("'\"'\"'");
        } else {
            result.push(chars[i]);
        }
        assert(result@ =~= seq!['\''] + quoted_inside(arg@.take(i as int + 1)));
    }
    assert(arg@.take(arg@.len() as int) =~= arg@);
    result.push('\'');
    assert(result@ =~= seq!['\''] + quoted_inside(arg@) + seq!['\'']);
    result
}

/// Writes a command as it would be typed in a shell.
pub fn format_command(command: &[String]) -> (result: String)
    ensures
        result@ == command_text(text::texts(command@)),
{
    let ghost t = text::texts(command@);
    let mut result = String::new();
    for i in 0..command.len()
        invariant
            t == text::texts(command@),
            result@ == command_text(t.take(i as int)),
    {
        proof {
            assert(t.take(i as int + 1).drop_last() =~= t.take(i as int));
        }
        if i > 0 {
            result.push(' ');
        }
        result.append(shell_display_arg(command[i].as_str()).as_str());
        assert(result@ =~= command_text(t.take(i as int + 1)));
    }
    assert(t.take(t.len() as int) =~= t);
    result
}

// ---------------------------------------------------------------------------
// Lines
// ---------------------------------------------------------------------------

/// A line that says one thing of another.
pub open spec fn line(label: Seq<char>, value: Seq<char>) -> Seq<char> {
    (label + value).push('\n')
}

/// One line for each text.
pub open spec fn lines(label: Seq<char>, values: Seq<Seq<char>>) -> Seq<char>
    decreases values.len(),
{
    if values.len() == 0 {
        Seq::empty()
    } else {
        lines(label, values.drop_last()) + line(label, values.last())
    }
}

fn push_line(out: &mut String, label: &str, value: &str)
    ensures
        final(out)@ == old(out)@ + line(label@, value@),
{
    out.append(label);
    out.append(value);
    out.push('\n');
    assert(out@ =~= old(out)@ + line(label@, value@));
}

fn push_lines(out: &mut String, label: &str, values: &Vec<String>)
    ensures
        final(out)@ == old(out)@ + lines(label@, text::texts(values@)),
{
    let ghost t = text::texts(values@);
    assert(out@ =~= old(out)@ + lines(label@, t.take(0)));
    for i in 0..values.len()
        invariant
            t == text::texts(values@),
            out@ == old(out)@ + lines(label@, t.take(i as int)),
    {
        proof {
            assert(t.take(i as int + 1).drop_last() =~= t.take(i as int));
        }
        push_line(out, label, values[i].as_str());
        assert(out@ =~= old(out)@ + lines(label@, t.take(i as int + 1)));
    }
    assert(t.take(t.len() as int) =~= t);
}

// ---------------------------------------------------------------------------
// What an attestation covers
// ---------------------------------------------------------------------------

/// A heading and one line for each text, or nothing where there are none.
pub open spec fn listed(heading: Seq<char>, values: Seq<Seq<char>>) -> Seq<char> {
    if values.len() == 0 {
        Seq::empty()
    } else {
        line(heading, Seq::empty()) + lines("  - "@, values)
    }
}

/// The outputs, hash first.
pub open spec fn output_texts(outputs: Seq<Output>) -> Seq<Seq<char>> {
    outputs.map_values(|o: Output| o.hash + seq![' '] + o.path)
}

/// What an attestation covers, in words.
pub open spec fn explanation(a: attestation::Document, leaf_count: nat) -> Seq<char> {
    line("Root hash: "@, a.root_hash) + line("Process-set root: "@, a.process_root) + line(
        "Predicate: "@,
        a.predicate_type,
    ) + line("Command: "@, command_text(a.command)) + line(
        "Output selection: "@,
        a.output_selection.mode,
    ) + listed("Artifacts:"@, a.output_selection.artifacts) + listed(
        "Output roots:"@,
        a.output_selection.output_roots,
    ) + line("Outputs: "@, text::decimal(a.outputs.len())) + lines("  - "@, output_texts(a.outputs))
        + line("Merkle leaves: "@, text::decimal(leaf_count)) + line(
        "Commitment semantics: sorted set of distinct covered operations"@,
        Seq::empty(),
    )
}

fn push_listed(out: &mut String, heading: &str, values: &Vec<String>)
    ensures
        final(out)@ == old(out)@ + listed(heading@, text::texts(values@)),
{
    proof {
        reveal_strlit("");
        assert(""@ =~= Seq::empty());
    }
    if values.len() == 0 {
        assert(text::texts(values@).len() == 0);
        assert(out@ =~= old(out)@ + Seq::empty());
        return;
    }
    push_line(out, heading, "");
    push_lines(out, "  - ", values);
    assert(text::texts(values@).len() > 0);
    assert(out@ =~= old(out)@ + listed(heading@, text::texts(values@)));
}

fn outputs_in_words(outputs: &Vec<AttestedOutput>) -> (texts: Vec<String>)
    ensures
        text::texts(texts@) == output_texts(attestation::attested_views(outputs@)),
{
    let mut texts: Vec<String> = Vec::new();
    for i in 0..outputs.len()
        invariant
            texts@.len() == i,
            forall|k: int|
                0 <= k < i ==> (#[trigger] texts@[k])@ == outputs@[k].hash@ + seq![' ']
                    + outputs@[k].path@,
    {
        let mut t = outputs[i].hash.clone();
        t.push(' ');
        t.append(outputs[i].path.as_str());
        assert(t@ =~= outputs@[i as int].hash@ + seq![' '] + outputs@[i as int].path@);
        texts.push(t);
    }
    assert(text::texts(texts@) =~= output_texts(attestation::attested_views(outputs@)));
    texts
}

/// Explains what an attestation covers.
pub fn explain_attestation(att: &Attestation) -> (out: String)
    ensures
        out@ == explanation(att@, att.tree.leaf_count as nat),
{
    let mut out = String::new();
    proof {
        reveal_strlit("");
        assert(""@ =~= Seq::empty());
    }
    let command = format_command(att.command.as_slice());
    push_line(&mut out, "Root hash: ", att.root_hash.as_str());
    assert(out@ =~= line("Root hash: "@, att@.root_hash));
    push_line(&mut out, "Process-set root: ", att.process_root.as_str());
    push_line(&mut out, "Predicate: ", att.predicate_type.as_str());
    push_line(&mut out, "Command: ", command.as_str());
    push_line(&mut out, "Output selection: ", att.output_selection.mode.as_str());
    push_listed(&mut out, "Artifacts:", &att.output_selection.artifacts);
    push_listed(&mut out, "Output roots:", &att.output_selection.output_roots);
    push_line(&mut out, "Outputs: ", format_decimal(att.outputs.len() as u64).as_str());
    let outputs = outputs_in_words(&att.outputs);
    push_lines(&mut out, "  - ", &outputs);
    push_line(&mut out, "Merkle leaves: ", format_decimal(att.tree.leaf_count as u64).as_str());
    push_line(
        &mut out,
        "Commitment semantics: sorted set of distinct covered operations",
        "",
    );
    out
}

// ---------------------------------------------------------------------------
// How two attestations differ
// ---------------------------------------------------------------------------

/// Two lines that give an expected and an actual value.
pub open spec fn both(expected: Seq<char>, actual: Seq<char>) -> Seq<char> {
    line("  expected: "@, expected) + line("  actual:   "@, actual)
}

/// What is said of the roots.
pub open spec fn root_delta(expected: Seq<char>, actual: Seq<char>) -> Seq<char> {
    if expected == actual {
        line("Root hash: matches ("@, expected + seq![')'])
    } else {
        line("Root hash:"@, Seq::empty()) + both(expected, actual)
    }
}

/// What is said of the commands: nothing where they are the same.
pub open spec fn command_delta(expected: Seq<Seq<char>>, actual: Seq<Seq<char>>) -> Seq<char> {
    if expected == actual {
        Seq::empty()
    } else {
        line("Command changed:"@, Seq::empty()) + both(command_text(expected), command_text(actual))
    }
}

/// What is said of two lists of some kind, taken as sets.
pub open spec fn list_delta(
    kind: Seq<char>,
    expected: Seq<Seq<char>>,
    actual: Seq<Seq<char>>,
) -> Seq<char> {
    let e = order::sorted_set(expected);
    let a = order::sorted_set(actual);
    lines("  missing "@ + kind + ": "@, merkle::difference(e, a)) + lines(
        "  added "@ + kind + ": "@,
        merkle::difference(a, e),
    )
}

/// What is said of the selections: nothing where they are the same.
pub open spec fn selection_delta(expected: Selection, actual: Selection) -> Seq<char> {
    if expected == actual {
        Seq::empty()
    } else {
        line("Output selection changed:"@, Seq::empty()) + line(
            "  expected mode: "@,
            expected.mode,
        ) + line("  actual mode:   "@, actual.mode) + list_delta(
            "artifact"@,
            expected.artifacts,
            actual.artifacts,
        ) + list_delta("output root"@, expected.output_roots, actual.output_roots)
    }
}

/// The hash that the last output with a path has.
pub open spec fn hash_at(outputs: Seq<Output>, path: Seq<char>) -> Option<Seq<char>>
    decreases outputs.len(),
{
    if outputs.len() == 0 {
        None
    } else if outputs.last().path == path {
        Some(outputs.last().hash)
    } else {
        hash_at(outputs.drop_last(), path)
    }
}

/// How a path differs between expected and actual outputs.
#[derive(Clone, Copy, PartialEq, Eq, Structural)]
pub enum OutputChange {
    Same,
    Changed,
    Missing,
    Added,
}

/// How a path differs between expected and actual outputs.
pub open spec fn change_at(expected: Seq<Output>, actual: Seq<Output>, path: Seq<char>) -> OutputChange {
    match (hash_at(expected, path), hash_at(actual, path)) {
        (Some(e), Some(a)) => if e == a {
            OutputChange::Same
        } else {
            OutputChange::Changed
        },
        (Some(_), None) => OutputChange::Missing,
        (None, Some(_)) => OutputChange::Added,
        (None, None) => OutputChange::Same,
    }
}

/// How many paths of a list differ in one way.
pub open spec fn count_changes(
    expected: Seq<Output>,
    actual: Seq<Output>,
    paths: Seq<Seq<char>>,
    change: OutputChange,
) -> nat
    decreases paths.len(),
{
    if paths.len() == 0 {
        0
    } else {
        count_changes(expected, actual, paths.drop_last(), change) + if change_at(
            expected,
            actual,
            paths.last(),
        ) == change {
            1nat
        } else {
            0nat
        }
    }
}

/// What is said of one path.
pub open spec fn path_delta(expected: Seq<Output>, actual: Seq<Output>, path: Seq<char>) -> Seq<char> {
    match change_at(expected, actual, path) {
        OutputChange::Same => Seq::empty(),
        OutputChange::Changed => line("  changed: "@, path) + line(
            "    expected: "@,
            hash_at(expected, path)->0,
        ) + line("    actual:   "@, hash_at(actual, path)->0),
        OutputChange::Missing => line(
            "  missing: "@,
            hash_at(expected, path)->0 + seq![' '] + path,
        ),
        OutputChange::Added => line("  added:   "@, hash_at(actual, path)->0 + seq![' '] + path),
    }
}

/// What is said of the paths of a list, of which `shown` others were shown
/// before; no more than 20 are shown.
pub open spec fn path_deltas(
    expected: Seq<Output>,
    actual: Seq<Output>,
    paths: Seq<Seq<char>>,
    shown: int,
) -> Seq<char>
    decreases paths.len(),
{
    if paths.len() == 0 {
        Seq::empty()
    } else {
        let n = if change_at(expected, actual, paths[0]) == OutputChange::Same {
            shown
        } else {
            shown + 1
        };
        path_delta(expected, actual, paths[0]) + if n >= 20 {
            line("  ... more output differences omitted"@, Seq::empty())
        } else {
            path_deltas(expected, actual, paths.skip(1), n)
        }
    }
}

/// The paths of the outputs.
pub open spec fn paths_of(outputs: Seq<Output>) -> Seq<Seq<char>> {
    outputs.map_values(|o: Output| o.path)
}

/// The paths of expected and actual outputs, in ascending order.
pub open spec fn all_paths(expected: Seq<Output>, actual: Seq<Output>) -> Seq<Seq<char>> {
    order::sorted_set(paths_of(expected) + paths_of(actual))
}

/// What is said of the outputs.
pub open spec fn output_delta(expected: Seq<Output>, actual: Seq<Output>) -> Seq<char> {
    let paths = all_paths(expected, actual);
    let changed = count_changes(expected, actual, paths, OutputChange::Changed);
    let missing = count_changes(expected, actual, paths, OutputChange::Missing);
    let added = count_changes(expected, actual, paths, OutputChange::Added);
    if paths.len() == 0 {
        line("Outputs: none recorded"@, Seq::empty())
    } else if changed == 0 && missing == 0 && added == 0 {
        line("Outputs: all "@, text::decimal(paths.len()) + " match"@)
    } else {
        line(
            "Outputs changed: "@,
            text::decimal(changed) + " changed, "@ + text::decimal(missing) + " missing, "@
                + text::decimal(added) + " added"@,
        ) + path_deltas(expected, actual, paths, 0)
    }
}

/// What is said of the numbers of operations.
pub open spec fn count_delta(expected: nat, actual: nat) -> Seq<char> {
    if expected == actual {
        line("Canonical op count: "@, text::decimal(expected))
    } else {
        line("Canonical op count changed:"@, Seq::empty()) + both(
            text::decimal(expected),
            text::decimal(actual),
        )
    }
}

/// The first 12 of a list.
pub open spec fn first_dozen(list: Seq<Seq<char>>) -> Seq<Seq<char>> {
    if list.len() <= 12 {
        list
    } else {
        list.take(12)
    }
}

/// How many of a list are left after the first 12.
pub open spec fn beyond_dozen(list: Seq<Seq<char>>) -> nat {
    if list.len() <= 12 {
        0
    } else {
        (list.len() - 12) as nat
    }
}

/// What is said of the operations that one side lacks; no more than 12 of each
/// side are shown.
pub open spec fn operation_delta(missing: Seq<Seq<char>>, added: Seq<Seq<char>>) -> Seq<char> {
    if missing.len() == 0 && added.len() == 0 {
        line("Operation set: no differences"@, Seq::empty())
    } else {
        let omitted = beyond_dozen(missing) + beyond_dozen(added);
        line(
            "Operation set changed: "@,
            text::decimal(missing.len()) + " missing, "@ + text::decimal(added.len()) + " added"@,
        ) + lines("  missing: "@, first_dozen(missing)) + lines("  added:   "@, first_dozen(added))
            + if omitted > 0 {
            line("  ... "@, text::decimal(omitted) + " more"@)
        } else {
            Seq::empty()
        }
    }
}

/// How two attestations differ, in words.
pub open spec fn attestation_delta(expected: Attestation, actual: Attestation) -> Seq<char> {
    let e = expected@;
    let a = actual@;
    let x = order::sorted_set(expected.tree.leaf_texts());
    let y = order::sorted_set(actual.tree.leaf_texts());
    root_delta(e.root_hash, a.root_hash) + command_delta(e.command, a.command) + selection_delta(
        e.output_selection,
        a.output_selection,
    ) + output_delta(e.outputs, a.outputs) + count_delta(
        expected.tree.leaf_count as nat,
        actual.tree.leaf_count as nat,
    ) + operation_delta(merkle::difference(x, y), merkle::difference(y, x))
}

fn push_both(out: &mut String, expected: &str, actual: &str)
    ensures
        final(out)@ == old(out)@ + both(expected@, actual@),
{
    push_line(out, "  expected: ", expected);
    push_line(out, "  actual:   ", actual);
    assert(out@ =~= old(out)@ + both(expected@, actual@));
}

fn same_texts(a: &Vec<String>, b: &Vec<String>) -> (same: bool)
    ensures
        same == (text::texts(a@) == text::texts(b@)),
{
    let ghost s = text::texts(a@);
    let ghost t = text::texts(b@);
    if a.len() != b.len() {
        assert(s.len() != t.len());
        return false;
    }
    for i in 0..a.len()
        invariant
            a.len() == b.len(),
            s == text::texts(a@),
            t == text::texts(b@),
            forall|k: int| 0 <= k < i ==> s[k] == t[k],
    {
        if !text_eq(a[i].as_str(), b[i].as_str()) {
            assert(s[i as int] != t[i as int]);
            return false;
        }
    }
    assert(s =~= t);
    true
}

/// Whether two selections are the same.
pub fn same_selection(a: &OutputSelection, b: &OutputSelection) -> (same: bool)
    ensures
        same == (a@ == b@),
{
    let same = text_eq(a.mode.as_str(), b.mode.as_str()) && same_texts(&a.artifacts, &b.artifacts)
        && same_texts(&a.output_roots, &b.output_roots);
    proof {
        if same {
            assert(a@ =~= b@);
        }
    }
    same
}

/// Whether two commands are the same.
pub fn same_command(a: &Vec<String>, b: &Vec<String>) -> (same: bool)
    ensures
        same == (text::texts(a@) == text::texts(b@)),
{
    same_texts(a, b)
}

fn root_change(expected: &str, actual: &str) -> (out: String)
    ensures
        out@ == root_delta(expected@, actual@),
{
    let mut out = String::new();
    proof {
        reveal_strlit("");
        assert(""@ =~= Seq::empty());
    }
    if text_eq(expected, actual) {
        let mut value = expected.to_string();
        value.push(')');
        assert(value@ =~= expected@ + seq![')']);
        push_line(&mut out, "Root hash: matches (", value.as_str());
    } else {
        push_line(&mut out, "Root hash:", "");
        push_both(&mut out, expected, actual);
    }
    assert(out@ =~= root_delta(expected@, actual@));
    out
}

fn command_change(expected: &Vec<String>, actual: &Vec<String>) -> (out: String)
    ensures
        out@ == command_delta(text::texts(expected@), text::texts(actual@)),
{
    let mut out = String::new();
    proof {
        reveal_strlit("");
        assert(""@ =~= Seq::empty());
    }
    if !same_texts(expected, actual) {
        let e = format_command(expected.as_slice());
        let a = format_command(actual.as_slice());
        push_line(&mut out, "Command changed:", "");
        push_both(&mut out, e.as_str(), a.as_str());
    }
    assert(out@ =~= command_delta(text::texts(expected@), text::texts(actual@)));
    out
}

/// Says which texts of a kind one list has and the other lacks.
pub fn print_string_list_delta(label: &str, expected: &Vec<String>, actual: &Vec<String>) -> (out:
    String)
    ensures
        out@ == list_delta(label@, text::texts(expected@), text::texts(actual@)),
{
    let e = sort_set(expected);
    let a = sort_set(actual);
    proof {
        order::law_sorted_set(text::texts(expected@));
        order::law_sorted_set(text::texts(actual@));
    }
    let missing = sorted_difference(&e, &a);
    let added = sorted_difference(&a, &e);
    let mut missing_label = "  missing ".to_string();
    missing_label.append(label);
    missing_label.append(": ");
    let mut added_label = "  added ".to_string();
    added_label.append(label);
    added_label.append(": ");
    let mut out = String::new();
    push_lines(&mut out, missing_label.as_str(), &missing);
    push_lines(&mut out, added_label.as_str(), &added);
    assert(out@ =~= list_delta(label@, text::texts(expected@), text::texts(actual@)));
    out
}

fn selection_change(expected: &OutputSelection, actual: &OutputSelection) -> (out: String)
    ensures
        out@ == selection_delta(expected@, actual@),
{
    let mut out = String::new();
    proof {
        reveal_strlit("");
        assert(""@ =~= Seq::empty());
    }
    if !same_selection(expected, actual) {
        push_line(&mut out, "Output selection changed:", "");
        push_line(&mut out, "  expected mode: ", expected.mode.as_str());
        push_line(&mut out, "  actual mode:   ", actual.mode.as_str());
        out.append(
            print_string_list_delta("artifact", &expected.artifacts, &actual.artifacts).as_str(),
        );
        out.append(
            print_string_list_delta(
                "output root",
                &expected.output_roots,
                &actual.output_roots,
            ).as_str(),
        );
    }
    assert(out@ =~= selection_delta(expected@, actual@));
    out
}

fn find_hash(outputs: &Vec<AttestedOutput>, path: &str) -> (hash: Option<String>)
    ensures
        text::opt_text(hash) == hash_at(attestation::attested_views(outputs@), path@),
{
    let ghost views = attestation::attested_views(outputs@);
    let mut i: usize = outputs.len();
    assert(views.take(i as int) =~= views);
    while i > 0
        invariant
            i <= outputs@.len(),
            views == attestation::attested_views(outputs@),
            hash_at(views, path@) == hash_at(views.take(i as int), path@),
        decreases i,
    {
        assert(views.take(i as int).drop_last() =~= views.take(i as int - 1));
        i = i - 1;
        if text_eq(outputs[i].path.as_str(), path) {
            return Some(outputs[i].hash.clone());
        }
    }
    None
}

fn classify(expected: &Option<String>, actual: &Option<String>) -> (change: OutputChange)
    ensures
        change == (match (text::opt_text(*expected), text::opt_text(*actual)) {
            (Some(e), Some(a)) => if e == a {
                OutputChange::Same
            } else {
                OutputChange::Changed
            },
            (Some(_), None) => OutputChange::Missing,
            (None, Some(_)) => OutputChange::Added,
            (None, None) => OutputChange::Same,
        }),
{
    match (expected, actual) {
        (Some(e), Some(a)) => if text_eq(e.as_str(), a.as_str()) {
            OutputChange::Same
        } else {
            OutputChange::Changed
        },
        (Some(_), None) => OutputChange::Missing,
        (None, Some(_)) => OutputChange::Added,
        (None, None) => OutputChange::Same,
    }
}

/// The paths of two lists of outputs, sorted, and the hash each list has at
/// each path. Where a list has a path more than once, its last hash counts.
fn outputs_by_path(outputs: &Vec<AttestedOutput>, paths: &Vec<String>) -> (hashes: Vec<
    Option<String>,
>)
    ensures
        hashes@.len() == paths@.len(),
        forall|i: int|
            0 <= i < paths@.len() ==> text::opt_text(#[trigger] hashes@[i]) == hash_at(
                attestation::attested_views(outputs@),
                paths@[i]@,
            ),
{
    let mut hashes: Vec<Option<String>> = Vec::new();
    for i in 0..paths.len()
        invariant
            hashes@.len() == i,
            forall|k: int|
                0 <= k < i ==> text::opt_text(#[trigger] hashes@[k]) == hash_at(
                    attestation::attested_views(outputs@),
                    paths@[k]@,
                ),
    {
        hashes.push(find_hash(outputs, paths[i].as_str()));
    }
    hashes
}

fn gather_paths(expected: &Vec<AttestedOutput>, actual: &Vec<AttestedOutput>) -> (paths: Vec<String>)
    ensures
        text::texts(paths@) == all_paths(
            attestation::attested_views(expected@),
            attestation::attested_views(actual@),
        ),
{
    let ghost e = paths_of(attestation::attested_views(expected@));
    let ghost a = paths_of(attestation::attested_views(actual@));
    let mut paths: Vec<String> = Vec::new();
    for i in 0..expected.len()
        invariant
            e == paths_of(attestation::attested_views(expected@)),
            text::texts(paths@) == e.take(i as int),
    {
        let ghost before = paths@;
        paths.push(expected[i].path.clone());
        assert(text::texts(paths@) =~= text::texts(before).push(e[i as int]));
        assert(text::texts(paths@) =~= e.take(i as int + 1));
    }
    assert(text::texts(paths@) =~= e + a.take(0));
    for i in 0..actual.len()
        invariant
            a == paths_of(attestation::attested_views(actual@)),
            text::texts(paths@) == e + a.take(i as int),
    {
        let ghost before = paths@;
        paths.push(actual[i].path.clone());
        assert(text::texts(paths@) =~= text::texts(before).push(a[i as int]));
        assert(text::texts(paths@) =~= e + a.take(i as int + 1));
    }
    assert(a.take(a.len() as int) =~= a);
    sort_set(&paths)
}

fn push_path_delta(
    out: &mut String,
    path: &str,
    expected: &Option<String>,
    actual: &Option<String>,
    Ghost(e): Ghost<Seq<Output>>,
    Ghost(a): Ghost<Seq<Output>>,
) -> (differs: bool)
    requires
        text::opt_text(*expected) == hash_at(e, path@),
        text::opt_text(*actual) == hash_at(a, path@),
    ensures
        final(out)@ == old(out)@ + path_delta(e, a, path@),
        differs == (change_at(e, a, path@) != OutputChange::Same),
{
    match (expected, actual) {
        (Some(x), Some(y)) => {
            if text_eq(x.as_str(), y.as_str()) {
                assert(out@ =~= old(out)@ + path_delta(e, a, path@));
                return false;
            }
            push_line(out, "  changed: ", path);
            push_line(out, "    expected: ", x.as_str());
            push_line(out, "    actual:   ", y.as_str());
        },
        (Some(x), None) => {
            let mut value = x.clone();
            value.push(' ');
            value.append(path);
            assert(value@ =~= x@ + seq![' '] + path@);
            push_line(out, "  missing: ", value.as_str());
        },
        (None, Some(y)) => {
            let mut value = y.clone();
            value.push(' ');
            value.append(path);
            assert(value@ =~= y@ + seq![' '] + path@);
            push_line(out, "  added:   ", value.as_str());
        },
        (None, None) => {
            assert(out@ =~= old(out)@ + path_delta(e, a, path@));
            return false;
        },
    }
    assert(out@ =~= old(out)@ + path_delta(e, a, path@));
    true
}

/// Says how expected and actual outputs differ.
pub fn print_output_delta(expected: &Vec<AttestedOutput>, actual: &Vec<AttestedOutput>) -> (out:
    String)
    ensures
        out@ == output_delta(
            attestation::attested_views(expected@),
            attestation::attested_views(actual@),
        ),
{
    let ghost e = attestation::attested_views(expected@);
    let ghost a = attestation::attested_views(actual@);
    let mut out = String::new();
    proof {
        reveal_strlit("");
        assert(""@ =~= Seq::empty());
    }
    let paths = gather_paths(expected, actual);
    let ghost p = text::texts(paths@);
    assert(p.len() == paths@.len());
    if paths.len() == 0 {
        push_line(&mut out, "Outputs: none recorded", "");
        assert(out@ =~= output_delta(e, a));
        return out;
    }
    let expected_hashes = outputs_by_path(expected, &paths);
    let actual_hashes = outputs_by_path(actual, &paths);
    let mut changed: usize = 0;
    let mut missing: usize = 0;
    let mut added: usize = 0;
    for i in 0..paths.len()
        invariant
            p == text::texts(paths@),
            e == attestation::attested_views(expected@),
            a == attestation::attested_views(actual@),
            expected_hashes@.len() == paths@.len(),
            actual_hashes@.len() == paths@.len(),
            forall|k: int|
                0 <= k < paths@.len() ==> text::opt_text(#[trigger] expected_hashes@[k]) == hash_at(
                    e,
                    paths@[k]@,
                ),
            forall|k: int|
                0 <= k < paths@.len() ==> text::opt_text(#[trigger] actual_hashes@[k]) == hash_at(
                    a,
                    paths@[k]@,
                ),
            changed <= i,
            missing <= i,
            added <= i,
            changed == count_changes(e, a, p.take(i as int), OutputChange::Changed),
            missing == count_changes(e, a, p.take(i as int), OutputChange::Missing),
            added == count_changes(e, a, p.take(i as int), OutputChange::Added),
    {
        proof {
            assert(p.take(i as int + 1).drop_last() =~= p.take(i as int));
            assert(text::opt_text(expected_hashes@[i as int]) == hash_at(e, p[i as int]));
            assert(text::opt_text(actual_hashes@[i as int]) == hash_at(a, p[i as int]));
        }
        match classify(&expected_hashes[i], &actual_hashes[i]) {
            OutputChange::Same => {},
            OutputChange::Changed => {
                changed = changed + 1;
            },
            OutputChange::Missing => {
                missing = missing + 1;
            },
            OutputChange::Added => {
                added = added + 1;
            },
        }
    }
    assert(p.take(p.len() as int) =~= p);
    if changed == 0 && missing == 0 && added == 0 {
        let mut value = format_decimal(paths.len() as u64);
        value.append(" match");
        push_line(&mut out, "Outputs: all ", value.as_str());
        assert(out@ =~= output_delta(e, a));
        return out;
    }
    let mut value = format_decimal(changed as u64);
    value.append(" changed, ");
    value.append(format_decimal(missing as u64).as_str());
    value.append(" missing, ");
    value.append(format_decimal(added as u64).as_str());
    value.append(" added");
    push_line(&mut out, "Outputs changed: ", value.as_str());
    let ghost whole = output_delta(e, a);
    let mut shown: usize = 0;
    let mut i: usize = 0;
    proof {
        assert(p.skip(0) =~= p);
        assert(whole =~= out@ + path_deltas(e, a, p.skip(0), 0));
    }
    while i < paths.len()
        invariant_except_break
            whole == out@ + path_deltas(e, a, p.skip(i as int), shown as int),
            shown < 20,
        invariant
            p == text::texts(paths@),
            e == attestation::attested_views(expected@),
            a == attestation::attested_views(actual@),
            expected_hashes@.len() == paths@.len(),
            actual_hashes@.len() == paths@.len(),
            forall|k: int|
                0 <= k < paths@.len() ==> text::opt_text(#[trigger] expected_hashes@[k]) == hash_at(
                    e,
                    paths@[k]@,
                ),
            forall|k: int|
                0 <= k < paths@.len() ==> text::opt_text(#[trigger] actual_hashes@[k]) == hash_at(
                    a,
                    paths@[k]@,
                ),
            i <= paths@.len(),
            ""@ == Seq::<char>::empty(),
        ensures
            whole == out@,
        decreases paths@.len() - i,
    {
        let ghost before = out@;
        let ghost rest = p.skip(i as int);
        proof {
            assert(rest[0] == p[i as int]);
            assert(rest.skip(1) =~= p.skip(i as int + 1));
            assert(text::opt_text(expected_hashes@[i as int]) == hash_at(e, p[i as int]));
            assert(text::opt_text(actual_hashes@[i as int]) == hash_at(a, p[i as int]));
        }
        let differs = push_path_delta(
            &mut out,
            paths[i].as_str(),
            &expected_hashes[i],
            &actual_hashes[i],
            Ghost(e),
            Ghost(a),
        );
        if differs {
            shown = shown + 1;
        }
        if shown >= 20 {
            push_line(&mut out, "  ... more output differences omitted", "");
            assert(whole =~= out@);
            break;
        }
        assert(whole =~= out@ + path_deltas(e, a, p.skip(i as int + 1), shown as int));
        i = i + 1;
    }
    out
}

fn dozen(list: &Vec<String>) -> (first: Vec<String>)
    ensures
        text::texts(first@) == first_dozen(text::texts(list@)),
{
    let n: usize = if list.len() < 12 {
        list.len()
    } else {
        12
    };
    let ghost t = text::texts(list@);
    let mut first: Vec<String> = Vec::new();
    for i in 0..n
        invariant
            n <= list.len(),
            t == text::texts(list@),
            text::texts(first@) == t.take(i as int),
    {
        let ghost before = first@;
        first.push(list[i].clone());
        assert(text::texts(first@) =~= text::texts(before).push(t[i as int]));
        assert(text::texts(first@) =~= t.take(i as int + 1));
    }
    assert(t.len() == list@.len());
    assert(text::texts(first@) =~= first_dozen(t));
    first
}

fn operation_change(diff: &LeafSetDiff) -> (out: String)
    ensures
        out@ == operation_delta(text::texts(diff.missing@), text::texts(diff.added@)),
{
    let ghost m = text::texts(diff.missing@);
    let ghost a = text::texts(diff.added@);
    assert(m.len() == diff.missing@.len() && a.len() == diff.added@.len());
    let mut out = String::new();
    proof {
        reveal_strlit("");
        assert(""@ =~= Seq::empty());
    }
    if diff.missing.len() == 0 && diff.added.len() == 0 {
        push_line(&mut out, "Operation set: no differences", "");
        assert(out@ =~= operation_delta(m, a));
        return out;
    }
    let mut value = format_decimal(diff.missing.len() as u64);
    value.append(" missing, ");
    value.append(format_decimal(diff.added.len() as u64).as_str());
    value.append(" added");
    push_line(&mut out, "Operation set changed: ", value.as_str());
    push_lines(&mut out, "  missing: ", &dozen(&diff.missing));
    push_lines(&mut out, "  added:   ", &dozen(&diff.added));
    let more_missing: u128 = if diff.missing.len() > 12 {
        (diff.missing.len() - 12) as u128
    } else {
        0
    };
    let more_added: u128 = if diff.added.len() > 12 {
        (diff.added.len() - 12) as u128
    } else {
        0
    };
    let omitted: u128 = more_missing + more_added;
    if omitted > 0 {
        let mut more = format_wide(omitted);
        more.append(" more");
        push_line(&mut out, "  ... ", more.as_str());
    }
    assert(out@ =~= operation_delta(m, a));
    out
}

fn count_change(expected: usize, actual: usize) -> (out: String)
    ensures
        out@ == count_delta(expected as nat, actual as nat),
{
    let mut out = String::new();
    proof {
        reveal_strlit("");
        assert(""@ =~= Seq::empty());
    }
    let e = format_decimal(expected as u64);
    let a = format_decimal(actual as u64);
    if expected != actual {
        push_line(&mut out, "Canonical op count changed:", "");
        push_both(&mut out, e.as_str(), a.as_str());
    } else {
        push_line(&mut out, "Canonical op count: ", e.as_str());
    }
    assert(out@ =~= count_delta(expected as nat, actual as nat));
    out
}

/// Says how two attestations differ.
pub fn print_attestation_diff(expected: &Attestation, actual: &Attestation) -> (out: String)
    ensures
        out@ == attestation_delta(*expected, *actual),
{
    let mut out = root_change(expected.root_hash.as_str(), actual.root_hash.as_str());
    out.append(command_change(&expected.command, &actual.command).as_str());
    out.append(selection_change(&expected.output_selection, &actual.output_selection).as_str());
    out.append(print_output_delta(&expected.outputs, &actual.outputs).as_str());
    out.append(count_change(expected.tree.leaf_count, actual.tree.leaf_count).as_str());
    let diff = diff_leaf_sets(&expected.tree, &actual.tree);
    out.append(operation_change(&diff).as_str());
    out
}

// ---------------------------------------------------------------------------
// Laws
// ---------------------------------------------------------------------------

proof fn lemma_nothing_changed(outputs: Seq<Output>, paths: Seq<Seq<char>>, change: OutputChange)
    requires
        change != OutputChange::Same,
    ensures
        count_changes(outputs, outputs, paths, change) == 0,
    decreases paths.len(),
{
    if paths.len() > 0 {
        lemma_nothing_changed(outputs, paths.drop_last(), change);
    }
}

/// An attestation does not differ from itself: the roots match, all outputs
/// match, and the operation sets have no differences.
pub proof fn law_no_difference_from_itself(a: Attestation)
    ensures
        ({
            let d = a@;
            let paths = all_paths(d.outputs, d.outputs);
            attestation_delta(a, a) == line("Root hash: matches ("@, d.root_hash + seq![')']) + (
            if paths.len() == 0 {
                line("Outputs: none recorded"@, Seq::empty())
            } else {
                line("Outputs: all "@, text::decimal(paths.len()) + " match"@)
            }) + line("Canonical op count: "@, text::decimal(a.tree.leaf_count as nat)) + line(
                "Operation set: no differences"@,
                Seq::empty(),
            )
        }),
{
    let d = a@;
    let paths = all_paths(d.outputs, d.outputs);
    let x = order::sorted_set(a.tree.leaf_texts());
    lemma_nothing_changed(d.outputs, paths, OutputChange::Changed);
    lemma_nothing_changed(d.outputs, paths, OutputChange::Missing);
    lemma_nothing_changed(d.outputs, paths, OutputChange::Added);
    merkle::lemma_difference_members(x, x);
    let none = merkle::difference(x, x);
    if none.len() > 0 {
        assert(none.contains(none[0]));
    }
    let roots = line("Root hash: matches ("@, d.root_hash + seq![')']);
    assert(roots + Seq::empty() + Seq::empty() =~= roots);
}

/// Whether a text says something: it holds it as a part.
pub open spec fn says(text: Seq<char>, part: Seq<char>) -> bool {
    exists|before: Seq<char>, after: Seq<char>| #[trigger] (before + part + after) == text
}

proof fn lemma_says_within(a: Seq<char>, b: Seq<char>, part: Seq<char>)
    ensures
        says(a, part) ==> says(a + b, part),
        says(b, part) ==> says(a + b, part),
{
    if says(a, part) {
        let (x, y) = choose|x: Seq<char>, y: Seq<char>| #[trigger] (x + part + y) == a;
        assert(x + part + (y + b) =~= a + b);
    }
    if says(b, part) {
        let (x, y) = choose|x: Seq<char>, y: Seq<char>| #[trigger] (x + part + y) == b;
        assert((a + x) + part + y =~= a + b);
    }
}

proof fn lemma_says_itself(part: Seq<char>)
    ensures
        says(part, part),
{
    assert(Seq::<char>::empty() + part + Seq::<char>::empty() =~= part);
}

/// The hash that outputs have at a path: that of the last one with the path.
pub open spec fn has_output(outputs: Seq<Output>, path: Seq<char>, hash: Seq<char>) -> bool {
    exists|i: int|
        0 <= i < outputs.len() && #[trigger] outputs[i] == (Output { path, hash }) && forall|j: int|
            i < j < outputs.len() ==> (#[trigger] outputs[j]).path != path
}

/// Whether no output has a path.
pub open spec fn lacks_output(outputs: Seq<Output>, path: Seq<char>) -> bool {
    forall|i: int| 0 <= i < outputs.len() ==> (#[trigger] outputs[i]).path != path
}

proof fn lemma_hash_at(outputs: Seq<Output>, path: Seq<char>)
    ensures
        match hash_at(outputs, path) {
            Some(h) => has_output(outputs, path, h),
            None => lacks_output(outputs, path),
        },
    decreases outputs.len(),
{
    if outputs.len() > 0 {
        let d = outputs.drop_last();
        let n = d.len() as int;
        assert(outputs[n] == outputs.last());
        if outputs.last().path == path {
            assert(outputs[n] == (Output { path, hash: outputs.last().hash }));
        } else {
            lemma_hash_at(d, path);
            match hash_at(d, path) {
                Some(h) => {
                    let i = choose|i: int|
                        0 <= i < d.len() && #[trigger] d[i] == (Output { path, hash: h })
                            && forall|j: int| i < j < d.len() ==> (#[trigger] d[j]).path != path;
                    assert(outputs[i] == (Output { path, hash: h }));
                    assert forall|j: int| i < j < outputs.len() implies (
                    #[trigger] outputs[j]).path != path by {
                        if j < n {
                            assert(d[j] == outputs[j]);
                        }
                    }
                },
                None => {
                    assert forall|i: int| 0 <= i < outputs.len() implies (
                    #[trigger] outputs[i]).path != path by {
                        if i < n {
                            assert(d[i] == outputs[i]);
                        }
                    }
                },
            }
        }
    }
}

proof fn lemma_has_output(outputs: Seq<Output>, path: Seq<char>, hash: Seq<char>)
    ensures
        has_output(outputs, path, hash) ==> hash_at(outputs, path) == Some(hash),
        lacks_output(outputs, path) ==> hash_at(outputs, path) is None,
{
    lemma_hash_at(outputs, path);
    if has_output(outputs, path, hash) {
        let i = choose|i: int|
            0 <= i < outputs.len() && #[trigger] outputs[i] == (Output { path, hash }) && forall|
                j: int,
            | i < j < outputs.len() ==> (#[trigger] outputs[j]).path != path;
        match hash_at(outputs, path) {
            Some(h) => {
                let k = choose|k: int|
                    0 <= k < outputs.len() && #[trigger] outputs[k] == (Output { path, hash: h })
                        && forall|j: int|
                        k < j < outputs.len() ==> (#[trigger] outputs[j]).path != path;
                if i < k {
                    assert(outputs[k].path != path);
                }
                if k < i {
                    assert(outputs[i].path != path);
                }
            },
            None => {
                assert(outputs[i].path != path);
            },
        }
    }
    if lacks_output(outputs, path) {
        if let Some(h) = hash_at(outputs, path) {
            let k = choose|k: int|
                0 <= k < outputs.len() && #[trigger] outputs[k] == (Output { path, hash: h })
                    && forall|j: int|
                    k < j < outputs.len() ==> (#[trigger] outputs[j]).path != path;
            assert(outputs[k].path != path);
        }
    }
}

/// Whether expected and actual outputs differ at a path: one has it and the other
/// lacks it, or their hashes there are different.
pub open spec fn differ_at(expected: Seq<Output>, actual: Seq<Output>, path: Seq<char>) -> bool {
    ||| lacks_output(expected, path) != lacks_output(actual, path)
    ||| exists|x: Seq<char>, y: Seq<char>|
        #![trigger has_output(expected, path, x), has_output(actual, path, y)]
        x != y && has_output(expected, path, x) && has_output(actual, path, y)
}

proof fn lemma_change_at(expected: Seq<Output>, actual: Seq<Output>, path: Seq<char>)
    ensures
        (change_at(expected, actual, path) != OutputChange::Same) == differ_at(
            expected,
            actual,
            path,
        ),
{
    lemma_hash_at(expected, path);
    lemma_hash_at(actual, path);
    let none = Seq::<char>::empty();
    lemma_has_output(expected, path, none);
    lemma_has_output(actual, path, none);
    if let Some(h) = hash_at(expected, path) {
        assert(!lacks_output(expected, path));
    }
    if let Some(h) = hash_at(actual, path) {
        assert(!lacks_output(actual, path));
    }
    if differ_at(expected, actual, path) && lacks_output(expected, path) == lacks_output(
        actual,
        path,
    ) {
        let (x, y) = choose|x: Seq<char>, y: Seq<char>|
            #![trigger has_output(expected, path, x), has_output(actual, path, y)]
            x != y && has_output(expected, path, x) && has_output(actual, path, y);
        lemma_has_output(expected, path, x);
        lemma_has_output(actual, path, y);
    }
}

/// How many paths of a list expected and actual outputs differ at.
pub open spec fn differences(
    expected: Seq<Output>,
    actual: Seq<Output>,
    paths: Seq<Seq<char>>,
) -> nat
    decreases paths.len(),
{
    if paths.len() == 0 {
        0
    } else if differ_at(expected, actual, paths.last()) {
        differences(expected, actual, paths.drop_last()) + 1
    } else {
        differences(expected, actual, paths.drop_last())
    }
}

proof fn lemma_differences_from_front(
    expected: Seq<Output>,
    actual: Seq<Output>,
    paths: Seq<Seq<char>>,
)
    requires
        paths.len() > 0,
    ensures
        differences(expected, actual, paths) == differences(expected, actual, paths.skip(1)) + (
        if differ_at(expected, actual, paths[0]) {
            1nat
        } else {
            0nat
        }),
    decreases paths.len(),
{
    if paths.len() > 1 {
        assert(paths.skip(1).drop_last() =~= paths.drop_last().skip(1));
        assert(paths.skip(1).last() == paths.last());
        lemma_differences_from_front(expected, actual, paths.drop_last());
    } else {
        assert(paths.skip(1).len() == 0);
        assert(paths.drop_last().len() == 0);
        assert(differences(expected, actual, paths.drop_last()) == 0);
    }
}

proof fn lemma_path_is_shown(
    expected: Seq<Output>,
    actual: Seq<Output>,
    paths: Seq<Seq<char>>,
    shown: int,
    k: int,
)
    requires
        0 <= k < paths.len(),
        shown + differences(expected, actual, paths.take(k)) < 20,
    ensures
        says(
            path_deltas(expected, actual, paths, shown),
            path_delta(expected, actual, paths[k]),
        ),
    decreases k,
{
    let head = path_delta(expected, actual, paths[0]);
    let n = if change_at(expected, actual, paths[0]) == OutputChange::Same {
        shown
    } else {
        shown + 1
    };
    lemma_change_at(expected, actual, paths[0]);
    if k == 0 {
        lemma_says_itself(head);
        let rest = if n >= 20 {
            line("  ... more output differences omitted"@, Seq::empty())
        } else {
            path_deltas(expected, actual, paths.skip(1), n)
        };
        lemma_says_within(head, rest, head);
    } else {
        let first = paths.take(k);
        lemma_differences_from_front(expected, actual, first);
        assert(first.skip(1) =~= paths.skip(1).take(k - 1));
        assert(first[0] == paths[0]);
        lemma_path_is_shown(expected, actual, paths.skip(1), n, k - 1);
        assert(paths.skip(1)[k - 1] == paths[k]);
        lemma_says_within(
            head,
            path_deltas(expected, actual, paths.skip(1), n),
            path_delta(expected, actual, paths[k]),
        );
    }
}

/// Whether a list holds each path of expected and actual outputs once, in
/// ascending order.
pub open spec fn lists_paths(
    expected: Seq<Output>,
    actual: Seq<Output>,
    paths: Seq<Seq<char>>,
) -> bool {
    &&& forall|i: int, j: int|
        0 <= i < j < paths.len() ==> text::text_lt(#[trigger] paths[i], #[trigger] paths[j])
    &&& forall|path: Seq<char>| #[trigger]
        paths.contains(path) <==> !lacks_output(expected, path) || !lacks_output(actual, path)
}

proof fn lemma_lists_paths(expected: Seq<Output>, actual: Seq<Output>, paths: Seq<Seq<char>>)
    requires
        lists_paths(expected, actual, paths),
    ensures
        paths == all_paths(expected, actual),
{
    let all = paths_of(expected) + paths_of(actual);
    let sorted = order::sorted_set(all);
    order::law_sorted_set(all);
    assert forall|path: Seq<char>| #[trigger] paths.contains(path) <==> sorted.contains(path) by {
        assert(sorted.contains(path) <==> all.contains(path));
        if all.contains(path) {
            let k = choose|k: int| 0 <= k < all.len() && all[k] == path;
            if k < expected.len() {
                assert(expected[k].path == path);
            } else {
                assert(actual[k - expected.len()].path == path);
            }
        }
        if !lacks_output(expected, path) {
            let k = choose|k: int| 0 <= k < expected.len() && (#[trigger] expected[k]).path == path;
            assert(all[k] == path);
        }
        if !lacks_output(actual, path) {
            let k = choose|k: int| 0 <= k < actual.len() && (#[trigger] actual[k]).path == path;
            assert(all[expected.len() + k] == path);
        }
    }
    order::lemma_strictly_ascending_unique(paths, sorted);
}

proof fn lemma_some_change(
    expected: Seq<Output>,
    actual: Seq<Output>,
    paths: Seq<Seq<char>>,
    k: int,
)
    requires
        0 <= k < paths.len(),
        differ_at(expected, actual, paths[k]),
    ensures
        count_changes(expected, actual, paths, OutputChange::Changed) + count_changes(
            expected,
            actual,
            paths,
            OutputChange::Missing,
        ) + count_changes(expected, actual, paths, OutputChange::Added) > 0,
    decreases paths.len(),
{
    lemma_change_at(expected, actual, paths[k]);
    if k < paths.len() - 1 {
        assert(paths.drop_last()[k] == paths[k]);
        lemma_some_change(expected, actual, paths.drop_last(), k);
    } else {
        let change = change_at(expected, actual, paths.last());
        assert(count_changes(expected, actual, paths, change) > 0);
    }
}

proof fn lemma_difference_is_shown(
    expected: Seq<Output>,
    actual: Seq<Output>,
    paths: Seq<Seq<char>>,
    k: int,
)
    requires
        lists_paths(expected, actual, paths),
        0 <= k < paths.len(),
        differ_at(expected, actual, paths[k]),
        differences(expected, actual, paths.take(k)) < 20,
    ensures
        says(output_delta(expected, actual), path_delta(expected, actual, paths[k])),
{
    lemma_lists_paths(expected, actual, paths);
    lemma_some_change(expected, actual, paths, k);
    lemma_path_is_shown(expected, actual, paths, 0, k);
    let changed = count_changes(expected, actual, paths, OutputChange::Changed);
    let missing = count_changes(expected, actual, paths, OutputChange::Missing);
    let added = count_changes(expected, actual, paths, OutputChange::Added);
    let heading = line(
        "Outputs changed: "@,
        text::decimal(changed) + " changed, "@ + text::decimal(missing) + " missing, "@
            + text::decimal(added) + " added"@,
    );
    lemma_says_within(
        heading,
        path_deltas(expected, actual, paths, 0),
        path_delta(expected, actual, paths[k]),
    );
}

/// Where the hashes at a path are different, the report gives the path, the
/// expected hash as expected and the actual one as actual, as far as the path is
/// among the first 20 that differ.
pub proof fn law_changed_outputs_are_reported(
    expected: Seq<Output>,
    actual: Seq<Output>,
    paths: Seq<Seq<char>>,
    k: int,
    e: Seq<char>,
    a: Seq<char>,
)
    requires
        lists_paths(expected, actual, paths),
        0 <= k < paths.len(),
        has_output(expected, paths[k], e),
        has_output(actual, paths[k], a),
        e != a,
        differences(expected, actual, paths.take(k)) < 20,
    ensures
        says(
            output_delta(expected, actual),
            "  changed: "@ + paths[k] + seq!['\n'] + "    expected: "@ + e + seq!['\n']
                + "    actual:   "@ + a + seq!['\n'],
        ),
{
    lemma_has_output(expected, paths[k], e);
    lemma_has_output(actual, paths[k], a);
    lemma_difference_is_shown(expected, actual, paths, k);
    assert(path_delta(expected, actual, paths[k]) =~= "  changed: "@ + paths[k] + seq!['\n']
        + "    expected: "@ + e + seq!['\n'] + "    actual:   "@ + a + seq!['\n']);
}

/// A path that only the expected outputs have is reported as missing, and one that
/// only the actual outputs have as added, each with its hash, as far as the path
/// is among the first 20 that differ.
pub proof fn law_missing_and_added_outputs_are_reported(
    expected: Seq<Output>,
    actual: Seq<Output>,
    paths: Seq<Seq<char>>,
    k: int,
    hash: Seq<char>,
)
    requires
        lists_paths(expected, actual, paths),
        0 <= k < paths.len(),
        differences(expected, actual, paths.take(k)) < 20,
    ensures
        has_output(expected, paths[k], hash) && lacks_output(actual, paths[k]) ==> says(
            output_delta(expected, actual),
            "  missing: "@ + hash + seq![' '] + paths[k] + seq!['\n'],
        ),
        has_output(actual, paths[k], hash) && lacks_output(expected, paths[k]) ==> says(
            output_delta(expected, actual),
            "  added:   "@ + hash + seq![' '] + paths[k] + seq!['\n'],
        ),
{
    let path = paths[k];
    lemma_has_output(expected, path, hash);
    lemma_has_output(actual, path, hash);
    if has_output(expected, path, hash) && lacks_output(actual, path) {
        lemma_difference_is_shown(expected, actual, paths, k);
        assert(path_delta(expected, actual, path) =~= "  missing: "@ + hash + seq![' '] + path
            + seq!['\n']);
    }
    if has_output(actual, path, hash) && lacks_output(expected, path) {
        lemma_difference_is_shown(expected, actual, paths, k);
        assert(path_delta(expected, actual, path) =~= "  added:   "@ + hash + seq![' '] + path
            + seq!['\n']);
    }
}

/// How many paths of a list only the first outputs have.
pub open spec fn only_in(
    outputs: Seq<Output>,
    others: Seq<Output>,
    paths: Seq<Seq<char>>,
) -> nat
    decreases paths.len(),
{
    if paths.len() == 0 {
        0
    } else {
        only_in(outputs, others, paths.drop_last()) + if !lacks_output(outputs, paths.last())
            && lacks_output(others, paths.last()) {
            1nat
        } else {
            0nat
        }
    }
}

proof fn lemma_counts(expected: Seq<Output>, actual: Seq<Output>, paths: Seq<Seq<char>>)
    ensures
        count_changes(expected, actual, paths, OutputChange::Missing) == only_in(
            expected,
            actual,
            paths,
        ),
        count_changes(expected, actual, paths, OutputChange::Added) == only_in(
            actual,
            expected,
            paths,
        ),
        count_changes(expected, actual, paths, OutputChange::Changed) + only_in(
            expected,
            actual,
            paths,
        ) + only_in(actual, expected, paths) == differences(expected, actual, paths),
    decreases paths.len(),
{
    if paths.len() > 0 {
        lemma_counts(expected, actual, paths.drop_last());
        let path = paths.last();
        lemma_change_at(expected, actual, path);
        lemma_hash_at(expected, path);
        lemma_hash_at(actual, path);
        let none = Seq::<char>::empty();
        lemma_has_output(expected, path, none);
        lemma_has_output(actual, path, none);
        if let Some(h) = hash_at(expected, path) {
            assert(!lacks_output(expected, path));
        }
        if let Some(h) = hash_at(actual, path) {
            assert(!lacks_output(actual, path));
        }
    }
}

/// The report begins with how many paths have different hashes, how many are
/// missing and how many were added; where no path differs it only says how many
/// match, or that there are none.
pub proof fn law_output_differences_are_counted(
    expected: Seq<Output>,
    actual: Seq<Output>,
    paths: Seq<Seq<char>>,
)
    requires
        lists_paths(expected, actual, paths),
    ensures
        ({
            let missing = only_in(expected, actual, paths);
            let added = only_in(actual, expected, paths);
            let all = differences(expected, actual, paths);
            &&& paths.len() == 0 ==> output_delta(expected, actual) == "Outputs: none recorded"@
                + seq!['\n']
            &&& paths.len() > 0 && all == 0 ==> output_delta(expected, actual)
                == "Outputs: all "@ + text::decimal(paths.len()) + " match"@ + seq!['\n']
            &&& all > 0 ==> missing + added <= all && ("Outputs changed: "@ + text::decimal(
                (all - missing - added) as nat,
            ) + " changed, "@ + text::decimal(missing) + " missing, "@ + text::decimal(added)
                + " added"@ + seq!['\n']).is_prefix_of(output_delta(expected, actual))
        }),
{
    lemma_lists_paths(expected, actual, paths);
    lemma_counts(expected, actual, paths);
    let missing = only_in(expected, actual, paths);
    let added = only_in(actual, expected, paths);
    let all = differences(expected, actual, paths);
    let delta = output_delta(expected, actual);
    if paths.len() == 0 {
        assert(delta =~= "Outputs: none recorded"@ + seq!['\n']);
    } else if all == 0 {
        assert(delta =~= "Outputs: all "@ + text::decimal(paths.len()) + " match"@ + seq!['\n']);
    } else {
        let heading = "Outputs changed: "@ + text::decimal((all - missing - added) as nat)
            + " changed, "@ + text::decimal(missing) + " missing, "@ + text::decimal(added)
            + " added"@ + seq!['\n'];
        assert(delta =~= heading + path_deltas(expected, actual, paths, 0));
        assert(delta.subrange(0, heading.len() as int) =~= heading);
    }
}

proof fn lemma_line_is_said(label: Seq<char>, values: Seq<Seq<char>>, k: int)
    requires
        0 <= k < values.len(),
    ensures
        says(lines(label, values), label + values[k] + seq!['\n']),
    decreases values.len(),
{
    let part = label + values[k] + seq!['\n'];
    let init = lines(label, values.drop_last());
    let last = line(label, values.last());
    lemma_says_within(init, last, part);
    if k < values.len() - 1 {
        lemma_line_is_said(label, values.drop_last(), k);
    } else {
        assert(last =~= part);
        lemma_says_itself(part);
    }
}

proof fn lemma_six(
    a: Seq<char>,
    b: Seq<char>,
    c: Seq<char>,
    d: Seq<char>,
    e: Seq<char>,
    f: Seq<char>,
    part: Seq<char>,
)
    ensures
        says(a, part) || says(b, part) || says(c, part) || says(d, part) || says(e, part) || says(
            f,
            part,
        ) ==> says(a + b + c + d + e + f, part),
{
    lemma_says_within(a, b, part);
    lemma_says_within(a + b, c, part);
    lemma_says_within(a + b + c, d, part);
    lemma_says_within(a + b + c + d, e, part);
    lemma_says_within(a + b + c + d + e, f, part);
}

proof fn lemma_part_of_the_difference(expected: Attestation, actual: Attestation, part: Seq<char>)
    ensures
        ({
            let e = expected@;
            let a = actual@;
            let x = order::sorted_set(expected.tree.leaf_texts());
            let y = order::sorted_set(actual.tree.leaf_texts());
            says(root_delta(e.root_hash, a.root_hash), part) || says(
                command_delta(e.command, a.command),
                part,
            ) || says(selection_delta(e.output_selection, a.output_selection), part) || says(
                output_delta(e.outputs, a.outputs),
                part,
            ) || says(
                count_delta(expected.tree.leaf_count as nat, actual.tree.leaf_count as nat),
                part,
            ) || says(
                operation_delta(merkle::difference(x, y), merkle::difference(y, x)),
                part,
            ) ==> says(attestation_delta(expected, actual), part)
        }),
{
    let e = expected@;
    let a = actual@;
    let x = order::sorted_set(expected.tree.leaf_texts());
    let y = order::sorted_set(actual.tree.leaf_texts());
    lemma_six(
        root_delta(e.root_hash, a.root_hash),
        command_delta(e.command, a.command),
        selection_delta(e.output_selection, a.output_selection),
        output_delta(e.outputs, a.outputs),
        count_delta(expected.tree.leaf_count as nat, actual.tree.leaf_count as nat),
        operation_delta(merkle::difference(x, y), merkle::difference(y, x)),
        part,
    );
}

/// The difference of two attestations says what the difference of their outputs
/// does.
pub proof fn law_differences_hold_those_of_the_outputs(
    expected: Attestation,
    actual: Attestation,
    part: Seq<char>,
)
    requires
        says(output_delta(expected@.outputs, actual@.outputs), part),
    ensures
        says(attestation_delta(expected, actual), part),
{
    lemma_part_of_the_difference(expected, actual, part);
}

/// The difference of two attestations says whether the roots match; where they do
/// not, it gives both, the expected one as expected and the actual one as actual.
pub proof fn law_root_differences_are_reported(expected: Attestation, actual: Attestation)
    ensures
        ({
            let e = expected.root_hash@;
            let a = actual.root_hash@;
            says(
                attestation_delta(expected, actual),
                if e == a {
                    "Root hash: matches ("@ + e + seq![')', '\n']
                } else {
                    "Root hash:"@ + seq!['\n'] + "  expected: "@ + e + seq!['\n']
                        + "  actual:   "@ + a + seq!['\n']
                },
            )
        }),
{
    let e = expected.root_hash@;
    let a = actual.root_hash@;
    let part = if e == a {
        "Root hash: matches ("@ + e + seq![')', '\n']
    } else {
        "Root hash:"@ + seq!['\n'] + "  expected: "@ + e + seq!['\n'] + "  actual:   "@ + a + seq![
            '\n',
        ]
    };
    assert(root_delta(e, a) =~= part);
    lemma_says_itself(part);
    lemma_part_of_the_difference(expected, actual, part);
}

/// Where the commands are different, the difference of two attestations gives
/// both, the expected one as expected and the actual one as actual.
pub proof fn law_command_differences_are_reported(expected: Attestation, actual: Attestation)
    requires
        text::texts(expected.command@) != text::texts(actual.command@),
    ensures
        says(
            attestation_delta(expected, actual),
            "Command changed:"@ + seq!['\n'] + "  expected: "@ + command_text(
                text::texts(expected.command@),
            ) + seq!['\n'] + "  actual:   "@ + command_text(text::texts(actual.command@)) + seq![
                '\n',
            ],
        ),
{
    let e = text::texts(expected.command@);
    let a = text::texts(actual.command@);
    let part = "Command changed:"@ + seq!['\n'] + "  expected: "@ + command_text(e) + seq!['\n']
        + "  actual:   "@ + command_text(a) + seq!['\n'];
    assert(command_delta(e, a) =~= part);
    lemma_says_itself(part);
    lemma_part_of_the_difference(expected, actual, part);
}

/// Where the numbers of operations are different, the difference of two
/// attestations gives both; else it gives the one.
pub proof fn law_count_differences_are_reported(expected: Attestation, actual: Attestation)
    ensures
        ({
            let e = text::decimal(expected.tree.leaf_count as nat);
            let a = text::decimal(actual.tree.leaf_count as nat);
            says(
                attestation_delta(expected, actual),
                if expected.tree.leaf_count == actual.tree.leaf_count {
                    "Canonical op count: "@ + e + seq!['\n']
                } else {
                    "Canonical op count changed:"@ + seq!['\n'] + "  expected: "@ + e + seq!['\n']
                        + "  actual:   "@ + a + seq!['\n']
                },
            )
        }),
{
    let e = text::decimal(expected.tree.leaf_count as nat);
    let a = text::decimal(actual.tree.leaf_count as nat);
    let part = if expected.tree.leaf_count == actual.tree.leaf_count {
        "Canonical op count: "@ + e + seq!['\n']
    } else {
        "Canonical op count changed:"@ + seq!['\n'] + "  expected: "@ + e + seq!['\n']
            + "  actual:   "@ + a + seq!['\n']
    };
    assert(count_delta(expected.tree.leaf_count as nat, actual.tree.leaf_count as nat) =~= part);
    lemma_says_itself(part);
    lemma_part_of_the_difference(expected, actual, part);
}

/// What one list of some kind has and another lacks is reported: as missing where
/// the expected one has it, as added where the actual one does.
pub proof fn law_list_differences_are_reported(
    kind: Seq<char>,
    expected: Seq<Seq<char>>,
    actual: Seq<Seq<char>>,
    t: Seq<char>,
)
    ensures
        expected.contains(t) && !actual.contains(t) ==> says(
            list_delta(kind, expected, actual),
            "  missing "@ + kind + ": "@ + t + seq!['\n'],
        ),
        actual.contains(t) && !expected.contains(t) ==> says(
            list_delta(kind, expected, actual),
            "  added "@ + kind + ": "@ + t + seq!['\n'],
        ),
{
    let e = order::sorted_set(expected);
    let a = order::sorted_set(actual);
    order::law_sorted_set(expected);
    order::law_sorted_set(actual);
    merkle::lemma_difference_members(e, a);
    merkle::lemma_difference_members(a, e);
    assert(e.contains(t) <==> expected.contains(t));
    assert(a.contains(t) <==> actual.contains(t));
    let missing = merkle::difference(e, a);
    let added = merkle::difference(a, e);
    let x = "  missing "@ + kind + ": "@;
    let y = "  added "@ + kind + ": "@;
    if expected.contains(t) && !actual.contains(t) {
        assert(missing.contains(t));
        let k = choose|k: int| 0 <= k < missing.len() && missing[k] == t;
        lemma_line_is_said(x, missing, k);
        lemma_says_within(lines(x, missing), lines(y, added), x + t + seq!['\n']);
    }
    if actual.contains(t) && !expected.contains(t) {
        assert(added.contains(t));
        let k = choose|k: int| 0 <= k < added.len() && added[k] == t;
        lemma_line_is_said(y, added, k);
        lemma_says_within(lines(x, missing), lines(y, added), y + t + seq!['\n']);
    }
}

/// Where the selections are different, the difference of two attestations gives
/// both modes, and the artifacts and output roots that only one of them has.
pub proof fn law_selection_differences_are_reported(
    expected: Attestation,
    actual: Attestation,
    t: Seq<char>,
)
    requires
        expected@.output_selection != actual@.output_selection,
    ensures
        ({
            let e = expected@.output_selection;
            let a = actual@.output_selection;
            let delta = attestation_delta(expected, actual);
            &&& says(
                delta,
                "Output selection changed:"@ + seq!['\n'] + "  expected mode: "@ + e.mode + seq![
                    '\n',
                ] + "  actual mode:   "@ + a.mode + seq!['\n'],
            )
            &&& e.artifacts.contains(t) && !a.artifacts.contains(t) ==> says(
                delta,
                "  missing "@ + "artifact"@ + ": "@ + t + seq!['\n'],
            )
            &&& a.artifacts.contains(t) && !e.artifacts.contains(t) ==> says(
                delta,
                "  added "@ + "artifact"@ + ": "@ + t + seq!['\n'],
            )
            &&& e.output_roots.contains(t) && !a.output_roots.contains(t) ==> says(
                delta,
                "  missing "@ + "output root"@ + ": "@ + t + seq!['\n'],
            )
            &&& a.output_roots.contains(t) && !e.output_roots.contains(t) ==> says(
                delta,
                "  added "@ + "output root"@ + ": "@ + t + seq!['\n'],
            )
        }),
{
    let e = expected@.output_selection;
    let a = actual@.output_selection;
    let heading = line("Output selection changed:"@, Seq::empty()) + line(
        "  expected mode: "@,
        e.mode,
    ) + line("  actual mode:   "@, a.mode);
    let artifacts = list_delta("artifact"@, e.artifacts, a.artifacts);
    let roots = list_delta("output root"@, e.output_roots, a.output_roots);
    assert(selection_delta(e, a) == heading + artifacts + roots);
    let head = "Output selection changed:"@ + seq!['\n'] + "  expected mode: "@ + e.mode + seq![
        '\n',
    ] + "  actual mode:   "@ + a.mode + seq!['\n'];
    assert(heading =~= head);
    let p1 = "  missing "@ + "artifact"@ + ": "@ + t + seq!['\n'];
    let p2 = "  added "@ + "artifact"@ + ": "@ + t + seq!['\n'];
    let p3 = "  missing "@ + "output root"@ + ": "@ + t + seq!['\n'];
    let p4 = "  added "@ + "output root"@ + ": "@ + t + seq!['\n'];
    law_list_differences_are_reported("artifact"@, e.artifacts, a.artifacts, t);
    law_list_differences_are_reported("output root"@, e.output_roots, a.output_roots, t);
    lemma_says_itself(head);
    lemma_three(heading, artifacts, roots, head);
    lemma_three(heading, artifacts, roots, p1);
    lemma_three(heading, artifacts, roots, p2);
    lemma_three(heading, artifacts, roots, p3);
    lemma_three(heading, artifacts, roots, p4);
    lemma_part_of_the_difference(expected, actual, head);
    lemma_part_of_the_difference(expected, actual, p1);
    lemma_part_of_the_difference(expected, actual, p2);
    lemma_part_of_the_difference(expected, actual, p3);
    lemma_part_of_the_difference(expected, actual, p4);
}

proof fn lemma_three(a: Seq<char>, b: Seq<char>, c: Seq<char>, part: Seq<char>)
    ensures
        says(a, part) || says(b, part) || says(c, part) ==> says(a + b + c, part),
{
    lemma_says_within(a, b, part);
    lemma_says_within(a + b, c, part);
}

/// Whether a list holds, in ascending order, the leaves that one tree has and
/// another lacks.
pub open spec fn lists_leaves_of_one(
    one: Seq<Seq<char>>,
    other: Seq<Seq<char>>,
    list: Seq<Seq<char>>,
) -> bool {
    &&& forall|i: int, j: int|
        0 <= i < j < list.len() ==> text::text_lt(#[trigger] list[i], #[trigger] list[j])
    &&& forall|t: Seq<char>| #[trigger]
        list.contains(t) <==> one.contains(t) && !other.contains(t)
}

proof fn lemma_leaves_of_one(
    one: Seq<Seq<char>>,
    other: Seq<Seq<char>>,
    list: Seq<Seq<char>>,
)
    requires
        lists_leaves_of_one(one, other, list),
    ensures
        merkle::difference(order::sorted_set(one), order::sorted_set(other)) == list,
{
    let x = order::sorted_set(one);
    let y = order::sorted_set(other);
    let d = merkle::difference(x, y);
    order::law_sorted_set(one);
    order::law_sorted_set(other);
    merkle::lemma_difference_members(x, y);
    merkle::lemma_difference_ascends(x, y);
    assert forall|t: Seq<char>| #[trigger] d.contains(t) <==> list.contains(t) by {
        assert(x.contains(t) <==> one.contains(t));
        assert(y.contains(t) <==> other.contains(t));
        assert(d.contains(t) <==> x.contains(t) && !y.contains(t));
    }
    order::lemma_strictly_ascending_unique(d, list);
}

/// The difference of two attestations says how many operations are missing and how
/// many were added, gives the first 12 of each, and says how many it leaves out.
pub proof fn law_operation_differences_are_reported(
    expected: Attestation,
    actual: Attestation,
    missing: Seq<Seq<char>>,
    added: Seq<Seq<char>>,
    k: int,
)
    requires
        lists_leaves_of_one(expected.tree.leaf_texts(), actual.tree.leaf_texts(), missing),
        lists_leaves_of_one(actual.tree.leaf_texts(), expected.tree.leaf_texts(), added),
    ensures
        ({
            let delta = attestation_delta(expected, actual);
            let more = (if missing.len() > 12 {
                missing.len() - 12
            } else {
                0
            }) + (if added.len() > 12 {
                added.len() - 12
            } else {
                0
            });
            if missing.len() == 0 && added.len() == 0 {
                says(delta, "Operation set: no differences"@ + seq!['\n'])
            } else {
                &&& says(
                    delta,
                    "Operation set changed: "@ + text::decimal(missing.len()) + " missing, "@
                        + text::decimal(added.len()) + " added"@ + seq!['\n'],
                )
                &&& 0 <= k < missing.len() && k < 12 ==> says(
                    delta,
                    "  missing: "@ + missing[k] + seq!['\n'],
                )
                &&& 0 <= k < added.len() && k < 12 ==> says(
                    delta,
                    "  added:   "@ + added[k] + seq!['\n'],
                )
                &&& more > 0 ==> says(
                    delta,
                    "  ... "@ + text::decimal(more as nat) + " more"@ + seq!['\n'],
                )
            }
        }),
{
    lemma_leaves_of_one(expected.tree.leaf_texts(), actual.tree.leaf_texts(), missing);
    lemma_leaves_of_one(actual.tree.leaf_texts(), expected.tree.leaf_texts(), added);
    let more = (if missing.len() > 12 {
        missing.len() - 12
    } else {
        0
    }) + (if added.len() > 12 {
        added.len() - 12
    } else {
        0
    });
    if missing.len() == 0 && added.len() == 0 {
        let part = "Operation set: no differences"@ + seq!['\n'];
        assert(operation_delta(missing, added) =~= part);
        lemma_says_itself(part);
        lemma_part_of_the_difference(expected, actual, part);
    } else {
        lemma_operation_parts(missing, added, k);
        lemma_part_of_the_difference(
            expected,
            actual,
            "Operation set changed: "@ + text::decimal(missing.len()) + " missing, "@
                + text::decimal(added.len()) + " added"@ + seq!['\n'],
        );
        lemma_part_of_the_difference(
            expected,
            actual,
            "  missing: "@ + missing[k] + seq!['\n'],
        );
        lemma_part_of_the_difference(
            expected,
            actual,
            "  added:   "@ + added[k] + seq!['\n'],
        );
        lemma_part_of_the_difference(
            expected,
            actual,
            "  ... "@ + text::decimal(more as nat) + " more"@ + seq!['\n'],
        );
    }
}

proof fn lemma_operation_parts(missing: Seq<Seq<char>>, added: Seq<Seq<char>>, k: int)
    requires
        missing.len() > 0 || added.len() > 0,
    ensures
        ({
            let delta = operation_delta(missing, added);
            let more = (if missing.len() > 12 {
                missing.len() - 12
            } else {
                0
            }) + (if added.len() > 12 {
                added.len() - 12
            } else {
                0
            });
            &&& says(
                delta,
                "Operation set changed: "@ + text::decimal(missing.len()) + " missing, "@
                    + text::decimal(added.len()) + " added"@ + seq!['\n'],
            )
            &&& 0 <= k < missing.len() && k < 12 ==> says(
                delta,
                "  missing: "@ + missing[k] + seq!['\n'],
            )
            &&& 0 <= k < added.len() && k < 12 ==> says(
                delta,
                "  added:   "@ + added[k] + seq!['\n'],
            )
            &&& more > 0 ==> says(
                delta,
                "  ... "@ + text::decimal(more as nat) + " more"@ + seq!['\n'],
            )
        }),
{
    let omitted = beyond_dozen(missing) + beyond_dozen(added);
    let heading = line(
        "Operation set changed: "@,
        text::decimal(missing.len()) + " missing, "@ + text::decimal(added.len()) + " added"@,
    );
    let m = lines("  missing: "@, first_dozen(missing));
    let n = lines("  added:   "@, first_dozen(added));
    let rest = if omitted > 0 {
        line("  ... "@, text::decimal(omitted) + " more"@)
    } else {
        Seq::empty()
    };
    assert(operation_delta(missing, added) == heading + m + n + rest);
    let p0 = "Operation set changed: "@ + text::decimal(missing.len()) + " missing, "@
        + text::decimal(added.len()) + " added"@ + seq!['\n'];
    assert(heading =~= p0);
    lemma_says_itself(p0);
    lemma_four(heading, m, n, rest, p0);
    if 0 <= k < missing.len() && k < 12 {
        let p = "  missing: "@ + missing[k] + seq!['\n'];
        assert(first_dozen(missing)[k] == missing[k]);
        lemma_line_is_said("  missing: "@, first_dozen(missing), k);
        lemma_four(heading, m, n, rest, p);
    }
    if 0 <= k < added.len() && k < 12 {
        let p = "  added:   "@ + added[k] + seq!['\n'];
        assert(first_dozen(added)[k] == added[k]);
        lemma_line_is_said("  added:   "@, first_dozen(added), k);
        lemma_four(heading, m, n, rest, p);
    }
    if omitted > 0 {
        let p = "  ... "@ + text::decimal(omitted) + " more"@ + seq!['\n'];
        assert(rest =~= p);
        lemma_says_itself(p);
        lemma_four(heading, m, n, rest, p);
    }
}

proof fn lemma_four(a: Seq<char>, b: Seq<char>, c: Seq<char>, d: Seq<char>, part: Seq<char>)
    ensures
        says(a, part) || says(b, part) || says(c, part) || says(d, part) ==> says(
            a + b + c + d,
            part,
        ),
{
    lemma_says_within(a, b, part);
    lemma_says_within(a + b, c, part);
    lemma_says_within(a + b + c, d, part);
}

/// What is said of an attestation: its roots, its predicate, its command and mode,
/// every artifact, output root and output that it records, and how many leaves it
/// has.
pub proof fn law_explanations_name_everything(
    a: attestation::Document,
    leaf_count: nat,
    i: int,
)
    ensures
        ({
            let told = explanation(a, leaf_count);
            let s = a.output_selection;
            &&& says(told, "Root hash: "@ + a.root_hash + seq!['\n'])
            &&& says(told, "Process-set root: "@ + a.process_root + seq!['\n'])
            &&& says(told, "Predicate: "@ + a.predicate_type + seq!['\n'])
            &&& says(told, "Command: "@ + command_text(a.command) + seq!['\n'])
            &&& says(told, "Output selection: "@ + s.mode + seq!['\n'])
            &&& 0 <= i < s.artifacts.len() ==> says(told, "  - "@ + s.artifacts[i] + seq!['\n'])
            &&& 0 <= i < s.output_roots.len() ==> says(
                told,
                "  - "@ + s.output_roots[i] + seq!['\n'],
            )
            &&& says(told, "Outputs: "@ + text::decimal(a.outputs.len()) + seq!['\n'])
            &&& 0 <= i < a.outputs.len() ==> says(
                told,
                "  - "@ + (a.outputs[i].hash + seq![' '] + a.outputs[i].path) + seq!['\n'],
            )
            &&& says(told, "Merkle leaves: "@ + text::decimal(leaf_count) + seq!['\n'])
        }),
{
    let s = a.output_selection;
    let p1 = "Root hash: "@ + a.root_hash + seq!['\n'];
    let p2 = "Process-set root: "@ + a.process_root + seq!['\n'];
    let p3 = "Predicate: "@ + a.predicate_type + seq!['\n'];
    let p4 = "Command: "@ + command_text(a.command) + seq!['\n'];
    let p5 = "Output selection: "@ + s.mode + seq!['\n'];
    let p8 = "Outputs: "@ + text::decimal(a.outputs.len()) + seq!['\n'];
    let p10 = "Merkle leaves: "@ + text::decimal(leaf_count) + seq!['\n'];
    assert(line("Root hash: "@, a.root_hash) =~= p1);
    assert(line("Process-set root: "@, a.process_root) =~= p2);
    assert(line("Predicate: "@, a.predicate_type) =~= p3);
    assert(line("Command: "@, command_text(a.command)) =~= p4);
    assert(line("Output selection: "@, s.mode) =~= p5);
    assert(line("Outputs: "@, text::decimal(a.outputs.len())) =~= p8);
    assert(line("Merkle leaves: "@, text::decimal(leaf_count)) =~= p10);
    lemma_says_itself(p1);
    lemma_says_itself(p2);
    lemma_says_itself(p3);
    lemma_says_itself(p4);
    lemma_says_itself(p5);
    lemma_says_itself(p8);
    lemma_says_itself(p10);
    lemma_part_of_the_explanation(a, leaf_count, p1);
    lemma_part_of_the_explanation(a, leaf_count, p2);
    lemma_part_of_the_explanation(a, leaf_count, p3);
    lemma_part_of_the_explanation(a, leaf_count, p4);
    lemma_part_of_the_explanation(a, leaf_count, p5);
    lemma_part_of_the_explanation(a, leaf_count, p8);
    lemma_part_of_the_explanation(a, leaf_count, p10);
    if 0 <= i < s.artifacts.len() {
        let p = "  - "@ + s.artifacts[i] + seq!['\n'];
        lemma_line_is_said("  - "@, s.artifacts, i);
        lemma_says_within(
            line("Artifacts:"@, Seq::empty()),
            lines("  - "@, s.artifacts),
            p,
        );
        lemma_part_of_the_explanation(a, leaf_count, p);
    }
    if 0 <= i < s.output_roots.len() {
        let p = "  - "@ + s.output_roots[i] + seq!['\n'];
        lemma_line_is_said("  - "@, s.output_roots, i);
        lemma_says_within(
            line("Output roots:"@, Seq::empty()),
            lines("  - "@, s.output_roots),
            p,
        );
        lemma_part_of_the_explanation(a, leaf_count, p);
    }
    if 0 <= i < a.outputs.len() {
        let t = output_texts(a.outputs);
        assert(t[i] == a.outputs[i].hash + seq![' '] + a.outputs[i].path);
        lemma_line_is_said("  - "@, t, i);
        lemma_part_of_the_explanation(a, leaf_count, "  - "@ + t[i] + seq!['\n']);
    }
}

proof fn lemma_part_of_the_explanation(
    a: attestation::Document,
    leaf_count: nat,
    part: Seq<char>,
)
    ensures
        says(line("Root hash: "@, a.root_hash), part) || says(
            line("Process-set root: "@, a.process_root),
            part,
        ) || says(line("Predicate: "@, a.predicate_type), part) || says(
            line("Command: "@, command_text(a.command)),
            part,
        ) || says(line("Output selection: "@, a.output_selection.mode), part) || says(
            listed("Artifacts:"@, a.output_selection.artifacts),
            part,
        ) || says(listed("Output roots:"@, a.output_selection.output_roots), part) || says(
            line("Outputs: "@, text::decimal(a.outputs.len())),
            part,
        ) || says(lines("  - "@, output_texts(a.outputs)), part) || says(
            line("Merkle leaves: "@, text::decimal(leaf_count)),
            part,
        ) ==> says(explanation(a, leaf_count), part),
{
    let t1 = line("Root hash: "@, a.root_hash);
    let t2 = line("Process-set root: "@, a.process_root);
    let t3 = line("Predicate: "@, a.predicate_type);
    let t4 = line("Command: "@, command_text(a.command));
    let t5 = line("Output selection: "@, a.output_selection.mode);
    let t6 = listed("Artifacts:"@, a.output_selection.artifacts);
    let t7 = listed("Output roots:"@, a.output_selection.output_roots);
    let t8 = line("Outputs: "@, text::decimal(a.outputs.len()));
    let t9 = lines("  - "@, output_texts(a.outputs));
    let t10 = line("Merkle leaves: "@, text::decimal(leaf_count));
    let t11 = line(
        "Commitment semantics: sorted set of distinct covered operations"@,
        Seq::empty(),
    );
    lemma_six(t1, t2, t3, t4, t5, t6, part);
    let u = t1 + t2 + t3 + t4 + t5 + t6;
    lemma_six(u, t7, t8, t9, t10, t11, part);
}

/// Whether a character stands in a shell for itself.
pub open spec fn stands_for_itself(c: char) -> bool {
    ('a' <= c && c <= 'z') || ('A' <= c && c <= 'Z') || ('0' <= c && c <= '9') || c == '/' || c
        == '.' || c == '_' || c == '-' || c == '=' || c == ':' || c == '+'
}

proof fn lemma_quoted_len(s: Seq<char>)
    ensures
        quoted_inside(s).len() >= s.len(),
    decreases s.len(),
{
    if s.len() > 0 {
        lemma_quoted_len(s.drop_last());
        reveal_strlit("'\"'\"'");
    }
}

/// An argument is shown as it is exactly where it is not empty and every character
/// of it stands in a shell for itself; any other is shown in single quotes, with
/// what it holds between them.
pub proof fn law_only_plain_arguments_are_shown_bare(arg: Seq<char>, c: char)
    ensures
        shell_text(arg) == arg <==> arg.len() > 0 && forall|i: int|
            0 <= i < arg.len() ==> stands_for_itself(#[trigger] arg[i]),
        shell_text(arg) != arg ==> shell_text(arg).len() >= arg.len() + 2 && shell_text(arg)[0]
            == '\'' && shell_text(arg).last() == '\'',
        quoted_inside(Seq::empty()) == Seq::<char>::empty(),
        c != '\'' ==> quoted_inside(arg.push(c)) == quoted_inside(arg).push(c),
        quoted_inside(arg.push('\'')) == quoted_inside(arg) + seq!['\'', '"', '\'', '"', '\''],
{
    reveal_strlit("''");
    reveal_strlit("'\"'\"'");
    lemma_quoted_len(arg);
    assert(arg.push(c).drop_last() =~= arg);
    assert(arg.push('\'').drop_last() =~= arg);
    assert("'\"'\"'"@ =~= seq!['\'', '"', '\'', '"', '\'']);
    if c != '\'' {
        assert(quoted_inside(arg) + seq![c] =~= quoted_inside(arg).push(c));
    }
    assert forall|x: char| #[trigger] is_plain(x) == stands_for_itself(x) by {}
    let plain = forall|i: int| 0 <= i < arg.len() ==> is_plain(#[trigger] arg[i]);
    if arg.len() > 0 && !plain {
        let q = seq!['\''] + quoted_inside(arg) + seq!['\''];
        assert(shell_text(arg) == q);
        assert(q.len() == quoted_inside(arg).len() + 2);
    }
    if arg.len() == 0 {
        assert(shell_text(arg)[0] == '\'');
        assert(shell_text(arg).last() == '\'');
    }
    if forall|i: int| 0 <= i < arg.len() ==> stands_for_itself(#[trigger] arg[i]) {
        assert forall|i: int| 0 <= i < arg.len() implies is_plain(#[trigger] arg[i]) by {
            assert(stands_for_itself(arg[i]));
        }
    }
    if plain {
        assert forall|i: int| 0 <= i < arg.len() implies stands_for_itself(#[trigger] arg[i]) by {
            assert(is_plain(arg[i]));
        }
    }
}

/// The arguments of a command are shown in order, with one space between them.
pub proof fn law_arguments_are_separated_by_spaces(command: Seq<Seq<char>>, arg: Seq<char>)
    ensures
        command_text(Seq::empty()) == Seq::<char>::empty(),
        command_text(seq![arg]) == shell_text(arg),
        command.len() > 0 ==> command_text(command.push(arg)) == command_text(command) + seq![' ']
            + shell_text(arg),
{
    assert(command.push(arg).drop_last() =~= command);
}

// ---------------------------------------------------------------------------
// Nothing else is said
// ---------------------------------------------------------------------------

/// Texts, one behind the other.
pub open spec fn joined(parts: Seq<Seq<char>>) -> Seq<char>
    decreases parts.len(),
{
    if parts.len() == 0 {
        Seq::empty()
    } else {
        joined(parts.drop_last()) + parts.last()
    }
}

proof fn lemma_joined_from_front(parts: Seq<Seq<char>>)
    requires
        parts.len() > 0,
    ensures
        joined(parts) == parts[0] + joined(parts.skip(1)),
    decreases parts.len(),
{
    if parts.len() == 1 {
        assert(parts.drop_last() =~= Seq::empty());
        assert(parts.skip(1) =~= Seq::empty());
        assert(joined(parts) =~= parts[0] + joined(parts.skip(1)));
    } else {
        lemma_joined_from_front(parts.drop_last());
        assert(parts.drop_last().skip(1) =~= parts.skip(1).drop_last());
        assert(parts.skip(1).last() == parts.last());
        assert(joined(parts) =~= parts[0] + joined(parts.skip(1)));
    }
}

/// Whether a text is all that is to be said of a path: nothing where the outputs
/// agree there.
pub open spec fn is_all_of_a_path(
    expected: Seq<Output>,
    actual: Seq<Output>,
    path: Seq<char>,
    said: Seq<char>,
) -> bool {
    &&& !differ_at(expected, actual, path) ==> said.len() == 0
    &&& forall|x: Seq<char>, y: Seq<char>|
        #![trigger has_output(expected, path, x), has_output(actual, path, y)]
        x != y && has_output(expected, path, x) && has_output(actual, path, y) ==> said
            == "  changed: "@ + path + seq!['\n'] + "    expected: "@ + x + seq!['\n']
            + "    actual:   "@ + y + seq!['\n']
    &&& forall|x: Seq<char>| #[trigger]
        has_output(expected, path, x) && lacks_output(actual, path) ==> said == "  missing: "@ + x
            + seq![' '] + path + seq!['\n']
    &&& forall|y: Seq<char>| #[trigger]
        has_output(actual, path, y) && lacks_output(expected, path) ==> said == "  added:   "@ + y
            + seq![' '] + path + seq!['\n']
}

proof fn lemma_all_of_a_path(
    expected: Seq<Output>,
    actual: Seq<Output>,
    path: Seq<char>,
    said: Seq<char>,
)
    requires
        is_all_of_a_path(expected, actual, path, said),
    ensures
        path_delta(expected, actual, path) == said,
{
    lemma_change_at(expected, actual, path);
    lemma_hash_at(expected, path);
    lemma_hash_at(actual, path);
    let delta = path_delta(expected, actual, path);
    match (hash_at(expected, path), hash_at(actual, path)) {
        (Some(x), Some(y)) => {
            if x != y {
                assert(has_output(expected, path, x) && has_output(actual, path, y));
                assert(delta =~= said);
            } else {
                assert(delta =~= said);
            }
        },
        (Some(x), None) => {
            assert(has_output(expected, path, x) && lacks_output(actual, path));
            assert(delta =~= said);
        },
        (None, Some(y)) => {
            assert(has_output(actual, path, y) && lacks_output(expected, path));
            assert(delta =~= said);
        },
        (None, None) => {
            assert(delta =~= said);
        },
    }
}

proof fn lemma_all_deltas(
    expected: Seq<Output>,
    actual: Seq<Output>,
    paths: Seq<Seq<char>>,
    said: Seq<Seq<char>>,
    shown: int,
    m: int,
)
    requires
        said.len() == paths.len(),
        0 <= shown < 20,
        forall|k: int|
            0 <= k < paths.len() ==> is_all_of_a_path(
                expected,
                actual,
                #[trigger] paths[k],
                said[k],
            ),
        0 <= m <= paths.len(),
    ensures
        shown + differences(expected, actual, paths) < 20 ==> path_deltas(
            expected,
            actual,
            paths,
            shown,
        ) == joined(said),
        m > 0 && shown + differences(expected, actual, paths.take(m)) == 20 && shown + differences(
            expected,
            actual,
            paths.take(m - 1),
        ) == 19 ==> path_deltas(expected, actual, paths, shown) == joined(said.take(m))
            + "  ... more output differences omitted"@ + seq!['\n'],
    decreases paths.len(),
{
    if paths.len() > 0 {
        let rest = paths.skip(1);
        let others = said.skip(1);
        lemma_all_of_a_path(expected, actual, paths[0], said[0]);
        lemma_change_at(expected, actual, paths[0]);
        lemma_differences_from_front(expected, actual, paths);
        lemma_joined_from_front(said);
        let n = if differ_at(expected, actual, paths[0]) {
            shown + 1
        } else {
            shown
        };
        assert forall|k: int| 0 <= k < rest.len() implies is_all_of_a_path(
            expected,
            actual,
            #[trigger] rest[k],
            others[k],
        ) by {
            assert(rest[k] == paths[k + 1]);
        }
        if n < 20 {
            lemma_all_deltas(
                expected,
                actual,
                rest,
                others,
                n,
                if m > 0 {
                    m - 1
                } else {
                    0
                },
            );
        }
        if m > 0 {
            let a = paths.take(m);
            lemma_differences_from_front(expected, actual, a);
            assert(a.skip(1) =~= rest.take(m - 1));
            assert(a[0] == paths[0]);
            let w = said.take(m);
            lemma_joined_from_front(w);
            assert(w.skip(1) =~= others.take(m - 1));
            assert(w[0] == said[0]);
            if m > 1 {
                let b = paths.take(m - 1);
                lemma_differences_from_front(expected, actual, b);
                assert(b.skip(1) =~= rest.take(m - 2));
                assert(b[0] == paths[0]);
            } else {
                assert(paths.take(0) =~= Seq::empty());
                assert(rest.take(0) =~= Seq::empty());
            }
            if shown + differences(expected, actual, a) == 20 && shown + differences(
                expected,
                actual,
                paths.take(m - 1),
            ) == 19 {
                lemma_cut_here(expected, actual, paths, said, shown, m);
            }
        }
        if shown + differences(expected, actual, paths) < 20 {
            assert(path_deltas(expected, actual, paths, shown) =~= joined(said));
        }
    }
}

proof fn lemma_cut_here(
    expected: Seq<Output>,
    actual: Seq<Output>,
    paths: Seq<Seq<char>>,
    said: Seq<Seq<char>>,
    shown: int,
    m: int,
)
    requires
        said.len() == paths.len(),
        0 <= shown < 20,
        0 < m <= paths.len(),
        forall|k: int|
            0 <= k < paths.len() ==> is_all_of_a_path(
                expected,
                actual,
                #[trigger] paths[k],
                said[k],
            ),
        shown + differences(expected, actual, paths.take(m)) == 20,
        shown + differences(expected, actual, paths.take(m - 1)) == 19,
    ensures
        path_deltas(expected, actual, paths, shown) == joined(said.take(m))
            + "  ... more output differences omitted"@ + seq!['\n'],
    decreases m,
{
    let rest = paths.skip(1);
    let others = said.skip(1);
    let w = said.take(m);
    lemma_all_of_a_path(expected, actual, paths[0], said[0]);
    lemma_change_at(expected, actual, paths[0]);
    lemma_differences_from_front(expected, actual, paths.take(m));
    assert(paths.take(m).skip(1) =~= rest.take(m - 1));
    assert(paths.take(m)[0] == paths[0]);
    lemma_joined_from_front(w);
    assert(w.skip(1) =~= others.take(m - 1));
    assert(w[0] == said[0]);
    assert forall|k: int| 0 <= k < rest.len() implies is_all_of_a_path(
        expected,
        actual,
        #[trigger] rest[k],
        others[k],
    ) by {
        assert(rest[k] == paths[k + 1]);
    }
    let tail = "  ... more output differences omitted"@ + seq!['\n'];
    assert(line("  ... more output differences omitted"@, Seq::empty()) =~= tail);
    if m == 1 {
        assert(paths.take(0) =~= Seq::empty());
        assert(rest.take(0) =~= Seq::empty());
        assert(others.take(0) =~= Seq::empty());
        assert(path_deltas(expected, actual, paths, shown) =~= joined(w) + tail);
    } else {
        lemma_differences_from_front(expected, actual, paths.take(m - 1));
        assert(paths.take(m - 1).skip(1) =~= rest.take(m - 2));
        assert(paths.take(m - 1)[0] == paths[0]);
        let n = if differ_at(expected, actual, paths[0]) {
            shown + 1
        } else {
            shown
        };
        assert(n < 20) by {
            assert(n + differences(expected, actual, rest.take(m - 2)) == 19);
        }
        lemma_cut_here(expected, actual, rest, others, n, m - 1);
    }
    assert(path_deltas(expected, actual, paths, shown) =~= joined(w)
        + "  ... more output differences omitted"@ + seq!['\n']);
}

/// Behind its heading, the report on outputs says of each path in order all that is
/// to be said of it, and nothing else; behind the 20th path that differs it only
/// says that there may be more.
pub proof fn law_nothing_else_is_said_of_outputs(
    expected: Seq<Output>,
    actual: Seq<Output>,
    paths: Seq<Seq<char>>,
    said: Seq<Seq<char>>,
    m: int,
)
    requires
        lists_paths(expected, actual, paths),
        differences(expected, actual, paths) > 0,
        said.len() == paths.len(),
        forall|k: int|
            0 <= k < paths.len() ==> is_all_of_a_path(
                expected,
                actual,
                #[trigger] paths[k],
                said[k],
            ),
    ensures
        ({
            let missing = only_in(expected, actual, paths);
            let added = only_in(actual, expected, paths);
            let all = differences(expected, actual, paths);
            let heading = "Outputs changed: "@ + text::decimal((all - missing - added) as nat)
                + " changed, "@ + text::decimal(missing) + " missing, "@ + text::decimal(added)
                + " added"@ + seq!['\n'];
            &&& all < 20 ==> output_delta(expected, actual) == heading + joined(said)
            &&& 0 < m <= paths.len() && differences(expected, actual, paths.take(m)) == 20
                && differences(expected, actual, paths.take(m - 1)) == 19 ==> output_delta(
                expected,
                actual,
            ) == heading + (joined(said.take(m)) + "  ... more output differences omitted"@ + seq![
                '\n',
            ])
        }),
{
    lemma_lists_paths(expected, actual, paths);
    lemma_counts(expected, actual, paths);
    let missing = only_in(expected, actual, paths);
    let added = only_in(actual, expected, paths);
    let all = differences(expected, actual, paths);
    let heading = "Outputs changed: "@ + text::decimal((all - missing - added) as nat)
        + " changed, "@ + text::decimal(missing) + " missing, "@ + text::decimal(added) + " added"@
        + seq!['\n'];
    lemma_all_deltas(
        expected,
        actual,
        paths,
        said,
        0,
        if 0 < m <= paths.len() {
            m
        } else {
            0
        },
    );
    assert(output_delta(expected, actual) =~= heading + path_deltas(expected, actual, paths, 0));
}

/// One line is said of each text of a list, in order.
pub proof fn law_lines_are_said_in_order(label: Seq<char>, values: Seq<Seq<char>>, v: Seq<char>)
    ensures
        lines(label, Seq::empty()) == Seq::<char>::empty(),
        lines(label, values.push(v)) == lines(label, values) + (label + v + seq!['\n']),
{
    assert(values.push(v).drop_last() =~= values);
    assert(line(label, v) =~= label + v + seq!['\n']);
}

/// The difference of two attestations says of the roots, the command, the output
/// selection, the outputs, the number of operations and the operations, in this
/// order, and nothing else; of the command and of the selection only where they
/// are different.
pub proof fn law_nothing_else_is_said_of_attestations(
    expected: Attestation,
    actual: Attestation,
    missing: Seq<Seq<char>>,
    added: Seq<Seq<char>>,
    missing_artifacts: Seq<Seq<char>>,
    added_artifacts: Seq<Seq<char>>,
    missing_roots: Seq<Seq<char>>,
    added_roots: Seq<Seq<char>>,
)
    requires
        lists_leaves_of_one(expected.tree.leaf_texts(), actual.tree.leaf_texts(), missing),
        lists_leaves_of_one(actual.tree.leaf_texts(), expected.tree.leaf_texts(), added),
        lists_leaves_of_one(
            expected@.output_selection.artifacts,
            actual@.output_selection.artifacts,
            missing_artifacts,
        ),
        lists_leaves_of_one(
            actual@.output_selection.artifacts,
            expected@.output_selection.artifacts,
            added_artifacts,
        ),
        lists_leaves_of_one(
            expected@.output_selection.output_roots,
            actual@.output_selection.output_roots,
            missing_roots,
        ),
        lists_leaves_of_one(
            actual@.output_selection.output_roots,
            expected@.output_selection.output_roots,
            added_roots,
        ),
    ensures
        ({
            let e = expected@;
            let a = actual@;
            let first = |list: Seq<Seq<char>>| if list.len() <= 12 {
                list
            } else {
                list.take(12)
            };
            let more = (if missing.len() > 12 {
                missing.len() - 12
            } else {
                0
            }) + (if added.len() > 12 {
                added.len() - 12
            } else {
                0
            });
            let roots = if e.root_hash == a.root_hash {
                "Root hash: matches ("@ + e.root_hash + seq![')', '\n']
            } else {
                "Root hash:"@ + seq!['\n'] + "  expected: "@ + e.root_hash + seq!['\n']
                    + "  actual:   "@ + a.root_hash + seq!['\n']
            };
            let command = if e.command == a.command {
                Seq::empty()
            } else {
                "Command changed:"@ + seq!['\n'] + "  expected: "@ + command_text(e.command) + seq![
                    '\n',
                ] + "  actual:   "@ + command_text(a.command) + seq!['\n']
            };
            let selection = if e.output_selection == a.output_selection {
                Seq::empty()
            } else {
                "Output selection changed:"@ + seq!['\n'] + "  expected mode: "@
                    + e.output_selection.mode + seq!['\n'] + "  actual mode:   "@
                    + a.output_selection.mode + seq!['\n'] + (lines(
                    "  missing "@ + "artifact"@ + ": "@,
                    missing_artifacts,
                ) + lines("  added "@ + "artifact"@ + ": "@, added_artifacts)) + (lines(
                    "  missing "@ + "output root"@ + ": "@,
                    missing_roots,
                ) + lines("  added "@ + "output root"@ + ": "@, added_roots))
            };
            let x = text::decimal(expected.tree.leaf_count as nat);
            let y = text::decimal(actual.tree.leaf_count as nat);
            let count = if expected.tree.leaf_count == actual.tree.leaf_count {
                "Canonical op count: "@ + x + seq!['\n']
            } else {
                "Canonical op count changed:"@ + seq!['\n'] + "  expected: "@ + x + seq!['\n']
                    + "  actual:   "@ + y + seq!['\n']
            };
            let operations = if missing.len() == 0 && added.len() == 0 {
                "Operation set: no differences"@ + seq!['\n']
            } else {
                "Operation set changed: "@ + text::decimal(missing.len()) + " missing, "@
                    + text::decimal(added.len()) + " added"@ + seq!['\n'] + lines(
                    "  missing: "@,
                    first(missing),
                ) + lines("  added:   "@, first(added)) + if more > 0 {
                    "  ... "@ + text::decimal(more as nat) + " more"@ + seq!['\n']
                } else {
                    Seq::empty()
                }
            };
            attestation_delta(expected, actual) == roots + command + selection + output_delta(
                e.outputs,
                a.outputs,
            ) + count + operations
        }),
{
    let e = expected@;
    let a = actual@;
    lemma_leaves_of_one(expected.tree.leaf_texts(), actual.tree.leaf_texts(), missing);
    lemma_leaves_of_one(actual.tree.leaf_texts(), expected.tree.leaf_texts(), added);
    lemma_exact_roots(e.root_hash, a.root_hash);
    lemma_exact_command(e.command, a.command);
    lemma_exact_selection(
        e.output_selection,
        a.output_selection,
        missing_artifacts,
        added_artifacts,
        missing_roots,
        added_roots,
    );
    lemma_exact_count(expected.tree.leaf_count as nat, actual.tree.leaf_count as nat);
    lemma_exact_operations(missing, added);
}

proof fn lemma_exact_roots(e: Seq<char>, a: Seq<char>)
    ensures
        root_delta(e, a) == if e == a {
            "Root hash: matches ("@ + e + seq![')', '\n']
        } else {
            "Root hash:"@ + seq!['\n'] + "  expected: "@ + e + seq!['\n'] + "  actual:   "@ + a
                + seq!['\n']
        },
{
    if e == a {
        assert(root_delta(e, a) =~= "Root hash: matches ("@ + e + seq![')', '\n']);
    } else {
        assert(root_delta(e, a) =~= "Root hash:"@ + seq!['\n'] + "  expected: "@ + e + seq!['\n']
            + "  actual:   "@ + a + seq!['\n']);
    }
}

proof fn lemma_exact_command(e: Seq<Seq<char>>, a: Seq<Seq<char>>)
    ensures
        command_delta(e, a) == if e == a {
            Seq::empty()
        } else {
            "Command changed:"@ + seq!['\n'] + "  expected: "@ + command_text(e) + seq!['\n']
                + "  actual:   "@ + command_text(a) + seq!['\n']
        },
{
    if e != a {
        assert(command_delta(e, a) =~= "Command changed:"@ + seq!['\n'] + "  expected: "@
            + command_text(e) + seq!['\n'] + "  actual:   "@ + command_text(a) + seq!['\n']);
    }
}

proof fn lemma_exact_selection(
    e: Selection,
    a: Selection,
    missing_artifacts: Seq<Seq<char>>,
    added_artifacts: Seq<Seq<char>>,
    missing_roots: Seq<Seq<char>>,
    added_roots: Seq<Seq<char>>,
)
    requires
        lists_leaves_of_one(e.artifacts, a.artifacts, missing_artifacts),
        lists_leaves_of_one(a.artifacts, e.artifacts, added_artifacts),
        lists_leaves_of_one(e.output_roots, a.output_roots, missing_roots),
        lists_leaves_of_one(a.output_roots, e.output_roots, added_roots),
    ensures
        selection_delta(e, a) == if e == a {
            Seq::empty()
        } else {
            "Output selection changed:"@ + seq!['\n'] + "  expected mode: "@ + e.mode + seq!['\n']
                + "  actual mode:   "@ + a.mode + seq!['\n'] + (lines(
                "  missing "@ + "artifact"@ + ": "@,
                missing_artifacts,
            ) + lines("  added "@ + "artifact"@ + ": "@, added_artifacts)) + (lines(
                "  missing "@ + "output root"@ + ": "@,
                missing_roots,
            ) + lines("  added "@ + "output root"@ + ": "@, added_roots))
        },
{
    if e != a {
        lemma_leaves_of_one(e.artifacts, a.artifacts, missing_artifacts);
        lemma_leaves_of_one(a.artifacts, e.artifacts, added_artifacts);
        lemma_leaves_of_one(e.output_roots, a.output_roots, missing_roots);
        lemma_leaves_of_one(a.output_roots, e.output_roots, added_roots);
        let heading = line("Output selection changed:"@, Seq::empty()) + line(
            "  expected mode: "@,
            e.mode,
        ) + line("  actual mode:   "@, a.mode);
        assert(heading =~= "Output selection changed:"@ + seq!['\n'] + "  expected mode: "@ + e.mode
            + seq!['\n'] + "  actual mode:   "@ + a.mode + seq!['\n']);
        assert(selection_delta(e, a) == heading + list_delta(
            "artifact"@,
            e.artifacts,
            a.artifacts,
        ) + list_delta("output root"@, e.output_roots, a.output_roots));
    }
}

proof fn lemma_exact_count(e: nat, a: nat)
    ensures
        count_delta(e, a) == if e == a {
            "Canonical op count: "@ + text::decimal(e) + seq!['\n']
        } else {
            "Canonical op count changed:"@ + seq!['\n'] + "  expected: "@ + text::decimal(e) + seq![
                '\n',
            ] + "  actual:   "@ + text::decimal(a) + seq!['\n']
        },
{
    if e == a {
        assert(count_delta(e, a) =~= "Canonical op count: "@ + text::decimal(e) + seq!['\n']);
    } else {
        assert(count_delta(e, a) =~= "Canonical op count changed:"@ + seq!['\n'] + "  expected: "@
            + text::decimal(e) + seq!['\n'] + "  actual:   "@ + text::decimal(a) + seq!['\n']);
    }
}

proof fn lemma_exact_operations(missing: Seq<Seq<char>>, added: Seq<Seq<char>>)
    ensures
        ({
            let first = |list: Seq<Seq<char>>| if list.len() <= 12 {
                list
            } else {
                list.take(12)
            };
            let more = (if missing.len() > 12 {
                missing.len() - 12
            } else {
                0
            }) + (if added.len() > 12 {
                added.len() - 12
            } else {
                0
            });
            operation_delta(missing, added) == if missing.len() == 0 && added.len() == 0 {
                "Operation set: no differences"@ + seq!['\n']
            } else {
                "Operation set changed: "@ + text::decimal(missing.len()) + " missing, "@
                    + text::decimal(added.len()) + " added"@ + seq!['\n'] + lines(
                    "  missing: "@,
                    first(missing),
                ) + lines("  added:   "@, first(added)) + if more > 0 {
                    "  ... "@ + text::decimal(more as nat) + " more"@ + seq!['\n']
                } else {
                    Seq::empty()
                }
            }
        }),
{
    let omitted = beyond_dozen(missing) + beyond_dozen(added);
    if missing.len() == 0 && added.len() == 0 {
        assert(operation_delta(missing, added) =~= "Operation set: no differences"@ + seq!['\n']);
    } else {
        let heading = line(
            "Operation set changed: "@,
            text::decimal(missing.len()) + " missing, "@ + text::decimal(added.len()) + " added"@,
        );
        assert(heading =~= "Operation set changed: "@ + text::decimal(missing.len()) + " missing, "@
            + text::decimal(added.len()) + " added"@ + seq!['\n']);
        if omitted > 0 {
            assert(line("  ... "@, text::decimal(omitted) + " more"@) =~= "  ... "@ + text::decimal(
                omitted,
            ) + " more"@ + seq!['\n']);
        }
    }
}

/// An explanation says of the roots, the predicate, the command, the mode, the
/// artifacts and output roots where there are any, the outputs and the number of
/// leaves, in this order, and closes with what is committed to.
pub proof fn law_nothing_else_is_explained(a: attestation::Document, leaf_count: nat)
    ensures
        ({
            let s = a.output_selection;
            let outputs = Seq::new(
                a.outputs.len(),
                |i: int| a.outputs[i].hash + seq![' '] + a.outputs[i].path,
            );
            let artifacts = if s.artifacts.len() == 0 {
                Seq::empty()
            } else {
                "Artifacts:"@ + seq!['\n'] + lines("  - "@, s.artifacts)
            };
            let roots = if s.output_roots.len() == 0 {
                Seq::empty()
            } else {
                "Output roots:"@ + seq!['\n'] + lines("  - "@, s.output_roots)
            };
            explanation(a, leaf_count) == ("Root hash: "@ + a.root_hash + seq!['\n']) + (
            "Process-set root: "@ + a.process_root + seq!['\n']) + ("Predicate: "@
                + a.predicate_type + seq!['\n']) + ("Command: "@ + command_text(a.command) + seq![
                '\n',
            ]) + ("Output selection: "@ + s.mode + seq!['\n']) + artifacts + roots + ("Outputs: "@
                + text::decimal(a.outputs.len()) + seq!['\n']) + lines("  - "@, outputs) + (
            "Merkle leaves: "@ + text::decimal(leaf_count) + seq!['\n']) + (
            "Commitment semantics: sorted set of distinct covered operations"@ + seq!['\n'])
        }),
{
    let s = a.output_selection;
    lemma_line("Root hash: "@, a.root_hash);
    lemma_line("Process-set root: "@, a.process_root);
    lemma_line("Predicate: "@, a.predicate_type);
    lemma_line("Command: "@, command_text(a.command));
    lemma_line("Output selection: "@, s.mode);
    lemma_line("Outputs: "@, text::decimal(a.outputs.len()));
    lemma_line("Merkle leaves: "@, text::decimal(leaf_count));
    lemma_heading("Artifacts:"@);
    lemma_heading("Output roots:"@);
    lemma_heading("Commitment semantics: sorted set of distinct covered operations"@);
    assert(output_texts(a.outputs) =~= Seq::new(
        a.outputs.len(),
        |i: int| a.outputs[i].hash + seq![' '] + a.outputs[i].path,
    ));
}

proof fn lemma_line(label: Seq<char>, value: Seq<char>)
    ensures
        line(label, value) == label + value + seq!['\n'],
{
    assert(line(label, value) =~= label + value + seq!['\n']);
}

proof fn lemma_heading(label: Seq<char>)
    ensures
        line(label, Seq::empty()) == label + seq!['\n'],
{
    assert(line(label, Seq::empty()) =~= label + seq!['\n']);
}

} // verus!
