//! Repeated-trace stability analysis.

use crate::attestation::Attestation;
use crate::merkle;
use crate::merkle::{sorted_difference, MerkleTree};
use crate::order;
use crate::order::sort_set;
use crate::text;
use crate::text::text_eq;
use vstd::prelude::*;
use vstd::string::*;

verus! {

/// How one run compares with the baseline. The similarity of its leaf set is
/// the ratio of `shared_leaves` to `all_leaves`, or one where there are none.
#[derive(Debug)]
pub struct RunStability {
    pub path: String,
    pub root_match: bool,
    pub process_root_match: bool,
    pub leaf_count: usize,
    /// How many leaves the run and the baseline have in common.
    pub shared_leaves: usize,
    /// How many leaves the run and the baseline have together.
    pub all_leaves: u128,
    pub missing_leaves: usize,
    pub added_leaves: usize,
}

/// How repeated runs compare with the first of them.
#[derive(Debug)]
pub struct StabilityReport {
    pub baseline: String,
    pub run_count: usize,
    pub root_matches: usize,
    pub process_root_matches: usize,
    pub runs: Vec<RunStability>,
}

/// Why runs could not be compared.
#[derive(Debug, Clone, Copy, PartialEq, Eq, Structural)]
pub enum StabilityError {
    /// There are fewer than two.
    TooFew,
}

impl StabilityError {
    /// The error in words.
    pub fn message(&self) -> (text: String)
        ensures
            text@ == "stability analysis requires at least two attestations"@,
    {
        "stability analysis requires at least two attestations".to_string()
    }
}

/// The set of leaves of a tree.
pub open spec fn leaf_set(tree: MerkleTree) -> Set<Seq<char>> {
    tree.leaf_texts().to_set()
}

/// Whether a run is described as it compares with the baseline.
pub open spec fn compares(
    run: RunStability,
    path: Seq<char>,
    attestation: Attestation,
    baseline: Attestation,
) -> bool {
    let a = leaf_set(baseline.tree);
    let b = leaf_set(attestation.tree);
    &&& run.path@ == path
    &&& run.root_match == (attestation.root_hash@ == baseline.root_hash@)
    &&& run.process_root_match == (attestation.process_root@ == baseline.process_root@)
    &&& run.leaf_count == b.len()
    &&& run.shared_leaves == a.intersect(b).len()
    &&& run.all_leaves == a.union(b).len()
    &&& run.missing_leaves == a.difference(b).len()
    &&& run.added_leaves == b.difference(a).len()
}

/// How many runs satisfy a condition.
pub open spec fn count_runs(runs: Seq<RunStability>, f: spec_fn(RunStability) -> bool) -> nat {
    runs.filter(f).len()
}

proof fn lemma_leaf_set(leaves: Seq<Seq<char>>, set: Seq<Seq<char>>)
    requires
        set == order::sorted_set(leaves),
    ensures
        set.no_duplicates(),
        set.to_set() == leaves.to_set(),
        set.to_set().len() == set.len(),
        set.to_set().finite(),
{
    order::law_sorted_set(leaves);
    assert forall|i: int, j: int| 0 <= i < j < set.len() implies set[i] != set[j] by {
        assert(text::text_lt(set[i], set[j]));
        text::lemma_text_lt_irreflexive(set[i]);
    }
    assert(set.no_duplicates());
    set.unique_seq_to_set();
    assert(set.to_set() =~= leaves.to_set());
    vstd::seq_lib::seq_to_set_is_finite(set);
}

proof fn lemma_difference_set(a: Seq<Seq<char>>, b: Seq<Seq<char>>)
    requires
        a.no_duplicates(),
    ensures
        merkle::difference(a, b).to_set() == a.to_set().difference(b.to_set()),
        merkle::difference(a, b).len() == a.to_set().difference(b.to_set()).len(),
{
    let keep = |t: Seq<char>| !b.contains(t);
    let d = merkle::difference(a, b);
    merkle::lemma_difference_members(a, b);
    lemma_filter_distinct(a, keep);
    d.unique_seq_to_set();
    assert(d.to_set() =~= a.to_set().difference(b.to_set()));
}

proof fn lemma_filter_distinct(a: Seq<Seq<char>>, keep: spec_fn(Seq<char>) -> bool)
    requires
        a.no_duplicates(),
    ensures
        a.filter(keep).no_duplicates(),
    decreases a.len(),
{
    reveal(Seq::filter);
    if a.len() > 0 {
        let d = a.drop_last();
        lemma_filter_distinct(d, keep);
        let f = d.filter(keep);
        if keep(a.last()) {
            assert(!f.contains(a.last())) by {
                if f.contains(a.last()) {
                    d.lemma_filter_contains_rev(keep, a.last());
                    let k = choose|k: int| 0 <= k < d.len() && d[k] == a.last();
                    assert(a[k] == a[a.len() - 1]);
                }
            }
            assert(a.filter(keep) =~= f.push(a.last()));
        }
    }
}

fn compare_run(
    path: &String,
    attestation: &Attestation,
    baseline: &Attestation,
    baseline_leaves: &Vec<String>,
) -> (run: RunStability)
    requires
        text::texts(baseline_leaves@) == order::sorted_set(baseline.tree.leaf_texts()),
    ensures
        compares(run, path@, *attestation, *baseline),
{
    let leaves = sort_set(&attestation.tree.leaf_hashes());
    let ghost x = text::texts(baseline_leaves@);
    let ghost y = text::texts(leaves@);
    proof {
        order::law_sorted_set(baseline.tree.leaf_texts());
        order::law_sorted_set(attestation.tree.leaf_texts());
    }
    let missing = sorted_difference(baseline_leaves, &leaves);
    let added = sorted_difference(&leaves, baseline_leaves);
    proof {
        let a = leaf_set(baseline.tree);
        let b = leaf_set(attestation.tree);
        lemma_leaf_set(baseline.tree.leaf_texts(), x);
        lemma_leaf_set(attestation.tree.leaf_texts(), y);
        lemma_difference_set(x, y);
        lemma_difference_set(y, x);
        assert(missing@.len() == text::texts(missing@).len());
        assert(added@.len() == text::texts(added@).len());
        assert(a.intersect(b).disjoint(a.difference(b)));
        assert(a.intersect(b) + a.difference(b) =~= a);
        vstd::set_lib::lemma_set_disjoint_lens(a.intersect(b), a.difference(b));
        assert(a.disjoint(b.difference(a)));
        assert(a + b.difference(a) =~= a.union(b));
        vstd::set_lib::lemma_set_disjoint_lens(a, b.difference(a));
        assert(x.len() == baseline_leaves@.len());
        assert(y.len() == leaves@.len());
    }
    RunStability {
        path: path.clone(),
        root_match: text_eq(attestation.root_hash.as_str(), baseline.root_hash.as_str()),
        process_root_match: text_eq(
            attestation.process_root.as_str(),
            baseline.process_root.as_str(),
        ),
        leaf_count: leaves.len(),
        shared_leaves: baseline_leaves.len() - missing.len(),
        all_leaves: baseline_leaves.len() as u128 + added.len() as u128,
        missing_leaves: missing.len(),
        added_leaves: added.len(),
    }
}

/// Whether a run has the root of the baseline.
pub open spec fn has_root() -> spec_fn(RunStability) -> bool {
    |r: RunStability| r.root_match
}

/// Whether a run has the process root of the baseline.
pub open spec fn has_process_root() -> spec_fn(RunStability) -> bool {
    |r: RunStability| r.process_root_match
}

/// Compares attestations of repeated runs with the first of them. Fewer than
/// two cannot be compared.
pub fn analyze(inputs: &[(String, Attestation)]) -> (result: Result<
    StabilityReport,
    StabilityError,
>)
    ensures
        match result {
            Err(StabilityError::TooFew) => inputs@.len() < 2,
            Ok(report) => {
                &&& inputs@.len() >= 2
                &&& report.baseline@ == inputs@[0].0@
                &&& report.run_count == inputs@.len()
                &&& report.runs@.len() == inputs@.len()
                &&& forall|i: int|
                    0 <= i < inputs@.len() ==> compares(
                        #[trigger] report.runs@[i],
                        inputs@[i].0@,
                        inputs@[i].1,
                        inputs@[0].1,
                    )
                &&& report.root_matches == count_runs(report.runs@, has_root())
                &&& report.process_root_matches == count_runs(report.runs@, has_process_root())
                &&& report.root_matches <= report.run_count
                &&& report.process_root_matches <= report.run_count
            },
        },
{
    if inputs.len() < 2 {
        return Err(StabilityError::TooFew);
    }
    let baseline = &inputs[0].1;
    let baseline_leaves = sort_set(&baseline.tree.leaf_hashes());
    let mut runs: Vec<RunStability> = Vec::new();
    let mut root_matches: usize = 0;
    let mut process_root_matches: usize = 0;
    proof {
        reveal(Seq::filter);
    }
    for i in 0..inputs.len()
        invariant
            inputs@.len() >= 2,
            *baseline == inputs@[0].1,
            text::texts(baseline_leaves@) == order::sorted_set(baseline.tree.leaf_texts()),
            runs@.len() == i,
            root_matches <= i,
            process_root_matches <= i,
            forall|k: int|
                0 <= k < i ==> compares(
                    #[trigger] runs@[k],
                    inputs@[k].0@,
                    inputs@[k].1,
                    inputs@[0].1,
                ),
            root_matches == count_runs(runs@, has_root()),
            process_root_matches == count_runs(runs@, has_process_root()),
    {
        let run = compare_run(&inputs[i].0, &inputs[i].1, baseline, &baseline_leaves);
        let ghost before = runs@;
        if run.root_match {
            root_matches = root_matches + 1;
        }
        if run.process_root_match {
            process_root_matches = process_root_matches + 1;
        }
        runs.push(run);
        proof {
            reveal(Seq::filter);
            assert(runs@.drop_last() =~= before);
        }
    }
    Ok(
        StabilityReport {
            baseline: inputs[0].0.clone(),
            run_count: runs.len(),
            root_matches,
            process_root_matches,
            runs,
        },
    )
}

// ---------------------------------------------------------------------------
// Laws
// ---------------------------------------------------------------------------

/// The baseline compares with itself as identical: its roots match and no leaf
/// is missing or added.
pub proof fn law_the_baseline_matches_itself(run: RunStability, path: Seq<char>, baseline: Attestation)
    requires
        compares(run, path, baseline, baseline),
    ensures
        run.root_match,
        run.process_root_match,
        run.missing_leaves == 0,
        run.added_leaves == 0,
        run.shared_leaves == run.all_leaves,
{
    let a = leaf_set(baseline.tree);
    assert(a.difference(a) =~= Set::empty());
    assert(a.intersect(a) =~= a);
    assert(a.union(a) =~= a);
}

/// Leaf sets without leaves count as identical: none is shared, missing or added.
pub proof fn law_empty_leaf_sets_are_identical(
    run: RunStability,
    path: Seq<char>,
    attestation: Attestation,
    baseline: Attestation,
)
    requires
        compares(run, path, attestation, baseline),
        leaf_set(attestation.tree) == Set::<Seq<char>>::empty(),
        leaf_set(baseline.tree) == Set::<Seq<char>>::empty(),
    ensures
        run.all_leaves == 0,
        run.missing_leaves == 0,
        run.added_leaves == 0,
{
    let e = Set::<Seq<char>>::empty();
    assert(e.union(e) =~= e);
    assert(e.difference(e) =~= e);
}

/// Whether a list holds each text for which `one` has it and `other` has it or
/// lacks it, as asked, exactly once.
pub open spec fn lists_once(
    list: Seq<Seq<char>>,
    one: Seq<Seq<char>>,
    other: Seq<Seq<char>>,
    in_other: bool,
) -> bool {
    &&& list.no_duplicates()
    &&& forall|t: Seq<char>| #[trigger]
        list.contains(t) <==> one.contains(t) && other.contains(t) == in_other
}

proof fn lemma_listed_once(list: Seq<Seq<char>>, set: Set<Seq<char>>)
    requires
        list.no_duplicates(),
        forall|t: Seq<char>| #[trigger] list.contains(t) <==> set.contains(t),
    ensures
        set.len() == list.len(),
{
    list.unique_seq_to_set();
    assert(list.to_set() =~= set);
}

/// A run is compared with the baseline leaf by leaf: what the baseline has and the
/// run lacks is missing, what the run has and the baseline lacks is added, what
/// both have is shared, and each leaf counts once.
pub proof fn law_runs_are_compared_leaf_by_leaf(
    run: RunStability,
    path: Seq<char>,
    attestation: Attestation,
    baseline: Attestation,
    missing: Seq<Seq<char>>,
    added: Seq<Seq<char>>,
    shared: Seq<Seq<char>>,
)
    requires
        compares(run, path, attestation, baseline),
        lists_once(missing, baseline.tree.leaf_texts(), attestation.tree.leaf_texts(), false),
        lists_once(added, attestation.tree.leaf_texts(), baseline.tree.leaf_texts(), false),
        lists_once(shared, baseline.tree.leaf_texts(), attestation.tree.leaf_texts(), true),
    ensures
        run.path@ == path,
        run.missing_leaves == missing.len(),
        run.added_leaves == added.len(),
        run.shared_leaves == shared.len(),
        run.leaf_count == shared.len() + added.len(),
        run.all_leaves == shared.len() + added.len() + missing.len(),
        run.root_match <==> attestation.root_hash@ == baseline.root_hash@,
        run.process_root_match <==> attestation.process_root@ == baseline.process_root@,
{
    let x = baseline.tree.leaf_texts();
    let y = attestation.tree.leaf_texts();
    let a = leaf_set(baseline.tree);
    let b = leaf_set(attestation.tree);
    vstd::seq_lib::seq_to_set_is_finite(x);
    vstd::seq_lib::seq_to_set_is_finite(y);
    assert forall|t: Seq<char>| #[trigger] a.contains(t) <==> x.contains(t) by {}
    assert forall|t: Seq<char>| #[trigger] b.contains(t) <==> y.contains(t) by {}
    lemma_listed_once(missing, a.difference(b));
    lemma_listed_once(added, b.difference(a));
    lemma_listed_once(shared, a.intersect(b));
    assert(a.intersect(b).disjoint(b.difference(a)));
    assert(a.intersect(b) + b.difference(a) =~= b);
    vstd::set_lib::lemma_set_disjoint_lens(a.intersect(b), b.difference(a));
    assert(b.disjoint(a.difference(b)));
    assert(b + a.difference(b) =~= a.union(b));
    vstd::set_lib::lemma_set_disjoint_lens(b, a.difference(b));
}

/// How many of the first `n` runs have the root of the baseline, or its process
/// root.
pub open spec fn same_roots(
    inputs: Seq<(String, Attestation)>,
    n: int,
    process_root: bool,
) -> nat
    decreases n,
{
    if n <= 0 {
        0
    } else {
        same_roots(inputs, n - 1, process_root) + if process_root {
            if inputs[n - 1].1.process_root@ == inputs[0].1.process_root@ {
                1nat
            } else {
                0nat
            }
        } else {
            if inputs[n - 1].1.root_hash@ == inputs[0].1.root_hash@ {
                1nat
            } else {
                0nat
            }
        }
    }
}

/// The matches of a report are the runs whose roots are those of the first.
pub proof fn law_matches_are_counted(
    runs: Seq<RunStability>,
    inputs: Seq<(String, Attestation)>,
)
    requires
        runs.len() <= inputs.len(),
        forall|i: int|
            0 <= i < runs.len() ==> compares(
                #[trigger] runs[i],
                inputs[i].0@,
                inputs[i].1,
                inputs[0].1,
            ),
    ensures
        count_runs(runs, has_root()) == same_roots(inputs, runs.len() as int, false),
        count_runs(runs, has_process_root()) == same_roots(inputs, runs.len() as int, true),
    decreases runs.len(),
{
    reveal(Seq::filter);
    if runs.len() > 0 {
        law_matches_are_counted(runs.drop_last(), inputs);
        let last = runs[runs.len() - 1];
        assert(compares(last, inputs[runs.len() - 1].0@, inputs[runs.len() - 1].1, inputs[0].1));
    }
}

} // verus!
