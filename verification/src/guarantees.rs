//! What holds of every run, proved of the functions that the job is specified
//! with: `candidates`, which says what a run takes up, and `recorded`, which
//! says what the ledger holds once the outcomes are in.

use crate::backup::{answered, candidates, is_candidate, recorded, recorded_first};
use crate::config::Config;
use crate::hashing::blake3_hex;
use vstd::prelude::*;

verus! {

/// Whether the outcome at `index` is a hash for `path`.
pub open spec fn records(
    pending: Seq<Seq<char>>,
    outcomes: Seq<Option<Seq<char>>>,
    index: int,
    path: Seq<char>,
) -> bool {
    pending[index] == path && outcomes[index] is Some
}

/// Whether one of the first `count` outcomes is a hash for `path`.
pub open spec fn transcoded_in(
    pending: Seq<Seq<char>>,
    outcomes: Seq<Option<Seq<char>>>,
    count: nat,
    path: Seq<char>,
) -> bool {
    exists|i: int| 0 <= i < count && #[trigger] records(pending, outcomes, i, path)
}

/// Whether the run transcoded `path`.
pub open spec fn transcoded(
    pending: Seq<Seq<char>>,
    outcomes: Seq<Option<Seq<char>>>,
    path: Seq<char>,
) -> bool {
    transcoded_in(pending, outcomes, answered(pending, outcomes), path)
}

/// A file is a candidate exactly when it is one of the enumerated files, the
/// filter lets it through and the ledger has no entry for it.
pub proof fn lemma_candidates_membership(
    config: Config,
    ledger: Map<Seq<char>, Seq<char>>,
    files: Seq<Seq<char>>,
    path: Seq<char>,
)
    ensures
        candidates(config, ledger, files).contains(path) <==> files.contains(path) && is_candidate(
            config,
            ledger,
            path,
        ),
    decreases files.len(),
{
    let chosen = candidates(config, ledger, files);
    if files.len() > 0 {
        let before = candidates(config, ledger, files.drop_last());
        lemma_candidates_membership(config, ledger, files.drop_last(), path);
        if files.contains(path) {
            let j = choose|j: int| 0 <= j < files.len() && files[j] == path;
            if j < files.len() - 1 {
                assert(files.drop_last()[j] == path);
            }
        }
        if files.drop_last().contains(path) {
            let j = choose|j: int| 0 <= j < files.len() - 1 && files.drop_last()[j] == path;
            assert(files[j] == path);
        }
        assert(files[files.len() - 1] == files.last());
        if is_candidate(config, ledger, files.last()) {
            assert(chosen == before.push(files.last()));
            if before.contains(path) {
                let j = choose|j: int| 0 <= j < before.len() && before[j] == path;
                assert(chosen[j] == path);
            }
            if chosen.contains(path) {
                let j = choose|j: int| 0 <= j < chosen.len() && chosen[j] == path;
                if j < before.len() {
                    assert(before[j] == path);
                }
            }
            assert(chosen[before.len() as int] == files.last());
        }
    }
}

/// What the ledger holds for `path` after the first `count` outcomes: an
/// entry exactly when it had one before or one of the outcomes is a hash for
/// `path`; in the second case the hash of such an outcome, otherwise what it
/// held before.
pub proof fn lemma_recorded_entry(
    ledger: Map<Seq<char>, Seq<char>>,
    pending: Seq<Seq<char>>,
    outcomes: Seq<Option<Seq<char>>>,
    count: nat,
    path: Seq<char>,
)
    requires
        count <= pending.len(),
        count <= outcomes.len(),
    ensures
        recorded_first(ledger, pending, outcomes, count).contains_key(path) <==> (
        ledger.contains_key(path) || transcoded_in(pending, outcomes, count, path)),
        !transcoded_in(pending, outcomes, count, path) && ledger.contains_key(path)
            ==> recorded_first(ledger, pending, outcomes, count)[path] == ledger[path],
        transcoded_in(pending, outcomes, count, path) ==> exists|i: int|
            0 <= i < count && #[trigger] records(pending, outcomes, i, path) && recorded_first(
                ledger,
                pending,
                outcomes,
                count,
            )[path] == outcomes[i]->0,
    decreases count,
{
    if count > 0 {
        let fewer = (count - 1) as nat;
        lemma_recorded_entry(ledger, pending, outcomes, fewer, path);
        let before = recorded_first(ledger, pending, outcomes, fewer);
        let after = recorded_first(ledger, pending, outcomes, count);
        if transcoded_in(pending, outcomes, fewer, path) {
            let i = choose|i: int| 0 <= i < fewer && #[trigger] records(pending, outcomes, i, path);
            assert(records(pending, outcomes, i, path));
        }
        if records(pending, outcomes, count - 1, path) {
            assert(transcoded_in(pending, outcomes, count, path));
            assert(after[path] == outcomes[count - 1]->0);
        } else {
            if transcoded_in(pending, outcomes, count, path) {
                let i = choose|i: int|
                    0 <= i < count && #[trigger] records(pending, outcomes, i, path);
                assert(i < fewer);
                assert(transcoded_in(pending, outcomes, fewer, path));
            }
            if before.contains_key(path) {
                assert(after[path] == before[path]);
            }
            if transcoded_in(pending, outcomes, fewer, path) {
                let i = choose|i: int|
                    0 <= i < fewer && #[trigger] records(pending, outcomes, i, path)
                        && before[path] == outcomes[i]->0;
                assert(0 <= i < count && records(pending, outcomes, i, path) && after[path]
                    == outcomes[i]->0);
            }
        }
    }
}

/// With distinct pending paths, a hash among the first `count` outcomes is
/// what the ledger holds for its path afterwards.
pub proof fn lemma_recorded_hash(
    ledger: Map<Seq<char>, Seq<char>>,
    pending: Seq<Seq<char>>,
    outcomes: Seq<Option<Seq<char>>>,
    count: nat,
    index: int,
)
    requires
        count <= pending.len(),
        count <= outcomes.len(),
        pending.no_duplicates(),
        0 <= index < count,
        outcomes[index] is Some,
    ensures
        recorded_first(ledger, pending, outcomes, count).contains_key(pending[index]),
        recorded_first(ledger, pending, outcomes, count)[pending[index]] == outcomes[index]->0,
{
    let path = pending[index];
    assert(records(pending, outcomes, index, path));
    lemma_recorded_entry(ledger, pending, outcomes, count, path);
    let i = choose|i: int|
        0 <= i < count && #[trigger] records(pending, outcomes, i, path) && recorded_first(
            ledger,
            pending,
            outcomes,
            count,
        )[path] == outcomes[i]->0;
    assert(i == index);
}

/// The paths of a dispatch, each with its outcome.
pub open spec fn paired(pending: Seq<Seq<char>>, outcomes: Seq<Option<Seq<char>>>) -> Seq<
    (Seq<char>, Option<Seq<char>>),
> {
    Seq::new(pending.len(), |i: int| (pending[i], outcomes[i]))
}

/// No excluded file ever enters the ledger: a path that the filter leaves out
/// and that the ledger does not hold is not among the candidates, and no
/// outcome of the run gives it an entry.
pub proof fn lemma_excluded_paths_stay_out(
    config: Config,
    ledger: Map<Seq<char>, Seq<char>>,
    files: Seq<Seq<char>>,
    outcomes: Seq<Option<Seq<char>>>,
    path: Seq<char>,
)
    requires
        config.excludes(path),
    ensures
        !candidates(config, ledger, files).contains(path),
        !ledger.contains_key(path) ==> !recorded(
            ledger,
            candidates(config, ledger, files),
            outcomes,
        ).contains_key(path),
{
    let chosen = candidates(config, ledger, files);
    let count = answered(chosen, outcomes);
    lemma_candidates_membership(config, ledger, files, path);
    lemma_recorded_entry(ledger, chosen, outcomes, count, path);
    if transcoded_in(chosen, outcomes, count, path) {
        let i = choose|i: int| 0 <= i < count && #[trigger] records(chosen, outcomes, i, path);
        assert(chosen[i] == path);
    }
}

/// Every file of the source tree that the filter lets through has an entry
/// after a run in which every candidate was transcoded. The entry of a file
/// that the run took up is the hash of that file's content, where each outcome
/// is the hash of the content of its file; the entry of any other file is
/// what it was before the run.
pub proof fn lemma_run_covers_source_tree(
    config: Config,
    ledger: Map<Seq<char>, Seq<char>>,
    files: Seq<Seq<char>>,
    tree: Map<Seq<char>, Seq<u8>>,
    outcomes: Seq<Option<Seq<char>>>,
    path: Seq<char>,
)
    requires
        files.contains(path),
        !config.excludes(path),
        outcomes.len() == candidates(config, ledger, files).len(),
        forall|i: int|
            0 <= i < outcomes.len() ==> #[trigger] outcomes[i] == Some(
                blake3_hex(tree[candidates(config, ledger, files)[i]]),
            ),
    ensures
        recorded(ledger, candidates(config, ledger, files), outcomes).contains_key(path),
        recorded(ledger, candidates(config, ledger, files), outcomes)[path] == if ledger.contains_key(
            path,
        ) {
            ledger[path]
        } else {
            blake3_hex(tree[path])
        },
{
    let chosen = candidates(config, ledger, files);
    let count = answered(chosen, outcomes);
    lemma_candidates_membership(config, ledger, files, path);
    lemma_recorded_entry(ledger, chosen, outcomes, count, path);
    if ledger.contains_key(path) {
        if transcoded_in(chosen, outcomes, count, path) {
            let i = choose|i: int| 0 <= i < count && #[trigger] records(chosen, outcomes, i, path);
            assert(chosen.contains(path));
        }
    } else {
        let j = choose|j: int| 0 <= j < chosen.len() && chosen[j] == path;
        assert(outcomes[j] is Some);
        assert(records(chosen, outcomes, j, path));
    }
}

/// A second run over the same source tree takes up exactly the candidates of
/// the first run that were not transcoded.
pub proof fn lemma_rerun_takes_up_only_failures(
    config: Config,
    ledger: Map<Seq<char>, Seq<char>>,
    files: Seq<Seq<char>>,
    outcomes: Seq<Option<Seq<char>>>,
    path: Seq<char>,
)
    ensures
        candidates(
            config,
            recorded(ledger, candidates(config, ledger, files), outcomes),
            files,
        ).contains(path) <==> candidates(config, ledger, files).contains(path) && !transcoded(
            candidates(config, ledger, files),
            outcomes,
            path,
        ),
{
    let chosen = candidates(config, ledger, files);
    let after = recorded(ledger, chosen, outcomes);
    lemma_candidates_membership(config, ledger, files, path);
    lemma_candidates_membership(config, after, files, path);
    lemma_recorded_entry(ledger, chosen, outcomes, answered(chosen, outcomes), path);
}

/// Running twice over an unchanged source tree finds nothing to do the second
/// time, where every candidate of the first run was transcoded.
pub proof fn lemma_rerun_finds_no_work(
    config: Config,
    ledger: Map<Seq<char>, Seq<char>>,
    files: Seq<Seq<char>>,
    outcomes: Seq<Option<Seq<char>>>,
)
    requires
        outcomes.len() == candidates(config, ledger, files).len(),
        forall|i: int| 0 <= i < outcomes.len() ==> (#[trigger] outcomes[i]) is Some,
    ensures
        candidates(
            config,
            recorded(ledger, candidates(config, ledger, files), outcomes),
            files,
        ).len() == 0,
{
    let chosen = candidates(config, ledger, files);
    let after = recorded(ledger, chosen, outcomes);
    let again = candidates(config, after, files);
    if again.len() > 0 {
        let path = again[0];
        assert(again.contains(path));
        lemma_rerun_takes_up_only_failures(config, ledger, files, outcomes, path);
        let j = choose|j: int| 0 <= j < chosen.len() && chosen[j] == path;
        assert(outcomes[j] is Some);
        assert(records(chosen, outcomes, j, path));
    }
}

/// Each outcome decides the entry of its own path and of no other: with
/// distinct pending paths, a hash becomes the entry of its path, and a failure
/// leaves its path as the ledger had it, whatever the other outcomes are.
pub proof fn lemma_outcomes_are_independent(
    ledger: Map<Seq<char>, Seq<char>>,
    pending: Seq<Seq<char>>,
    outcomes: Seq<Option<Seq<char>>>,
    index: int,
)
    requires
        pending.no_duplicates(),
        0 <= index < answered(pending, outcomes),
    ensures
        match outcomes[index] {
            Some(hash) => {
                &&& recorded(ledger, pending, outcomes).contains_key(pending[index])
                &&& recorded(ledger, pending, outcomes)[pending[index]] == hash
            },
            None => {
                &&& recorded(ledger, pending, outcomes).contains_key(pending[index])
                    == ledger.contains_key(pending[index])
                &&& ledger.contains_key(pending[index]) ==> recorded(
                    ledger,
                    pending,
                    outcomes,
                )[pending[index]] == ledger[pending[index]]
            },
        },
{
    let count = answered(pending, outcomes);
    let path = pending[index];
    if outcomes[index] is Some {
        lemma_recorded_hash(ledger, pending, outcomes, count, index);
    } else {
        lemma_recorded_entry(ledger, pending, outcomes, count, path);
        if transcoded_in(pending, outcomes, count, path) {
            let i = choose|i: int| 0 <= i < count && #[trigger] records(pending, outcomes, i, path);
            assert(i == index);
        }
    }
}

/// The order in which the files of a dispatch complete does not matter: two
/// dispatches of distinct paths that pair the same paths with the same
/// outcomes leave the same ledger.
pub proof fn lemma_completion_order_is_immaterial(
    ledger: Map<Seq<char>, Seq<char>>,
    pending: Seq<Seq<char>>,
    outcomes: Seq<Option<Seq<char>>>,
    reordered_pending: Seq<Seq<char>>,
    reordered_outcomes: Seq<Option<Seq<char>>>,
)
    requires
        pending.no_duplicates(),
        reordered_pending.no_duplicates(),
        pending.len() == outcomes.len(),
        reordered_pending.len() == reordered_outcomes.len(),
        paired(pending, outcomes).to_set() == paired(reordered_pending, reordered_outcomes).to_set(),
    ensures
        recorded(ledger, pending, outcomes) == recorded(
            ledger,
            reordered_pending,
            reordered_outcomes,
        ),
{
    let one = recorded(ledger, pending, outcomes);
    let other = recorded(ledger, reordered_pending, reordered_outcomes);
    assert forall|path: Seq<char>|
        (#[trigger] one.dom().contains(path) <==> other.dom().contains(path)) && (
        one.dom().contains(path) ==> one[path] == other[path]) by {
        lemma_recorded_entry(ledger, pending, outcomes, pending.len(), path);
        lemma_recorded_entry(
            ledger,
            reordered_pending,
            reordered_outcomes,
            reordered_pending.len(),
            path,
        );
        if transcoded_in(pending, outcomes, pending.len(), path) {
            lemma_same_pairs_same_entry(
                ledger,
                pending,
                outcomes,
                reordered_pending,
                reordered_outcomes,
                path,
            );
        }
        if transcoded_in(reordered_pending, reordered_outcomes, reordered_pending.len(), path) {
            lemma_same_pairs_same_entry(
                ledger,
                reordered_pending,
                reordered_outcomes,
                pending,
                outcomes,
                path,
            );
        }
    }
    assert(one =~= other);
}

/// A path that one of two dispatches with the same pairs transcoded was
/// transcoded by the other too, and both leave the same hash for it.
proof fn lemma_same_pairs_same_entry(
    ledger: Map<Seq<char>, Seq<char>>,
    pending: Seq<Seq<char>>,
    outcomes: Seq<Option<Seq<char>>>,
    reordered_pending: Seq<Seq<char>>,
    reordered_outcomes: Seq<Option<Seq<char>>>,
    path: Seq<char>,
)
    requires
        pending.no_duplicates(),
        reordered_pending.no_duplicates(),
        pending.len() == outcomes.len(),
        reordered_pending.len() == reordered_outcomes.len(),
        paired(pending, outcomes).to_set() == paired(reordered_pending, reordered_outcomes).to_set(),
        transcoded_in(pending, outcomes, pending.len(), path),
    ensures
        transcoded_in(reordered_pending, reordered_outcomes, reordered_pending.len(), path),
        recorded(ledger, pending, outcomes)[path] == recorded(
            ledger,
            reordered_pending,
            reordered_outcomes,
        )[path],
{
    let i = choose|i: int| 0 <= i < pending.len() && #[trigger] records(pending, outcomes, i, path);
    let pair = (pending[i], outcomes[i]);
    assert(paired(pending, outcomes)[i] == pair);
    assert(paired(pending, outcomes).to_set().contains(pair));
    assert(paired(reordered_pending, reordered_outcomes).contains(pair));
    let j = choose|j: int|
        0 <= j < paired(reordered_pending, reordered_outcomes).len() && paired(
            reordered_pending,
            reordered_outcomes,
        )[j] == pair;
    assert(records(reordered_pending, reordered_outcomes, j, path));
    lemma_recorded_hash(ledger, pending, outcomes, pending.len(), i);
    lemma_recorded_hash(ledger, reordered_pending, reordered_outcomes, reordered_pending.len(), j);
}

/// No update is lost and no key is doubled: where every one of `pending`'s
/// distinct paths is new to the ledger and was transcoded, the ledger grows by
/// exactly as many entries as there are paths.
pub proof fn lemma_every_success_adds_an_entry(
    ledger: Map<Seq<char>, Seq<char>>,
    pending: Seq<Seq<char>>,
    outcomes: Seq<Option<Seq<char>>>,
)
    requires
        ledger.dom().finite(),
        pending.no_duplicates(),
        pending.len() == outcomes.len(),
        forall|i: int| 0 <= i < pending.len() ==> !ledger.contains_key(#[trigger] pending[i]),
        forall|i: int| 0 <= i < outcomes.len() ==> (#[trigger] outcomes[i]) is Some,
    ensures
        recorded(ledger, pending, outcomes).dom().finite(),
        recorded(ledger, pending, outcomes).len() == ledger.len() + pending.len(),
{
    lemma_first_successes_add_entries(ledger, pending, outcomes, pending.len());
}

/// The first `count` outcomes add `count` entries, where every path is new
/// to the ledger and was transcoded.
proof fn lemma_first_successes_add_entries(
    ledger: Map<Seq<char>, Seq<char>>,
    pending: Seq<Seq<char>>,
    outcomes: Seq<Option<Seq<char>>>,
    count: nat,
)
    requires
        ledger.dom().finite(),
        pending.no_duplicates(),
        count <= pending.len(),
        pending.len() == outcomes.len(),
        forall|i: int| 0 <= i < pending.len() ==> !ledger.contains_key(#[trigger] pending[i]),
        forall|i: int| 0 <= i < outcomes.len() ==> (#[trigger] outcomes[i]) is Some,
    ensures
        recorded_first(ledger, pending, outcomes, count).dom().finite(),
        recorded_first(ledger, pending, outcomes, count).len() == ledger.len() + count,
    decreases count,
{
    if count > 0 {
        let fewer = (count - 1) as nat;
        lemma_first_successes_add_entries(ledger, pending, outcomes, fewer);
        let before = recorded_first(ledger, pending, outcomes, fewer);
        let path = pending[count - 1];
        lemma_recorded_entry(ledger, pending, outcomes, fewer, path);
        if transcoded_in(pending, outcomes, fewer, path) {
            let i = choose|i: int| 0 <= i < fewer && #[trigger] records(pending, outcomes, i, path);
            assert(pending[i] == pending[count - 1]);
        }
        assert(!before.contains_key(path));
        assert(outcomes[count - 1] is Some);
        let after = recorded_first(ledger, pending, outcomes, count);
        assert(after.dom() =~= before.dom().insert(path));
    }
}

} // verus!
