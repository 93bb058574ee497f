//! The extraction walk: one staged entry at a time, decide whether it
//! is materialized, skipped with a warning, or fails the whole run,
//! and plan the filesystem writes for the ones that are materialized.

use vstd::prelude::*;

use crate::pathname::{join_for_display, joined_display, resolve_pathname, resolve_spec, sanitized_form};
use crate::payload::{check_supported, node_supported, plan_copy, plan_model, CopyOp, FsNode, OpModel};

verus! {

/// One staged archive entry, as the unpacked package presents it: its
/// directory name, the raw contents of its `pathname` marker file if
/// that file exists, and its `asset` payload if one exists.
#[derive(Debug)]
pub struct StagedEntry {
    pub entry_id: String,
    pub pathname: Option<String>,
    pub asset: Option<FsNode>,
}

/// What extraction does with one entry.
#[derive(Debug, PartialEq, Eq)]
pub enum EntryAction {
    /// The entry has no `pathname` marker: skipped with a warning.
    SkipMissingPathname,
    /// The pathname resolves outside the destination root: skipped
    /// with a warning showing the offending joined path.
    SkipOutsideRoot { resolved: String },
    /// The entry has no `asset` payload: skipped with a warning.
    SkipMissingAsset,
    /// The payload is materialized at the resolved destination-root-
    /// relative path by running `ops` in order.
    Extract { dest_rel: Vec<String>, ops: Vec<CopyOp> },
}

/// One entry's outcome, paired with the entry's name for reporting.
#[derive(Debug)]
pub struct EntryStep {
    pub entry_id: String,
    pub action: EntryAction,
}

/// The whole run's plan: the steps for the leading entries that could
/// be decided, and, where an entry's payload was neither a file nor a
/// directory, the name of that entry.  Such a payload fails the run:
/// the steps already planned still stand (writes already made are
/// never rolled back), no later entry is looked at.
#[derive(Debug)]
pub struct ExtractionPlan {
    pub steps: Vec<EntryStep>,
    pub failed: Option<String>,
}

/// Whether an entry fails the run: it would be materialized, but its
/// payload is neither a file nor a directory tree of such.
pub open spec fn entry_fails(e: StagedEntry, sanitize: bool) -> bool {
    &&& e.pathname is Some
    &&& resolve_spec(e.pathname->0@, sanitize) is Some
    &&& e.asset is Some
    &&& !node_supported(e.asset->0)
}

/// The action owed to an entry, checked in the order the entry's
/// faults are looked for: no marker, pathname outside the root, no
/// payload, and otherwise materialization with the full copy plan.
pub open spec fn action_ok(e: StagedEntry, root: Seq<char>, sanitize: bool, a: EntryAction) -> bool {
    match e.pathname {
        Option::None => a == EntryAction::SkipMissingPathname,
        Option::Some(raw) => match resolve_spec(raw@, sanitize) {
            Option::None => a matches EntryAction::SkipOutsideRoot { resolved } && resolved@
                == joined_display(root, sanitized_form(raw@, sanitize)),
            Option::Some(rel) => match e.asset {
                Option::None => a == EntryAction::SkipMissingAsset,
                Option::Some(node) => a matches EntryAction::Extract { dest_rel, ops }
                    && dest_rel.deep_view() == rel && ops.deep_view() == plan_model(node, rel),
            },
        },
    }
}

/// Every planned step answers its entry: the names match, each action
/// is the one owed, and no covered entry fails the run.
pub open spec fn steps_ok(
    entries: Seq<StagedEntry>,
    root: Seq<char>,
    sanitize: bool,
    steps: Seq<EntryStep>,
) -> bool {
    &&& steps.len() <= entries.len()
    &&& forall|i: int|
        0 <= i < steps.len() ==> {
            &&& #[trigger] action_ok(entries[i], root, sanitize, steps[i].action)
            &&& steps[i].entry_id@ == entries[i].entry_id@
            &&& !entry_fails(entries[i], sanitize)
        }
}

/// Decides every entry in order against the destination root and
/// plans the writes of the ones that are materialized.
///
/// The steps returned cover the leading entries; they cover all of
/// them exactly when no payload was of an unsupported kind, and the
/// run then succeeds whatever mix of materialized and skipped entries
/// it saw.  Otherwise `failed` names the first entry with an
/// unsupported payload, the steps stop right before it, and that
/// entry plans no write.
#[verifier::loop_isolation(false)]
pub fn extract_plan(entries: &Vec<StagedEntry>, dest_root: &str, sanitize: bool) -> (r:
    ExtractionPlan)
    ensures
        steps_ok(entries@, dest_root@, sanitize, r.steps@),
        match r.failed {
            Option::None => r.steps@.len() == entries@.len(),
            Option::Some(id) => {
                &&& r.steps@.len() < entries@.len()
                &&& entry_fails(entries@[r.steps@.len() as int], sanitize)
                &&& id@ == entries@[r.steps@.len() as int].entry_id@
            },
        },
{
    let mut steps: Vec<EntryStep> = Vec::new();
    let n: usize = entries.len();
    let mut i: usize = 0;
    while i < n
        invariant
            i <= n,
            steps@.len() == i,
            steps_ok(entries@, dest_root@, sanitize, steps@),
        decreases n - i,
    {
        let e = &entries[i];
        let action: EntryAction = match &e.pathname {
            Option::None => EntryAction::SkipMissingPathname,
            Option::Some(raw) => {
                let (cleaned, resolved) = resolve_pathname(raw.as_str(), sanitize);
                match resolved {
                    Option::None => {
                        let shown = join_for_display(dest_root, cleaned.as_str());
                        EntryAction::SkipOutsideRoot { resolved: shown }
                    },
                    Option::Some(rel) => match &e.asset {
                        Option::None => EntryAction::SkipMissingAsset,
                        Option::Some(node) => {
                            if check_supported(node) {
                                let mut ops: Vec<CopyOp> = Vec::new();
                                proof {
                                    assert(ops.deep_view() =~= Seq::<OpModel>::empty());
                                }
                                plan_copy(node, &rel, &mut ops);
                                proof {
                                    assert(ops.deep_view() =~= plan_model(*node, rel.deep_view()));
                                }
                                EntryAction::Extract { dest_rel: rel, ops }
                            } else {
                                return ExtractionPlan {
                                    steps,
                                    failed: Some(e.entry_id.clone()),
                                };
                            }
                        },
                    },
                }
            },
        };
        proof {
            assert(action_ok(entries@[i as int], dest_root@, sanitize, action));
        }
        steps.push(EntryStep { entry_id: e.entry_id.clone(), action });
        i = i + 1;
    }
    ExtractionPlan { steps, failed: None }
}

} // verus!
