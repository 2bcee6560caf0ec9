//! What a scan of a directory tree decides: which rules it applies, which
//! visited entries it keeps, and in which order the kept paths are handed on.

use crate::order::{lemma_listing_unique, lists_in_order, sort_unique, strictly_sorted};
use vstd::prelude::*;
use vstd::string::StringExecFns;

verus! {

/// Which ignore rules a scan applies. The layers are listed from the lowest
/// precedence to the highest; a later layer overrides an earlier one.
#[derive(Clone, Debug)]
pub struct WalkSettings {
    /// The user's global ignore file.
    pub global_rules: bool,
    /// The ignore file that a repository keeps outside its working tree.
    pub repository_rules: bool,
    /// The ignore files of the directories above the root.
    pub parent_rules: bool,
    /// The ignore files of version control in the directories that are
    /// scanned.
    pub directory_rules: bool,
    /// The ignore files in those directories that belong to no version
    /// control.
    pub plain_rules: bool,
    /// Whether the rules of a repository apply only inside a repository.
    pub require_repository: bool,
    /// Whether entries whose names begin with a dot are left out as such.
    pub skip_hidden: bool,
    /// The globs of the override layer, which no ignore file can undo. A glob
    /// with a leading `!` excludes what it matches.
    pub overrides: Vec<String>,
}

/// The glob of the override layer that excludes the directory in which
/// version control keeps its data.
pub open spec fn metadata_exclusion() -> Seq<char> {
    "!.git/"@
}

impl WalkSettings {
    /// The rules of every scan: all layers of ignore files apply, whether or
    /// not the root lies in a repository; hidden entries are treated like any
    /// other; and the one override excludes the metadata of version control.
    pub fn standard() -> (settings: WalkSettings)
        ensures
            settings.global_rules,
            settings.repository_rules,
            settings.parent_rules,
            settings.directory_rules,
            settings.plain_rules,
            !settings.require_repository,
            !settings.skip_hidden,
            settings.overrides.deep_view() == seq![metadata_exclusion()],
    {
        let mut overrides: Vec<String> = Vec::new();
        overrides.push(String::from_str("!.git/"));
        assert(overrides.deep_view() =~= seq![metadata_exclusion()]);
        WalkSettings {
            global_rules: true,
            repository_rules: true,
            parent_rules: true,
            directory_rules: true,
            plain_rules: true,
            require_repository: false,
            skip_hidden: false,
            overrides,
        }
    }
}

/// What kind of filesystem object a scan visited.
#[derive(Clone, Copy, Debug, PartialEq, Eq, Structural)]
pub enum EntryKind {
    /// A regular file.
    File,
    /// A directory.
    Directory,
    /// Anything else: a link that leads nowhere, a device, an entry whose
    /// kind could not be read.
    Other,
}

/// An entry that a scan visited and the rules let pass.
#[derive(Clone, Debug)]
pub struct CandidateEntry {
    pub path: String,
    pub kind: EntryKind,
}

/// What a scan does after a visit.
#[derive(Clone, Debug)]
pub struct Visit {
    /// The path to hand on, where the visit found a file to keep.
    pub emitted: Option<String>,
    /// Whether the scan goes on.
    pub proceed: bool,
}

/// Decides one visit. `entry` is `None` where the entry could not be read.
/// Only a regular file is handed on, and the scan always goes on: an entry
/// that cannot be read is passed over.
pub fn visit(entry: Option<CandidateEntry>) -> (step: Visit)
    ensures
        step.proceed,
        step.emitted == match entry {
            Some(e) => if e.kind == EntryKind::File {
                Some(e.path)
            } else {
                None
            },
            None => None,
        },
{
    match entry {
        Some(e) => {
            if e.kind == EntryKind::File {
                Visit { emitted: Some(e.path), proceed: true }
            } else {
                Visit { emitted: None, proceed: true }
            }
        },
        None => Visit { emitted: None, proceed: true },
    }
}

/// The paths of the files that a scan kept: in increasing order, none twice.
pub struct FilteredPathList {
    paths: Vec<String>,
}

impl FilteredPathList {
    /// The paths as texts, in order.
    pub closed spec fn view(&self) -> Seq<Seq<char>> {
        self.paths.deep_view()
    }

    #[verifier::type_invariant]
    spec fn ordered(&self) -> bool {
        strictly_sorted(self.paths.deep_view())
    }

    /// How many files were kept.
    pub fn len(&self) -> (n: usize)
        ensures
            n == self@.len(),
    {
        self.paths.len()
    }

    /// Whether the scan kept nothing.
    pub fn is_empty(&self) -> (empty: bool)
        ensures
            empty == (self@.len() == 0),
    {
        self.paths.len() == 0
    }

    /// The paths, in order.
    pub fn paths(&self) -> (paths: &Vec<String>)
        ensures
            paths.deep_view() == self@,
            strictly_sorted(self@),
    {
        proof {
            use_type_invariant(self);
        }
        &self.paths
    }
}

/// Puts the paths that a scan handed on, in whatever order they came, into
/// the one order that everything later relies on, each path once.
pub fn collect_paths(emitted: Vec<String>) -> (list: FilteredPathList)
    ensures
        lists_in_order(list@, emitted.deep_view().to_set()),
{
    FilteredPathList { paths: sort_unique(emitted) }
}

/// Two scans that handed on the same paths, in whatever order and however
/// often, give the same list.
pub proof fn lemma_order_of_arrival_is_irrelevant(
    first: Seq<Seq<char>>,
    second: Seq<Seq<char>>,
    first_list: Seq<Seq<char>>,
    second_list: Seq<Seq<char>>,
)
    requires
        first.to_set() == second.to_set(),
        lists_in_order(first_list, first.to_set()),
        lists_in_order(second_list, second.to_set()),
    ensures
        first_list == second_list,
{
    lemma_listing_unique(first_list, second_list, first.to_set());
}

/// A scan that handed on nothing gives the empty list.
pub proof fn lemma_nothing_kept(list: Seq<Seq<char>>)
    requires
        lists_in_order(list, Seq::<Seq<char>>::empty().to_set()),
    ensures
        list.len() == 0,
{
    if list.len() > 0 {
        assert(list.contains(list[0]));
    }
}

} // verus!
