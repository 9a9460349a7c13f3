//! The rename plan: for each file found, the new path it is to get, if any.
//!
//! A plan names no file twice, but two files may well be planned for the
//! same new path. The plan keeps both lines and does not tell: whoever renames
//! in the order of the plan finds the file that was renamed last under that
//! path.

use crate::naming::{generate_new_name, new_name};
use crate::text::{same_text, text_of};
use vstd::prelude::*;
use vstd::string::*;

verus! {

/// One line of a plan: a file, and the new path planned for it. A file for
/// which no new path could be made has none.
pub struct Entry {
    pub original: Seq<char>,
    pub candidate: Option<Seq<char>>,
}

/// One line of a plan, as the program holds it.
#[derive(Debug, PartialEq, Eq)]
pub struct PlanEntry {
    pub original: String,
    pub candidate: Option<String>,
}

impl View for PlanEntry {
    type V = Entry;

    open spec fn view(&self) -> Entry {
        Entry { original: self.original@, candidate: text_of(self.candidate) }
    }
}

/// No file stands in `entries` twice.
pub open spec fn distinct_originals(entries: Seq<Entry>) -> bool {
    forall|i: int, j: int|
        0 <= i < j < entries.len() ==> (#[trigger] entries[i]).original != (
        #[trigger] entries[j]).original
}

/// Whether `entries` has a line for the file `original`.
pub open spec fn holds(entries: Seq<Entry>, original: Seq<char>) -> bool {
    exists|i: int| 0 <= i < entries.len() && (#[trigger] entries[i]).original == original
}

/// `entries` with `entry` put in: in place of the line that its file has
/// already, or else at the end.
pub open spec fn with_entry(entries: Seq<Entry>, entry: Entry) -> Seq<Entry> {
    if holds(entries, entry.original) {
        let at = choose|i: int|
            0 <= i < entries.len() && (#[trigger] entries[i]).original == entry.original;
        entries.update(at, entry)
    } else {
        entries.push(entry)
    }
}

/// The plan as a mapping from each file in it to the new path planned for it.
pub open spec fn mapping(entries: Seq<Entry>) -> Map<Seq<char>, Option<Seq<char>>> {
    Map::new(
        |original: Seq<char>| holds(entries, original),
        |original: Seq<char>|
            entries[choose|i: int|
                0 <= i < entries.len() && (#[trigger] entries[i]).original == original].candidate,
    )
}

/// The line that the plan for a tree under `root_path` has for `file`.
pub open spec fn planned_entry(file: Seq<char>, root_path: Seq<char>, anchor: Seq<char>) -> Entry {
    Entry { original: file, candidate: new_name(file, root_path, anchor) }
}

/// The plan for `files`: the line of each file, put in one after the other.
pub open spec fn planned(files: Seq<Seq<char>>, root_path: Seq<char>, anchor: Seq<char>) -> Seq<
    Entry,
>
    decreases files.len(),
{
    if files.len() == 0 {
        Seq::empty()
    } else {
        with_entry(
            planned(files.drop_last(), root_path, anchor),
            planned_entry(files.last(), root_path, anchor),
        )
    }
}

/// The lines in `entries` as the plan sees them.
pub open spec fn entries_of(entries: Seq<PlanEntry>) -> Seq<Entry> {
    entries.map_values(|entry: PlanEntry| entry@)
}

/// The paths in `files` as texts.
pub open spec fn texts_of(files: Seq<String>) -> Seq<Seq<char>> {
    files.map_values(|file: String| file@)
}

/// Putting a line into a plan without repeated files leaves it without
/// repeated files, and changes the mapping at that file only.
pub proof fn lemma_with_entry(entries: Seq<Entry>, entry: Entry)
    requires
        distinct_originals(entries),
    ensures
        distinct_originals(with_entry(entries, entry)),
        mapping(with_entry(entries, entry)) == mapping(entries).insert(
            entry.original,
            entry.candidate,
        ),
{
    let after = with_entry(entries, entry);
    if holds(entries, entry.original) {
        let at = choose|i: int|
            0 <= i < entries.len() && (#[trigger] entries[i]).original == entry.original;
        assert forall|i: int, j: int| 0 <= i < j < after.len() implies (#[trigger] after[i]).original
            != (#[trigger] after[j]).original by {
            assert(after[i].original == entries[i].original);
            assert(after[j].original == entries[j].original);
        }
        assert forall|original: Seq<char>| holds(after, original) == holds(entries, original) by {
            if holds(after, original) {
                let i = choose|i: int|
                    0 <= i < after.len() && (#[trigger] after[i]).original == original;
                assert(entries[i].original == original);
            }
            if holds(entries, original) {
                let i = choose|i: int|
                    0 <= i < entries.len() && (#[trigger] entries[i]).original == original;
                assert(after[i].original == original);
            }
        }
        assert forall|original: Seq<char>| holds(after, original) implies mapping(after)[original]
            == mapping(entries).insert(entry.original, entry.candidate)[original] by {
            let i = choose|i: int|
                0 <= i < after.len() && (#[trigger] after[i]).original == original;
            let k = choose|i: int|
                0 <= i < entries.len() && (#[trigger] entries[i]).original == original;
            assert(entries[i].original == original);
            assert(i == k) by {
                if i < k {
                    assert(entries[i].original != entries[k].original);
                } else if k < i {
                    assert(entries[k].original != entries[i].original);
                }
            }
            if original == entry.original {
                assert(i == at) by {
                    if i < at {
                        assert(entries[i].original != entries[at].original);
                    } else if at < i {
                        assert(entries[at].original != entries[i].original);
                    }
                }
            }
        }
        assert(mapping(after) =~= mapping(entries).insert(entry.original, entry.candidate));
    } else {
        assert forall|i: int, j: int| 0 <= i < j < after.len() implies (#[trigger] after[i]).original
            != (#[trigger] after[j]).original by {
            if j == entries.len() {
                assert(entries[i].original != entry.original);
            } else {
                assert(after[i] == entries[i]);
                assert(after[j] == entries[j]);
            }
        }
        assert forall|original: Seq<char>|
            holds(after, original) == (holds(entries, original) || original
                == entry.original) by {
            if holds(after, original) {
                let i = choose|i: int|
                    0 <= i < after.len() && (#[trigger] after[i]).original == original;
                if i < entries.len() {
                    assert(entries[i].original == original);
                }
            }
            if holds(entries, original) {
                let i = choose|i: int|
                    0 <= i < entries.len() && (#[trigger] entries[i]).original == original;
                assert(after[i].original == original);
            }
            if original == entry.original {
                assert(after[entries.len() as int].original == original);
            }
        }
        assert forall|original: Seq<char>| holds(after, original) implies mapping(after)[original]
            == mapping(entries).insert(entry.original, entry.candidate)[original] by {
            let i = choose|i: int|
                0 <= i < after.len() && (#[trigger] after[i]).original == original;
            if original == entry.original {
                if i < entries.len() {
                    assert(entries[i].original == original);
                }
            } else {
                assert(entries[i].original == original);
                let k = choose|i: int|
                    0 <= i < entries.len() && (#[trigger] entries[i]).original == original;
                assert(i == k) by {
                    if i < k {
                        assert(entries[i].original != entries[k].original);
                    } else if k < i {
                        assert(entries[k].original != entries[i].original);
                    }
                }
            }
        }
        assert(mapping(after) =~= mapping(entries).insert(entry.original, entry.candidate));
    }
}

/// The plan for a list of files names no file twice, and maps exactly the
/// files of the list, each to its new path.
pub proof fn law_plan_maps_each_file(
    files: Seq<Seq<char>>,
    root_path: Seq<char>,
    anchor: Seq<char>,
)
    ensures
        distinct_originals(planned(files, root_path, anchor)),
        mapping(planned(files, root_path, anchor)) == Map::new(
            |file: Seq<char>| files.contains(file),
            |file: Seq<char>| new_name(file, root_path, anchor),
        ),
    decreases files.len(),
{
    let goal = Map::new(
        |file: Seq<char>| files.contains(file),
        |file: Seq<char>| new_name(file, root_path, anchor),
    );
    if files.len() == 0 {
        assert(mapping(planned(files, root_path, anchor)) =~= goal);
    } else {
        let before = files.drop_last();
        law_plan_maps_each_file(before, root_path, anchor);
        lemma_with_entry(
            planned(before, root_path, anchor),
            planned_entry(files.last(), root_path, anchor),
        );
        assert forall|file: Seq<char>| files.contains(file) == (before.contains(file) || file
            == files.last()) by {
            if files.contains(file) {
                let i = choose|i: int| 0 <= i < files.len() && files[i] == file;
                if i < before.len() {
                    assert(before[i] == file);
                }
            }
            if before.contains(file) {
                let i = choose|i: int| 0 <= i < before.len() && before[i] == file;
                assert(files[i] == file);
            }
            if file == files.last() {
                assert(files[files.len() - 1] == file);
            }
        }
        assert(mapping(planned(files, root_path, anchor)) =~= goal);
    }
}

/// Where no file is listed twice, the plan has the line of each file in the
/// order of the list.
pub proof fn law_plan_of_distinct_files(
    files: Seq<Seq<char>>,
    root_path: Seq<char>,
    anchor: Seq<char>,
)
    requires
        forall|i: int, j: int| 0 <= i < j < files.len() ==> files[i] != files[j],
    ensures
        planned(files, root_path, anchor) == files.map_values(
            |file: Seq<char>| planned_entry(file, root_path, anchor),
        ),
    decreases files.len(),
{
    let lines = files.map_values(|file: Seq<char>| planned_entry(file, root_path, anchor));
    if files.len() == 0 {
        assert(planned(files, root_path, anchor) =~= lines);
    } else {
        let before = files.drop_last();
        law_plan_of_distinct_files(before, root_path, anchor);
        let plan_before = planned(before, root_path, anchor);
        let last = planned_entry(files.last(), root_path, anchor);
        assert(!holds(plan_before, last.original)) by {
            if holds(plan_before, last.original) {
                let i = choose|i: int|
                    0 <= i < plan_before.len() && (#[trigger] plan_before[i]).original
                        == last.original;
                assert(plan_before[i].original == files[i]);
                assert(files[i] != files[files.len() - 1]);
            }
        }
        assert(plan_before.push(last) =~= lines);
    }
}

/// A rename plan: the files found, each once, with the new path of each.
pub struct RenamePlan {
    entries: Vec<PlanEntry>,
}

impl View for RenamePlan {
    type V = Seq<Entry>;

    closed spec fn view(&self) -> Seq<Entry> {
        entries_of(self.entries@)
    }
}

impl RenamePlan {
    #[verifier::type_invariant]
    spec fn names_no_file_twice(self) -> bool {
        distinct_originals(self@)
    }

    /// The empty plan.
    pub fn new() -> (plan: RenamePlan)
        ensures
            plan@ == Seq::<Entry>::empty(),
    {
        let plan = RenamePlan { entries: Vec::new() };
        assert(plan@ =~= Seq::<Entry>::empty());
        plan
    }

    /// The number of files in the plan.
    pub fn len(&self) -> (n: usize)
        ensures
            n == self@.len(),
    {
        self.entries.len()
    }

    /// The lines of the plan, in the order in which their files first came.
    pub fn entries(&self) -> (entries: &Vec<PlanEntry>)
        ensures
            entries_of(entries@) == self@,
            distinct_originals(self@),
    {
        proof {
            use_type_invariant(self);
        }
        &self.entries
    }

    /// Where the line of the file `original` stands, if the plan has one.
    pub fn position(&self, original: &str) -> (found: Option<usize>)
        ensures
            match found {
                Some(at) => at < self@.len() && self@[at as int].original == original@,
                None => !holds(self@, original@),
            },
    {
        let n = self.entries.len();
        let mut at: usize = 0;
        while at < n
            invariant
                at <= n,
                n == self.entries.len(),
                forall|i: int| 0 <= i < at ==> (#[trigger] self@[i]).original != original@,
            decreases n - at,
        {
            if same_text(self.entries[at].original.as_str(), original) {
                return Some(at);
            }
            at += 1;
        }
        None
    }

    /// Plans `candidate` for the file `original`. A file that the plan holds
    /// already keeps its place and gets the new candidate.
    pub fn insert(&mut self, original: String, candidate: Option<String>)
        ensures
            final(self)@ == with_entry(
                old(self)@,
                Entry { original: original@, candidate: text_of(candidate) },
            ),
    {
        proof {
            use_type_invariant(&*self);
        }
        let ghost before = self@;
        let ghost entry = Entry { original: original@, candidate: text_of(candidate) };
        proof {
            lemma_with_entry(before, entry);
        }
        let found = self.position(original.as_str());
        let mut entries: Vec<PlanEntry> = Vec::new();
        core::mem::swap(&mut self.entries, &mut entries);
        match found {
            Some(at) => {
                proof {
                    let chosen = choose|i: int|
                        0 <= i < before.len() && (#[trigger] before[i]).original
                            == entry.original;
                    if chosen < at {
                        assert(before[chosen].original != before[at as int].original);
                    } else if at < chosen {
                        assert(before[at as int].original != before[chosen].original);
                    }
                }
                entries.set(at, PlanEntry { original, candidate });
                assert(entries_of(entries@) =~= before.update(at as int, entry));
            },
            None => {
                entries.push(PlanEntry { original, candidate });
                assert(entries_of(entries@) =~= before.push(entry));
            },
        }
        self.entries = entries;
    }
}

/// Builds the plan for the files found under `root_path`: generates the new
/// path of each file in `files`, once per file.
pub fn build_plan(files: &Vec<String>, root_path: &str, num_after: &str) -> (plan: RenamePlan)
    ensures
        plan@ == planned(texts_of(files@), root_path@, num_after@),
{
    let mut plan = RenamePlan::new();
    let n = files.len();
    let mut i: usize = 0;
    while i < n
        invariant
            i <= n,
            n == files.len(),
            plan@ == planned(texts_of(files@).take(i as int), root_path@, num_after@),
        decreases n - i,
    {
        let candidate = generate_new_name(files[i].as_str(), root_path, num_after);
        plan.insert(files[i].clone(), candidate);
        proof {
            let texts = texts_of(files@);
            assert(texts.take(i + 1).drop_last() =~= texts.take(i as int));
            assert(texts.take(i + 1).last() == files@[i as int]@);
        }
        i += 1;
    }
    proof {
        assert(texts_of(files@).take(n as int) =~= texts_of(files@));
    }
    plan
}

} // verus!
