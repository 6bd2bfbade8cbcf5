//! The run over a batch of files: from what the metadata tool printed for
//! each file to the plan of what is done with it.
//!
//! The files are grouped by candidate, and the groups are parted in two. The
//! plan first lists the files whose candidate no other file shares, in the
//! order of their groups, then group by group the files that collide.

use vstd::prelude::*;
use crate::error::MetadataError;
use crate::exif::{lemma_candidate_shape, lemma_extension_plain, lemma_naming_idempotent};
use crate::exif::{resolved, Metadata, MetadataView};
use crate::fs::{absolute, carries_extension, handle_file, numbered, planned_operation};
use crate::fs::{OperationView, PlannedOperation};
use crate::group::{assignment_views, group, group_views, grouped, keys_upto, lemma_keys};
use crate::group::{destinations, duplicate_assignments, final_assignments, unique_assignments};
use crate::group::{lemma_colliding_resolutions, partition, resolutions, sources};
use crate::group::lemma_final_assignments_distinct;
use crate::group::{lemma_grouping_partitions, member_count, resolution, resolve};
use crate::group::{Assignment, AssignmentView, CollisionGroup, GroupView};
use crate::text::{extend_str, from_chars, optional_text, texts, to_chars};

verus! {

/// What the run does for one file.
#[derive(Clone, Debug, PartialEq, Eq)]
pub enum Action {
    /// A dry run: the line is shown, and nothing else is done.
    Preview(String),
    /// The operation is performed.
    Execute(PlannedOperation),
}

/// An action as plain values.
pub enum ActionView {
    Preview(Seq<char>),
    Execute(OperationView),
}

impl View for Action {
    type V = ActionView;

    open spec fn view(&self) -> ActionView {
        match self {
            Action::Preview(line) => ActionView::Preview(line@),
            Action::Execute(operation) => ActionView::Execute(operation@),
        }
    }
}

/// A file that is left out of the plan, and why.
#[derive(Clone, Debug, PartialEq, Eq)]
pub struct Failure {
    pub source: String,
    pub error: MetadataError,
}

/// A failure as plain values.
pub struct FailureView {
    pub source: Seq<char>,
    pub error: MetadataError,
}

impl View for Failure {
    type V = FailureView;

    open spec fn view(&self) -> FailureView {
        FailureView { source: self.source@, error: self.error }
    }
}

/// The outcome of planning: an action for every file whose metadata
/// resolved, and a report for every other file.
#[derive(Clone, Debug, PartialEq, Eq)]
pub struct Plan {
    pub actions: Vec<Action>,
    pub failures: Vec<Failure>,
}

/// A plan as plain values.
pub struct PlanView {
    pub actions: Seq<ActionView>,
    pub failures: Seq<FailureView>,
}

impl View for Plan {
    type V = PlanView;

    open spec fn view(&self) -> PlanView {
        PlanView { actions: action_views(self.actions@), failures: failure_views(self.failures@) }
    }
}

impl Plan {
    /// The exit status of a run with this plan, of which `failed_operations`
    /// operations failed: zero only where every discovered file was planned
    /// and every planned operation succeeded.
    pub fn exit_code(&self, failed_operations: usize) -> (code: i32)
        ensures
            code == if self@.failures.len() == 0 && failed_operations == 0 {
                0i32
            } else {
                1i32
            },
    {
        if self.failures.len() == 0 && failed_operations == 0 {
            0
        } else {
            1
        }
    }
}

/// The views of a sequence of actions.
pub open spec fn action_views(actions: Seq<Action>) -> Seq<ActionView> {
    actions.map_values(|a: Action| a@)
}

/// The views of a sequence of failures.
pub open spec fn failure_views(failures: Seq<Failure>) -> Seq<FailureView> {
    failures.map_values(|f: Failure| f@)
}

/// What the metadata tool printed for each file, as plain values; nothing
/// for a file on which it failed.
pub open spec fn output_texts(outputs: Seq<Option<String>>) -> Seq<Option<Seq<char>>> {
    outputs.map_values(|output: Option<String>| optional_text(output))
}

/// The line that a dry run shows for a file.
pub open spec fn preview_line(source: Seq<char>, destination: Seq<char>) -> Seq<char> {
    source + " -> "@ + destination
}

/// A run as plain values.
pub struct RunnerView {
    pub input_files: Seq<Seq<char>>,
    pub destination: Seq<char>,
    pub dry_run: bool,
    pub overwrite: bool,
    pub do_move: bool,
}

impl RunnerView {
    /// Whether the run is one that can be made: the destination is given by
    /// its absolute path, no file is given twice, and every file has an
    /// extension.
    pub open spec fn valid(self) -> bool {
        &&& absolute(self.destination)
        &&& self.input_files.no_duplicates()
        &&& forall|i: int|
            0 <= i < self.input_files.len() ==> carries_extension(#[trigger] self.input_files[i])
    }

    /// What the run does to bring `source` to `destination`: in a dry run it
    /// shows a line, whatever the other flags are; else it performs the
    /// operation that the flags ask for.
    pub open spec fn action(self, source: Seq<char>, destination: Seq<char>) -> ActionView {
        if self.dry_run {
            ActionView::Preview(preview_line(source, destination))
        } else {
            ActionView::Execute(
                planned_operation(source, destination, self.do_move, self.overwrite),
            )
        }
    }

    /// The actions for a sequence of assignments, one for each, in order.
    pub open spec fn actions(self, assignments: Seq<AssignmentView>) -> Seq<ActionView> {
        assignments.map_values(|a: AssignmentView| self.action(a.source, a.destination))
    }

    /// What the metadata of the file at index `i` resolve to. A file for
    /// which no output is given counts as one on which the tool failed.
    pub open spec fn outcome(self, outputs: Seq<Option<Seq<char>>>, i: int) -> Result<
        MetadataView,
        MetadataError,
    > {
        if 0 <= i < outputs.len() && outputs[i] is Some {
            resolved(outputs[i]->0, self.input_files[i])
        } else {
            Err(MetadataError::ToolFailed)
        }
    }

    /// Those of the first `n` files whose metadata resolve, each with its
    /// candidate destination, in the order of the files.
    pub open spec fn candidates_upto(self, outputs: Seq<Option<Seq<char>>>, n: int) -> Seq<
        AssignmentView,
    >
        decreases n,
    {
        if n <= 0 {
            Seq::empty()
        } else {
            match self.outcome(outputs, n - 1) {
                Ok(metadata) => self.candidates_upto(outputs, n - 1).push(
                    AssignmentView {
                        source: self.input_files[n - 1],
                        destination: metadata.candidate(self.destination),
                    },
                ),
                Err(_) => self.candidates_upto(outputs, n - 1),
            }
        }
    }

    /// Those of the first `n` files whose metadata do not resolve, each with
    /// the reason, in the order of the files.
    pub open spec fn failures_upto(self, outputs: Seq<Option<Seq<char>>>, n: int) -> Seq<
        FailureView,
    >
        decreases n,
    {
        if n <= 0 {
            Seq::empty()
        } else {
            match self.outcome(outputs, n - 1) {
                Ok(_) => self.failures_upto(outputs, n - 1),
                Err(error) => self.failures_upto(outputs, n - 1).push(
                    FailureView { source: self.input_files[n - 1], error },
                ),
            }
        }
    }

    /// The collision groups of the files whose metadata resolve.
    pub open spec fn groups(self, outputs: Seq<Option<Seq<char>>>) -> Seq<GroupView> {
        grouped(self.candidates_upto(outputs, self.input_files.len() as int))
    }

    /// The final destination of every file whose metadata resolve, in the
    /// order of the plan.
    pub open spec fn assignments(self, outputs: Seq<Option<Seq<char>>>) -> Seq<AssignmentView> {
        final_assignments(self.groups(outputs))
    }

    /// The plan of the run, given what the metadata tool printed for each
    /// file.
    pub open spec fn plan(self, outputs: Seq<Option<Seq<char>>>) -> PlanView {
        PlanView {
            actions: self.actions(self.assignments(outputs)),
            failures: self.failures_upto(outputs, self.input_files.len() as int),
        }
    }
}

/// Whether `file` is one of the first `n` of `files`.
spec fn among_first(files: Seq<Seq<char>>, n: int, file: Seq<char>) -> bool {
    exists|at: int| 0 <= at < n && #[trigger] files[at] == file
}

/// One run over a batch of discovered files.
#[derive(Debug)]
pub struct Runner {
    input_files: Vec<String>,
    destination: String,
    dry_run: bool,
    overwrite: bool,
    do_move: bool,
}

impl View for Runner {
    type V = RunnerView;

    closed spec fn view(&self) -> RunnerView {
        RunnerView {
            input_files: texts(self.input_files@),
            destination: self.destination@,
            dry_run: self.dry_run,
            overwrite: self.overwrite,
            do_move: self.do_move,
        }
    }
}

impl Runner {
    #[verifier::type_invariant]
    spec fn well_formed(self) -> bool {
        self@.valid()
    }

    /// A run over the discovered files `input_files` into the directory
    /// `destination`. The directory is given by its absolute path, no file
    /// is given twice, and every file has an extension.
    pub fn new(
        input_files: Vec<String>,
        destination: String,
        dry_run: bool,
        overwrite: bool,
        do_move: bool,
    ) -> (runner: Runner)
        requires
            absolute(destination@),
            texts(input_files@).no_duplicates(),
            forall|i: int| 0 <= i < input_files@.len() ==> carries_extension(
                #[trigger] input_files@[i]@,
            ),
        ensures
            runner@ == (RunnerView {
                input_files: texts(input_files@),
                destination: destination@,
                dry_run,
                overwrite,
                do_move,
            }),
            runner@.valid(),
    {
        assert forall|i: int| 0 <= i < input_files@.len() implies carries_extension(
            #[trigger] texts(input_files@)[i],
        ) by {
            assert(texts(input_files@)[i] == input_files@[i]@);
        }
        Runner { input_files, destination, dry_run, overwrite, do_move }
    }

    /// The discovered files, in the order of discovery.
    pub fn input_files(&self) -> (files: &Vec<String>)
        ensures
            texts(files@) == self@.input_files,
            self@.valid(),
    {
        proof {
            use_type_invariant(self);
        }
        &self.input_files
    }

    /// The directory into which the files are brought.
    pub fn destination(&self) -> (destination: &String)
        ensures
            destination@ == self@.destination,
            absolute(destination@),
    {
        proof {
            use_type_invariant(self);
        }
        &self.destination
    }

    /// Whether the run only shows what it would do.
    pub fn dry_run(&self) -> (dry_run: bool)
        ensures
            dry_run == self@.dry_run,
    {
        self.dry_run
    }

    /// Whether an existing destination is replaced.
    pub fn overwrite(&self) -> (overwrite: bool)
        ensures
            overwrite == self@.overwrite,
    {
        self.overwrite
    }

    /// Whether the files are moved instead of copied.
    pub fn do_move(&self) -> (do_move: bool)
        ensures
            do_move == self@.do_move,
    {
        self.do_move
    }

    /// What the run does to bring `source` to `destination`.
    pub fn handle_file(&self, source: &str, destination: &str) -> (action: Action)
        ensures
            action@ == self@.action(source@, destination@),
    {
        if self.dry_run {
            let mut line = to_chars(source);
            extend_str(&mut line, " -> ");
            extend_str(&mut line, destination);
            Action::Preview(from_chars(&line))
        } else {
            Action::Execute(handle_file(source, destination, self.do_move, self.overwrite))
        }
    }

    /// The actions for the given assignments, one for each, in order.
    fn handle_assignments(&self, assignments: &Vec<Assignment>, actions: &mut Vec<Action>)
        ensures
            action_views(final(actions)@) == action_views(old(actions)@) + self@.actions(
                assignment_views(assignments@),
            ),
    {
        let ghost before = action_views(actions@);
        let ghost all = self@.actions(assignment_views(assignments@));
        let mut i: usize = 0;
        while i < assignments.len()
            invariant
                i <= assignments.len(),
                all == self@.actions(assignment_views(assignments@)),
                action_views(actions@) == before + all.take(i as int),
            decreases assignments.len() - i,
        {
            let action = self.handle_file(
                assignments[i].source.as_str(),
                assignments[i].destination.as_str(),
            );
            let ghost so_far = action_views(actions@);
            actions.push(action);
            proof {
                assert(assignment_views(assignments@)[i as int] == assignments@[i as int]@);
                assert(action_views(actions@) =~= so_far.push(all[i as int]));
                assert(all.take(i + 1) =~= all.take(i as int).push(all[i as int]));
            }
            i += 1;
        }
        assert(all.take(assignments.len() as int) =~= all);
    }

    /// Plans the files that collide with no other. Each of `uniques` gives
    /// such a file and its candidate, which the file keeps as its
    /// destination: there is one action for each of them, in order.
    pub fn handle_uniques(&self, uniques: &Vec<Assignment>) -> (actions: Vec<Action>)
        ensures
            action_views(actions@) == self@.actions(assignment_views(uniques@)),
    {
        let mut actions: Vec<Action> = Vec::new();
        self.handle_assignments(uniques, &mut actions);
        assert(action_views(actions@) =~= self@.actions(assignment_views(uniques@)));
        actions
    }

    /// Plans the files of the given groups, group by group: there is one
    /// action for every member of every group. The members of a group of two
    /// or more get the candidate of the group with an enumerating suffix; the
    /// only member of a group keeps the candidate.
    pub fn handle_duplicates(&self, duplicates: &Vec<CollisionGroup>) -> (actions: Vec<Action>)
        requires
            forall|k: int|
                0 <= k < duplicates@.len() && (#[trigger] duplicates@[k])@.members.len() >= 2
                    ==> carries_extension(duplicates@[k]@.candidate),
        ensures
            action_views(actions@) == self@.actions(
                resolutions(group_views(duplicates@), duplicates@.len() as int),
            ),
    {
        let ghost views = group_views(duplicates@);
        let mut actions: Vec<Action> = Vec::new();
        let mut k: usize = 0;
        while k < duplicates.len()
            invariant
                k <= duplicates.len(),
                views == group_views(duplicates@),
                forall|k: int|
                    0 <= k < duplicates@.len() && (#[trigger] duplicates@[k])@.members.len() >= 2
                        ==> carries_extension(duplicates@[k]@.candidate),
                action_views(actions@) == self@.actions(resolutions(views, k as int)),
            decreases duplicates.len() - k,
        {
            assert(views[k as int] == duplicates@[k as int]@);
            let assignments = resolve(&duplicates[k]);
            self.handle_assignments(&assignments, &mut actions);
            assert(self@.actions(resolutions(views, k + 1)) =~= self@.actions(
                resolutions(views, k as int),
            ) + self@.actions(resolution(views[k as int])));
            k += 1;
        }
        actions
    }

    /// Resolves the metadata of the file at index `i` from what the tool
    /// printed for it.
    fn resolve_metadata(
        &self,
        outputs: &Vec<Option<String>>,
        i: usize,
    ) -> (made: Result<Metadata, MetadataError>)
        requires
            i < self@.input_files.len(),
        ensures
            match made {
                Ok(metadata) => self@.outcome(output_texts(outputs@), i as int) == Ok::<
                    _,
                    MetadataError,
                >(metadata@),
                Err(error) => self@.outcome(output_texts(outputs@), i as int) == Err::<
                    MetadataView,
                    _,
                >(error),
            },
    {
        proof {
            use_type_invariant(self);
        }
        if i < outputs.len() {
            match &outputs[i] {
                Some(output) => Metadata::exiftool(output.as_str(), self.input_files[i].as_str()),
                None => Err(MetadataError::ToolFailed),
            }
        } else {
            Err(MetadataError::ToolFailed)
        }
    }

    /// Plans the whole batch. `outputs` holds for each discovered file, in
    /// the order of discovery, what the metadata tool printed for it, or
    /// nothing where the tool failed; a file for which no output is given
    /// counts as one on which the tool failed. A file whose metadata do not
    /// resolve is reported and left out; all the others are grouped by
    /// candidate destination before any final destination is decided.
    pub fn run(&self, outputs: &Vec<Option<String>>) -> (plan: Plan)
        ensures
            plan@ == self@.plan(output_texts(outputs@)),
            self@.valid(),
    {
        proof {
            use_type_invariant(self);
        }
        let ghost given = output_texts(outputs@);
        let mut pairs: Vec<Assignment> = Vec::new();
        let mut failures: Vec<Failure> = Vec::new();
        let mut i: usize = 0;
        while i < self.input_files.len()
            invariant
                i <= self.input_files@.len(),
                self@.valid(),
                self@.input_files == texts(self.input_files@),
                self.destination@ == self@.destination,
                given == output_texts(outputs@),
                assignment_views(pairs@) == self@.candidates_upto(given, i as int),
                failure_views(failures@) == self@.failures_upto(given, i as int),
                sources(assignment_views(pairs@)).no_duplicates(),
                forall|j: int|
                    0 <= j < pairs@.len() ==> carries_extension((#[trigger] pairs@[j])@.destination)
                        && among_first(self@.input_files, i as int, pairs@[j]@.source),
            decreases self.input_files@.len() - i,
        {
            let ghost pairs_before = assignment_views(pairs@);
            let ghost failures_before = failure_views(failures@);
            let ghost old_pairs = pairs@;
            assert(self@.input_files[i as int] == self.input_files@[i as int]@);
            assert forall|j: int| 0 <= j < old_pairs.len() implies among_first(
                self@.input_files,
                i + 1,
                (#[trigger] old_pairs[j])@.source,
            ) by {
                assert(among_first(self@.input_files, i as int, old_pairs[j]@.source));
                let at = choose|at: int|
                    0 <= at < i && #[trigger] self@.input_files[at] == old_pairs[j]@.source;
                assert(0 <= at < i + 1 && self@.input_files[at] == old_pairs[j]@.source);
            }
            match self.resolve_metadata(outputs, i) {
                Ok(metadata) => {
                    let destination = metadata.new_file_name(self.destination.as_str());
                    pairs.push(Assignment { source: self.input_files[i].clone(), destination });
                    proof {
                        let added = AssignmentView {
                            source: self@.input_files[i as int],
                            destination: metadata@.candidate(self@.destination),
                        };
                        assert(assignment_views(pairs@) =~= pairs_before.push(added));
                        let before = sources(pairs_before);
                        let after = sources(assignment_views(pairs@));
                        assert(after =~= before.push(added.source));
                        assert forall|a: int, b: int|
                            0 <= a < after.len() && 0 <= b < after.len() && a != b implies after[a]
                            != after[b] by {
                            let old = if a < before.len() {
                                a
                            } else {
                                b
                            };
                            if a < before.len() && b < before.len() {
                            } else {
                                assert(before[old] == old_pairs[old]@.source);
                                assert(among_first(
                                    self@.input_files,
                                    i as int,
                                    old_pairs[old]@.source,
                                ));
                                let at = choose|at: int|
                                    0 <= at < i && #[trigger] self@.input_files[at]
                                        == old_pairs[old]@.source;
                                assert(self@.input_files[at] != self@.input_files[i as int]);
                            }
                        }
                        assert forall|j: int| 0 <= j < pairs@.len() implies carries_extension(
                            (#[trigger] pairs@[j])@.destination,
                        ) && among_first(self@.input_files, i + 1, pairs@[j]@.source) by {
                            if j < old_pairs.len() {
                                assert(pairs@[j] == old_pairs[j]);
                            } else {
                                assert(self@.input_files[i as int] == pairs@[j]@.source);
                            }
                        }
                    }
                },
                Err(error) => {
                    failures.push(Failure { source: self.input_files[i].clone(), error });
                    assert(failure_views(failures@) =~= failures_before.push(
                        FailureView { source: self@.input_files[i as int], error },
                    ));
                },
            }
            i += 1;
        }
        let groups = group(&pairs);
        let (uniques, duplicates) = partition(&groups);
        proof {
            let candidates = assignment_views(pairs@);
            let keys = keys_upto(candidates, candidates.len() as int);
            let all = group_views(groups@);
            lemma_keys(candidates, candidates.len() as int);
            assert(all == grouped(candidates));
            assert(all.len() == keys.len());
            assert forall|k: int| 0 <= k < all.len() implies carries_extension(
                (#[trigger] all[k]).candidate,
            ) by {
                assert(all[k].candidate == keys[k]);
                let j = choose|j: int|
                    0 <= j < candidates.len() && candidates[j].destination == keys[k];
                assert(candidates[j] == pairs@[j]@);
            }
            lemma_colliding_resolutions(all, all.len() as int);
            let colliding = group_views(duplicates@);
            assert forall|m: int|
                0 <= m < duplicates@.len() && (#[trigger] duplicates@[m])@.members.len()
                    >= 2 implies carries_extension(duplicates@[m]@.candidate) by {
                assert(colliding[m] == duplicates@[m]@);
                let k = choose|k: int| 0 <= k < all.len() && all[k] == colliding[m];
                assert(carries_extension(all[k].candidate));
            }
        }
        let mut actions = self.handle_uniques(&uniques);
        let mut collisions = self.handle_duplicates(&duplicates);
        let ghost first = action_views(actions@);
        let ghost second = action_views(collisions@);
        actions.append(&mut collisions);
        assert(action_views(actions@) =~= first + second);
        assert(self@.actions(final_assignments(group_views(groups@))) =~= first + second);
        Plan { actions, failures }
    }
}

/// Whether two outcomes of resolving metadata agree: both failed for the
/// same reason, or both gave metadata that agree to the second.
pub open spec fn outcomes_agree(
    first: Result<MetadataView, MetadataError>,
    second: Result<MetadataView, MetadataError>,
) -> bool {
    match (first, second) {
        (Ok(a), Ok(b)) => a.same_to_the_second(b),
        (Err(a), Err(b)) => a == b,
        _ => false,
    }
}

/// Whether two runs are given the same: the same files and destination
/// directory, and for each file metadata that agree.
pub open spec fn same_inputs(
    first: RunnerView,
    first_outputs: Seq<Option<Seq<char>>>,
    second: RunnerView,
    second_outputs: Seq<Option<Seq<char>>>,
) -> bool {
    &&& first.input_files == second.input_files
    &&& first.destination == second.destination
    &&& forall|i: int|
        0 <= i < first.input_files.len() ==> outcomes_agree(
            #[trigger] first.outcome(first_outputs, i),
            second.outcome(second_outputs, i),
        )
}

/// Runs that are given the same resolve the same files to the same
/// candidates, and fail on the same files for the same reasons.
proof fn lemma_same_candidates(
    first: RunnerView,
    first_outputs: Seq<Option<Seq<char>>>,
    second: RunnerView,
    second_outputs: Seq<Option<Seq<char>>>,
    n: int,
)
    requires
        same_inputs(first, first_outputs, second, second_outputs),
        0 <= n <= first.input_files.len(),
    ensures
        first.candidates_upto(first_outputs, n) == second.candidates_upto(second_outputs, n),
        first.failures_upto(first_outputs, n) == second.failures_upto(second_outputs, n),
    decreases n,
{
    if n > 0 {
        lemma_same_candidates(first, first_outputs, second, second_outputs, n - 1);
        assert(outcomes_agree(
            first.outcome(first_outputs, n - 1),
            second.outcome(second_outputs, n - 1),
        ));
        match (first.outcome(first_outputs, n - 1), second.outcome(second_outputs, n - 1)) {
            (Ok(a), Ok(b)) => {
                lemma_naming_idempotent(a, b, first.destination);
            },
            _ => {},
        }
    }
}

/// Planning is deterministic. Runs that are given the same files, the same
/// destination directory and, for each file, metadata that agree in artist,
/// capture time to the second and extension, assign the same final
/// destination to every file; with the same flags they give the same plan.
pub proof fn lemma_plan_deterministic(
    first: RunnerView,
    first_outputs: Seq<Option<Seq<char>>>,
    second: RunnerView,
    second_outputs: Seq<Option<Seq<char>>>,
)
    requires
        same_inputs(first, first_outputs, second, second_outputs),
    ensures
        first.assignments(first_outputs) == second.assignments(second_outputs),
        first.plan(first_outputs).failures == second.plan(second_outputs).failures,
        first.dry_run == second.dry_run && first.overwrite == second.overwrite && first.do_move
            == second.do_move ==> first.plan(first_outputs) == second.plan(second_outputs),
{
    lemma_same_candidates(
        first,
        first_outputs,
        second,
        second_outputs,
        first.input_files.len() as int,
    );
    if first.dry_run == second.dry_run && first.overwrite == second.overwrite && first.do_move
        == second.do_move {
        assert(first.plan(first_outputs).actions =~= second.plan(second_outputs).actions);
    }
}

/// A dry run changes nothing: its plan holds previews only, and it is the
/// same plan whatever the flags for moving and overwriting are.
pub proof fn lemma_dry_run_is_pure(
    runner: RunnerView,
    outputs: Seq<Option<Seq<char>>>,
    do_move: bool,
    overwrite: bool,
)
    requires
        runner.dry_run,
    ensures
        forall|i: int|
            0 <= i < runner.plan(outputs).actions.len() ==> (#[trigger] runner.plan(
                outputs,
            ).actions[i]) is Preview,
        (RunnerView { do_move, overwrite, ..runner }).plan(outputs) == runner.plan(outputs),
{
    let other = RunnerView { do_move, overwrite, ..runner };
    assert forall|i: int| 0 <= i < runner.input_files.len() implies outcomes_agree(
        #[trigger] runner.outcome(outputs, i),
        other.outcome(outputs, i),
    ) by {
        assert(runner.outcome(outputs, i) == other.outcome(outputs, i));
    }
    lemma_plan_deterministic(runner, outputs, other, outputs);
    assert(other.plan(outputs).actions =~= runner.plan(outputs).actions);
}

/// Every candidate of a valid run carries an extension and is not numbered
/// as a suffixed path is.
proof fn lemma_candidates_shaped(runner: RunnerView, outputs: Seq<Option<Seq<char>>>, n: int)
    requires
        runner.valid(),
        0 <= n <= runner.input_files.len(),
    ensures
        forall|j: int|
            0 <= j < runner.candidates_upto(outputs, n).len() ==> carries_extension(
                (#[trigger] runner.candidates_upto(outputs, n)[j]).destination,
            ) && !numbered(runner.candidates_upto(outputs, n)[j].destination),
    decreases n,
{
    if n > 0 {
        lemma_candidates_shaped(runner, outputs, n - 1);
        let before = runner.candidates_upto(outputs, n - 1);
        let after = runner.candidates_upto(outputs, n);
        match runner.outcome(outputs, n - 1) {
            Ok(metadata) => {
                lemma_extension_plain(runner.input_files[n - 1]);
                lemma_candidate_shape(metadata, runner.destination);
                assert forall|j: int| 0 <= j < after.len() implies carries_extension(
                    (#[trigger] after[j]).destination,
                ) && !numbered(after[j].destination) by {
                    if j < before.len() {
                        assert(after[j] == before[j]);
                    }
                }
            },
            Err(_) => {},
        }
    }
}

/// No two files of a batch are given the same final destination, whether
/// they collide or not: the operations of a plan can be performed in any
/// order, and none overwrites what another has written.
pub proof fn lemma_plan_is_collision_free(runner: RunnerView, outputs: Seq<Option<Seq<char>>>)
    requires
        runner.valid(),
    ensures
        destinations(runner.assignments(outputs)).no_duplicates(),
{
    let n = runner.input_files.len() as int;
    let candidates = runner.candidates_upto(outputs, n);
    let groups = runner.groups(outputs);
    let keys = keys_upto(candidates, candidates.len() as int);
    lemma_candidates_shaped(runner, outputs, n);
    lemma_grouping_partitions(candidates);
    lemma_keys(candidates, candidates.len() as int);
    assert forall|k: int| 0 <= k < groups.len() implies carries_extension(
        (#[trigger] groups[k]).candidate,
    ) && !numbered(groups[k].candidate) by {
        assert(groups[k].candidate == keys[k]);
        let j = choose|j: int| 0 <= j < candidates.len() && candidates[j].destination == keys[k];
        assert(carries_extension(candidates[j].destination));
    }
    lemma_final_assignments_distinct(groups);
}

/// The final assignments of the first `n` groups are as many as their
/// members.
proof fn lemma_assignment_count(groups: Seq<GroupView>, n: int)
    requires
        0 <= n <= groups.len(),
    ensures
        unique_assignments(groups, n).len() + duplicate_assignments(groups, n).len()
            == member_count(groups.take(n)),
    decreases n,
{
    if n > 0 {
        lemma_assignment_count(groups, n - 1);
        assert(groups.take(n).drop_last() =~= groups.take(n - 1));
        assert(groups.take(n).last() == groups[n - 1]);
    }
}

/// Every file is accounted for once: the first `n` files resolve or fail.
proof fn lemma_outcome_count(runner: RunnerView, outputs: Seq<Option<Seq<char>>>, n: int)
    requires
        0 <= n,
    ensures
        runner.candidates_upto(outputs, n).len() + runner.failures_upto(outputs, n).len() == n,
    decreases n,
{
    if n > 0 {
        lemma_outcome_count(runner, outputs, n - 1);
    }
}

/// The plan is total: it holds one action for every file whose metadata
/// resolve and one report for every other file, so that no discovered file
/// is dropped in silence.
pub proof fn lemma_plan_is_total(runner: RunnerView, outputs: Seq<Option<Seq<char>>>)
    ensures
        runner.plan(outputs).actions.len() == runner.candidates_upto(
            outputs,
            runner.input_files.len() as int,
        ).len(),
        runner.plan(outputs).actions.len() + runner.plan(outputs).failures.len()
            == runner.input_files.len(),
{
    let n = runner.input_files.len() as int;
    let candidates = runner.candidates_upto(outputs, n);
    let groups = runner.groups(outputs);
    lemma_outcome_count(runner, outputs, n);
    lemma_grouping_partitions(candidates);
    lemma_assignment_count(groups, groups.len() as int);
    assert(groups.take(groups.len() as int) =~= groups);
}

} // verus!
