//! Grouping of files by candidate destination, and the names that tell the
//! members of a group apart.
//!
//! The groups are held in a vector that stands for a map from candidates to
//! sets of files: no two groups share a candidate, and no group holds a file
//! twice (`well_formed`). Groups stand in the order in which their candidates
//! first appear among the files, and the members of a group in the order of
//! the files. This is the order in which suffixes are handed out.

use vstd::prelude::*;
use crate::fs::{carries_extension, extension_text, final_dot, insert_suffix, suffix_text, suffixed};
use crate::fs::{lemma_suffix_digits, lemma_suffix_format, lemma_suffixed_injective, lemma_suffixed_parts};
use crate::fs::{lemma_suffixed_injective_joint, lemma_suffixed_numbered, numbered};
use crate::text::{decimal_value, texts};

verus! {

/// A file and the destination assigned to it.
#[derive(Clone, Debug, PartialEq, Eq)]
pub struct Assignment {
    pub source: String,
    pub destination: String,
}

/// An assignment as plain values.
pub struct AssignmentView {
    pub source: Seq<char>,
    pub destination: Seq<char>,
}

impl View for Assignment {
    type V = AssignmentView;

    open spec fn view(&self) -> AssignmentView {
        AssignmentView { source: self.source@, destination: self.destination@ }
    }
}

/// The files that share one candidate destination.
#[derive(Clone, Debug, PartialEq, Eq)]
pub struct CollisionGroup {
    pub candidate: String,
    pub members: Vec<String>,
}

/// A collision group as plain values.
pub struct GroupView {
    pub candidate: Seq<char>,
    pub members: Seq<Seq<char>>,
}

impl View for CollisionGroup {
    type V = GroupView;

    open spec fn view(&self) -> GroupView {
        GroupView { candidate: self.candidate@, members: texts(self.members@) }
    }
}

/// The views of a sequence of assignments.
pub open spec fn assignment_views(assignments: Seq<Assignment>) -> Seq<AssignmentView> {
    assignments.map_values(|a: Assignment| a@)
}

/// The views of a sequence of groups.
pub open spec fn group_views(groups: Seq<CollisionGroup>) -> Seq<GroupView> {
    groups.map_values(|g: CollisionGroup| g@)
}

/// The sources among the first `n` pairs whose candidate is `key`, in order.
pub open spec fn members_upto(pairs: Seq<AssignmentView>, key: Seq<char>, n: int) -> Seq<
    Seq<char>,
>
    decreases n,
{
    if n <= 0 {
        Seq::empty()
    } else if pairs[n - 1].destination == key {
        members_upto(pairs, key, n - 1).push(pairs[n - 1].source)
    } else {
        members_upto(pairs, key, n - 1)
    }
}

/// The candidates of the first `n` pairs, each once, in the order in which
/// they first appear.
pub open spec fn keys_upto(pairs: Seq<AssignmentView>, n: int) -> Seq<Seq<char>>
    decreases n,
{
    if n <= 0 {
        Seq::empty()
    } else if keys_upto(pairs, n - 1).contains(pairs[n - 1].destination) {
        keys_upto(pairs, n - 1)
    } else {
        keys_upto(pairs, n - 1).push(pairs[n - 1].destination)
    }
}

/// The groups of the first `n` pairs: one for each candidate, with the
/// sources that have it.
pub open spec fn groups_upto(pairs: Seq<AssignmentView>, n: int) -> Seq<GroupView> {
    Seq::new(
        keys_upto(pairs, n).len(),
        |k: int|
            GroupView {
                candidate: keys_upto(pairs, n)[k],
                members: members_upto(pairs, keys_upto(pairs, n)[k], n),
            },
    )
}

/// The collision groups of `pairs`, each of which gives a source and its
/// candidate destination.
pub open spec fn grouped(pairs: Seq<AssignmentView>) -> Seq<GroupView> {
    groups_upto(pairs, pairs.len() as int)
}

/// The index of the first group whose candidate is `key`, from `start` on;
/// the number of groups where there is none.
pub open spec fn position_from(groups: Seq<GroupView>, key: Seq<char>, start: int) -> int
    decreases groups.len() - start,
{
    if start < 0 || start >= groups.len() {
        groups.len() as int
    } else if groups[start].candidate == key {
        start
    } else {
        position_from(groups, key, start + 1)
    }
}

/// The groups after `value` has joined the group of `key`: at the end of
/// that group where there is one, else as the only member of a new last
/// group.
pub open spec fn inserted(groups: Seq<GroupView>, key: Seq<char>, value: Seq<char>) -> Seq<
    GroupView,
> {
    let at = position_from(groups, key, 0);
    if at < groups.len() {
        groups.update(
            at,
            GroupView { candidate: key, members: groups[at].members.push(value) },
        )
    } else {
        groups.push(GroupView { candidate: key, members: seq![value] })
    }
}

/// The final destinations of the members of a group, in the order of the
/// members. The only member of a group keeps the candidate. In a larger
/// group the members are numbered from 1, and each gets the candidate with
/// the suffix of its number.
pub open spec fn resolution(group: GroupView) -> Seq<AssignmentView> {
    Seq::new(
        group.members.len(),
        |i: int|
            AssignmentView {
                source: group.members[i],
                destination: if group.members.len() == 1 {
                    group.candidate
                } else {
                    suffixed(group.candidate, (i + 1) as nat)
                },
            },
    )
}

/// The destinations of a sequence of assignments.
pub open spec fn destinations(assignments: Seq<AssignmentView>) -> Seq<Seq<char>> {
    assignments.map_values(|a: AssignmentView| a.destination)
}

/// The final assignments of those of the first `n` groups that have one
/// member, group by group.
pub open spec fn unique_assignments(groups: Seq<GroupView>, n: int) -> Seq<AssignmentView>
    decreases n,
{
    if n <= 0 {
        Seq::empty()
    } else if groups[n - 1].members.len() == 1 {
        unique_assignments(groups, n - 1) + resolution(groups[n - 1])
    } else {
        unique_assignments(groups, n - 1)
    }
}

/// The final assignments of those of the first `n` groups that have two
/// members or more, group by group.
pub open spec fn duplicate_assignments(groups: Seq<GroupView>, n: int) -> Seq<AssignmentView>
    decreases n,
{
    if n <= 0 {
        Seq::empty()
    } else if groups[n - 1].members.len() >= 2 {
        duplicate_assignments(groups, n - 1) + resolution(groups[n - 1])
    } else {
        duplicate_assignments(groups, n - 1)
    }
}

/// The final assignments of all the groups: first those of the files that
/// collide with no other, then those of the files that collide.
pub open spec fn final_assignments(groups: Seq<GroupView>) -> Seq<AssignmentView> {
    unique_assignments(groups, groups.len() as int) + duplicate_assignments(
        groups,
        groups.len() as int,
    )
}

/// The number of members of all the groups together.
pub open spec fn member_count(groups: Seq<GroupView>) -> nat
    decreases groups.len(),
{
    if groups.len() == 0 {
        0
    } else {
        member_count(groups.drop_last()) + groups.last().members.len()
    }
}

/// The final assignments of the first `n` groups, group by group.
pub open spec fn resolutions(groups: Seq<GroupView>, n: int) -> Seq<AssignmentView>
    decreases n,
{
    if n <= 0 {
        Seq::empty()
    } else {
        resolutions(groups, n - 1) + resolution(groups[n - 1])
    }
}

/// Those of the first `n` groups that do not have exactly one member, in
/// order.
pub open spec fn colliding_upto(groups: Seq<GroupView>, n: int) -> Seq<GroupView>
    decreases n,
{
    if n <= 0 {
        Seq::empty()
    } else if groups[n - 1].members.len() != 1 {
        colliding_upto(groups, n - 1).push(groups[n - 1])
    } else {
        colliding_upto(groups, n - 1)
    }
}

/// The sources of a sequence of assignments.
pub open spec fn sources(assignments: Seq<AssignmentView>) -> Seq<Seq<char>> {
    assignments.map_values(|a: AssignmentView| a.source)
}

/// The members of the group of `key`; none where no group has that
/// candidate.
pub open spec fn members_of(groups: Seq<GroupView>, key: Seq<char>) -> Seq<Seq<char>> {
    if position_from(groups, key, 0) < groups.len() {
        groups[position_from(groups, key, 0)].members
    } else {
        Seq::empty()
    }
}

/// Whether the groups are a map from candidates to sets of files: no two
/// groups share a candidate, no group is empty, and no file occurs twice in
/// a group.
pub open spec fn well_formed(groups: Seq<GroupView>) -> bool {
    &&& forall|k: int, l: int|
        0 <= k < l < groups.len() ==> (#[trigger] groups[k]).candidate != (
        #[trigger] groups[l]).candidate
    &&& forall|k: int|
        0 <= k < groups.len() ==> (#[trigger] groups[k]).members.len() >= 1
            && groups[k].members.no_duplicates()
}

/// Whether `destination` is the candidate of one of the first `n` groups
/// that has one member.
pub open spec fn kept_by(groups: Seq<GroupView>, n: int, destination: Seq<char>) -> bool {
    exists|k: int|
        0 <= k < n && (#[trigger] groups[k]).members.len() == 1 && groups[k].candidate
            == destination
}

/// Whether `destination` is the candidate of one of the first `n` groups
/// with a suffix put on.
pub open spec fn suffixed_by(groups: Seq<GroupView>, n: int, destination: Seq<char>) -> bool {
    exists|k: int, number: nat|
        0 <= k < n && groups[k].members.len() >= 2 && destination == #[trigger] suffixed(
            groups[k].candidate,
            number,
        )
}

/// Whether collision groups are such that their members can be told apart:
/// no two groups share a candidate, the candidate of a group of two or more
/// carries an extension, and the candidate of a group of one is not numbered
/// as a suffixed path is.
pub open spec fn separable(groups: Seq<GroupView>) -> bool {
    &&& forall|k: int, l: int|
        0 <= k < l < groups.len() ==> (#[trigger] groups[k]).candidate != (
        #[trigger] groups[l]).candidate
    &&& forall|k: int|
        0 <= k < groups.len() && (#[trigger] groups[k]).members.len() >= 2 ==> carries_extension(
            groups[k].candidate,
        )
    &&& forall|k: int|
        0 <= k < groups.len() && (#[trigger] groups[k]).members.len() == 1 ==> !numbered(
            groups[k].candidate,
        )
}

/// Adds the file `value` to the group of the candidate `key`, which is
/// opened where no group has that candidate yet. The file is not yet a
/// member of that group: a group holds a file once.
pub fn insert_duplicate(groups: &mut Vec<CollisionGroup>, key: String, value: String)
    requires
        well_formed(group_views(old(groups)@)),
        !members_of(group_views(old(groups)@), key@).contains(value@),
    ensures
        group_views(final(groups)@) == inserted(group_views(old(groups)@), key@, value@),
        well_formed(group_views(final(groups)@)),
{
    let ghost before = group_views(groups@);
    proof {
        lemma_inserted_well_formed(before, key@, value@);
    }
    let mut at: usize = 0;
    let mut found = false;
    while at < groups.len() && !found
        invariant
            at <= groups.len(),
            groups@ == old(groups)@,
            before == group_views(groups@),
            position_from(before, key@, 0) == position_from(before, key@, at as int),
            found ==> at < groups.len() && before[at as int].candidate == key@,
        decreases groups.len() - at + (if found { 0int } else { 1int }),
    {
        assert(before[at as int] == groups@[at as int]@);
        if groups[at].candidate == key {
            found = true;
        } else {
            at += 1;
        }
    }
    if found {
        assert(before[at as int] == groups@[at as int]@);
        let ghost members = groups@[at as int].members@;
        groups[at].members.push(value);
        proof {
            let after = group_views(groups@);
            let expected = inserted(before, key@, value@);
            assert(groups@.len() == old(groups)@.len());
            assert(groups@[at as int].members@ == members.push(value));
            assert(groups@[at as int].candidate@ == key@);
            assert(texts(members.push(value)) =~= texts(members).push(value@));
            assert(after.len() == expected.len());
            assert forall|k: int| 0 <= k < after.len() implies after[k] == expected[k] by {
                if k != at {
                    assert(groups@[k] == old(groups)@[k]);
                    assert(before[k] == old(groups)@[k]@);
                }
            }
            assert(after =~= expected);
        }
    } else {
        let mut members: Vec<String> = Vec::new();
        members.push(value);
        assert(texts(members@) =~= seq![value@]);
        groups.push(CollisionGroup { candidate: key, members });
        assert(group_views(groups@) =~= inserted(before, key@, value@));
    }
}

/// Groups the files by candidate destination. Each pair gives a file and
/// its candidate, and no file is given twice. All pairs are taken in before
/// anything is resolved.
pub fn group(pairs: &Vec<Assignment>) -> (groups: Vec<CollisionGroup>)
    requires
        sources(assignment_views(pairs@)).no_duplicates(),
    ensures
        group_views(groups@) == grouped(assignment_views(pairs@)),
        well_formed(group_views(groups@)),
{
    let ghost views = assignment_views(pairs@);
    let mut groups: Vec<CollisionGroup> = Vec::new();
    assert(group_views(groups@) =~= groups_upto(views, 0));
    let mut i: usize = 0;
    while i < pairs.len()
        invariant
            i <= pairs.len(),
            views == assignment_views(pairs@),
            sources(views).no_duplicates(),
            group_views(groups@) == groups_upto(views, i as int),
            well_formed(group_views(groups@)),
        decreases pairs.len() - i,
    {
        proof {
            lemma_group_step(views, i as int);
            lemma_next_is_new(views, i as int);
            assert(views[i as int] == pairs@[i as int]@);
        }
        insert_duplicate(&mut groups, pairs[i].destination.clone(), pairs[i].source.clone());
        i += 1;
    }
    groups
}

/// Decides the final destination of every member of a group.
pub fn resolve(group: &CollisionGroup) -> (assignments: Vec<Assignment>)
    requires
        group@.members.len() >= 2 ==> carries_extension(group@.candidate),
    ensures
        assignment_views(assignments@) == resolution(group@),
{
    let size: usize = group.members.len();
    let mut assignments: Vec<Assignment> = Vec::new();
    let mut i: usize = 0;
    while i < size
        invariant
            i <= size,
            size == group.members@.len(),
            size >= 2 ==> carries_extension(group@.candidate),
            assignment_views(assignments@) == resolution(group@).take(i as int),
        decreases size - i,
    {
        let destination = if size == 1 {
            group.candidate.clone()
        } else {
            insert_suffix(group.candidate.as_str(), (i + 1) as u64)
        };
        let ghost before = assignment_views(assignments@);
        assignments.push(Assignment { source: group.members[i].clone(), destination });
        proof {
            assert(group@.members[i as int] == group.members@[i as int]@);
            assert(assignment_views(assignments@) =~= before.push(resolution(group@)[i as int]));
            assert(resolution(group@).take(i + 1) =~= resolution(group@).take(i as int).push(
                resolution(group@)[i as int],
            ));
        }
        i += 1;
    }
    assert(resolution(group@).take(size as int) =~= resolution(group@));
    assignments
}

/// A copy of a group.
fn copy_group(group: &CollisionGroup) -> (copy: CollisionGroup)
    ensures
        copy@ == group@,
{
    let mut members: Vec<String> = Vec::new();
    let mut i: usize = 0;
    while i < group.members.len()
        invariant
            i <= group.members@.len(),
            texts(members@) == texts(group.members@).take(i as int),
        decreases group.members@.len() - i,
    {
        let ghost before = texts(members@);
        members.push(group.members[i].clone());
        proof {
            assert(texts(members@) =~= before.push(group.members@[i as int]@));
            assert(texts(group.members@).take(i + 1) =~= texts(group.members@).take(
                i as int,
            ).push(group.members@[i as int]@));
        }
        i += 1;
    }
    assert(texts(group.members@).take(group.members@.len() as int) =~= texts(group.members@));
    CollisionGroup { candidate: group.candidate.clone(), members }
}

/// Parts the groups in two: the files that collide with no other, each with
/// its candidate as its final destination, and the groups that are left,
/// which do not have exactly one member. Every group goes to one side.
pub fn partition(groups: &Vec<CollisionGroup>) -> (parts: (Vec<Assignment>, Vec<CollisionGroup>))
    ensures
        assignment_views(parts.0@) == unique_assignments(
            group_views(groups@),
            groups@.len() as int,
        ),
        group_views(parts.1@) == colliding_upto(group_views(groups@), groups@.len() as int),
{
    let ghost views = group_views(groups@);
    let mut uniques: Vec<Assignment> = Vec::new();
    let mut colliding: Vec<CollisionGroup> = Vec::new();
    let mut k: usize = 0;
    while k < groups.len()
        invariant
            k <= groups.len(),
            views == group_views(groups@),
            assignment_views(uniques@) == unique_assignments(views, k as int),
            group_views(colliding@) == colliding_upto(views, k as int),
        decreases groups.len() - k,
    {
        assert(views[k as int] == groups@[k as int]@);
        if groups[k].members.len() == 1 {
            let ghost before = assignment_views(uniques@);
            uniques.push(
                Assignment {
                    source: groups[k].members[0].clone(),
                    destination: groups[k].candidate.clone(),
                },
            );
            proof {
                let only = resolution(views[k as int]);
                assert(views[k as int].members[0] == groups@[k as int].members@[0]@);
                assert(only =~= seq![
                    AssignmentView {
                        source: views[k as int].members[0],
                        destination: views[k as int].candidate,
                    },
                ]);
                assert(assignment_views(uniques@) =~= before + only);
            }
        } else {
            let ghost before = group_views(colliding@);
            colliding.push(copy_group(&groups[k]));
            assert(group_views(colliding@) =~= before.push(views[k as int]));
        }
        k += 1;
    }
    (uniques, colliding)
}

/// Grouping loses no file and invents none. No two groups share a
/// candidate, and no group is empty. Every pair has its source in the group
/// of its candidate, every member of a group is the source of a pair with
/// the candidate of the group, and the groups hold as many members as there
/// are pairs: each file is in exactly one group.
pub proof fn lemma_grouping_partitions(pairs: Seq<AssignmentView>)
    ensures
        forall|k: int, l: int|
            0 <= k < l < grouped(pairs).len() ==> (#[trigger] grouped(pairs)[k]).candidate != (
            #[trigger] grouped(pairs)[l]).candidate,
        forall|k: int|
            0 <= k < grouped(pairs).len() ==> (#[trigger] grouped(pairs)[k]).members.len() >= 1,
        forall|i: int|
            0 <= i < pairs.len() ==> exists|k: int|
                0 <= k < grouped(pairs).len() && (#[trigger] grouped(pairs)[k]).candidate
                    == pairs[i].destination && grouped(pairs)[k].members.contains(
                    (#[trigger] pairs[i]).source,
                ),
        forall|k: int, m: int|
            0 <= k < grouped(pairs).len() && 0 <= m < grouped(pairs)[k].members.len()
                ==> exists|i: int|
                0 <= i < pairs.len() && (#[trigger] pairs[i]).source == (#[trigger] grouped(
                    pairs,
                )[k].members[m]) && pairs[i].destination == grouped(pairs)[k].candidate,
        member_count(grouped(pairs)) == pairs.len(),
{
    let n = pairs.len() as int;
    let groups = grouped(pairs);
    let keys = keys_upto(pairs, n);
    lemma_keys(pairs, n);
    assert forall|k: int, l: int| 0 <= k < l < groups.len() implies (#[trigger] groups[k]).candidate
        != (#[trigger] groups[l]).candidate by {
        assert(keys[k] != keys[l]);
    }
    assert forall|k: int| 0 <= k < groups.len() implies (#[trigger] groups[k]).members.len()
        >= 1 by {
        let j = choose|j: int| 0 <= j < n && pairs[j].destination == keys[k];
        lemma_members(pairs, keys[k], n);
        assert(pairs[j].destination == keys[k]);
    }
    assert forall|i: int| 0 <= i < pairs.len() implies exists|k: int|
        0 <= k < groups.len() && (#[trigger] groups[k]).candidate == pairs[i].destination
            && groups[k].members.contains((#[trigger] pairs[i]).source) by {
        assert(keys.contains(pairs[i].destination));
        let k = choose|k: int| 0 <= k < keys.len() && keys[k] == pairs[i].destination;
        lemma_member_present(pairs, i, n);
        assert(groups[k].candidate == pairs[i].destination);
    }
    assert forall|k: int, m: int|
        0 <= k < groups.len() && 0 <= m < groups[k].members.len() implies exists|i: int|
        0 <= i < pairs.len() && (#[trigger] pairs[i]).source == (#[trigger] groups[k].members[m])
            && pairs[i].destination == groups[k].candidate by {
        lemma_member_origin(pairs, keys[k], n, m);
    }
    lemma_count(pairs, n);
}

/// No two members of a group are given the same final destination: there
/// are as many distinct destinations as members.
pub proof fn lemma_resolution_distinct(group: GroupView)
    requires
        group.members.len() >= 2 ==> carries_extension(group.candidate),
    ensures
        resolution(group).len() == group.members.len(),
        forall|i: int, j: int|
            0 <= i < j < group.members.len() ==> (#[trigger] resolution(group)[i]).destination != (
            #[trigger] resolution(group)[j]).destination,
        destinations(resolution(group)).no_duplicates(),
        destinations(resolution(group)).to_set().len() == group.members.len(),
{
    let resolved = resolution(group);
    assert forall|i: int, j: int| 0 <= i < j < group.members.len() implies (
    #[trigger] resolved[i]).destination != (#[trigger] resolved[j]).destination by {
        if resolved[i].destination == resolved[j].destination {
            lemma_suffixed_injective(group.candidate, (i + 1) as nat, (j + 1) as nat);
        }
    }
    let all = destinations(resolved);
    assert forall|i: int, j: int| 0 <= i < all.len() && 0 <= j < all.len() && i != j implies all[i]
        != all[j] by {
        if i < j {
            assert(resolved[i].destination != resolved[j].destination);
        } else {
            assert(resolved[j].destination != resolved[i].destination);
        }
    }
    all.unique_seq_to_set();
}

/// The only member of a group keeps the candidate destination: no suffix is
/// put on a file that collides with no other.
pub proof fn lemma_singleton_identity(group: GroupView)
    requires
        group.members.len() == 1,
    ensures
        resolution(group) == seq![
            AssignmentView { source: group.members[0], destination: group.candidate },
        ],
{
    assert(resolution(group) =~= seq![
        AssignmentView { source: group.members[0], destination: group.candidate },
    ]);
}

/// In a group of two or more, the member at index `i` gets the suffix of the
/// number `i + 1`, in front of the extension: the numbers start at 1 and
/// rise by 1 from member to member. Up to 999 the suffix is a dash and three
/// digits that read as the number, `-001` for the first member.
pub proof fn lemma_resolution_numbering(group: GroupView, i: int)
    requires
        group.members.len() >= 2,
        carries_extension(group.candidate),
        0 <= i < group.members.len(),
    ensures
        resolution(group)[i].source == group.members[i],
        resolution(group)[i].destination == group.candidate.subrange(
            0,
            final_dot(group.candidate),
        ) + suffix_text((i + 1) as nat) + seq!['.'] + extension_text(group.candidate),
        suffix_text((i + 1) as nat)[0] == '-',
        decimal_value(
            suffix_text((i + 1) as nat).subrange(1, suffix_text((i + 1) as nat).len() as int),
        ) == i + 1,
        i + 1 <= 999 ==> suffix_text((i + 1) as nat).len() == 4,
        i == 0 ==> suffix_text((i + 1) as nat) == seq!['-', '0', '0', '1'],
{
    lemma_suffixed_parts(group.candidate, (i + 1) as nat);
    lemma_suffix_digits((i + 1) as nat);
    if i + 1 <= 999 {
        lemma_suffix_format((i + 1) as nat);
    }
}

/// No two files are given the same final destination, in one group or in
/// two, where the groups are separable.
pub proof fn lemma_final_assignments_distinct(groups: Seq<GroupView>)
    requires
        separable(groups),
    ensures
        destinations(final_assignments(groups)).no_duplicates(),
{
    let n = groups.len() as int;
    lemma_uniques_distinct(groups, n);
    lemma_duplicates_distinct(groups, n);
    let uniques = unique_assignments(groups, n);
    let duplicates = duplicate_assignments(groups, n);
    let all = destinations(final_assignments(groups));
    assert forall|i: int, j: int|
        0 <= i < all.len() && 0 <= j < all.len() && i != j implies all[i] != all[j] by {
        if i < uniques.len() && j < uniques.len() {
            assert(all[i] == destinations(uniques)[i] && all[j] == destinations(uniques)[j]);
        } else if i >= uniques.len() && j >= uniques.len() {
            assert(all[i] == destinations(duplicates)[i - uniques.len()]);
            assert(all[j] == destinations(duplicates)[j - uniques.len()]);
        } else {
            let u = if i < uniques.len() {
                i
            } else {
                j
            };
            let d = if i < uniques.len() {
                j - uniques.len()
            } else {
                i - uniques.len()
            };
            assert(all[u] == uniques[u].destination);
            assert(all[uniques.len() + d] == duplicates[d].destination);
            assert(kept_by(groups, n, uniques[u].destination));
            assert(suffixed_by(groups, n, duplicates[d].destination));
            let k = choose|k: int|
                0 <= k < n && (#[trigger] groups[k]).members.len() == 1 && groups[k].candidate
                    == uniques[u].destination;
            let (l, number) = choose|l: int, number: nat|
                0 <= l < n && groups[l].members.len() >= 2 && duplicates[d].destination
                    == #[trigger] suffixed(groups[l].candidate, number);
            lemma_suffixed_numbered(groups[l].candidate, number);
        }
    }
}

/// The groups of files of which none is given twice are well formed: they
/// are a map from candidates to sets of files.
pub proof fn lemma_grouped_well_formed(pairs: Seq<AssignmentView>)
    requires
        sources(pairs).no_duplicates(),
    ensures
        well_formed(grouped(pairs)),
{
    lemma_groups_well_formed(pairs, pairs.len() as int);
}

/// Adding a file to the group of a candidate keeps well-formed groups well
/// formed, provided that the file is not yet in that group.
pub proof fn lemma_inserted_well_formed(groups: Seq<GroupView>, key: Seq<char>, value: Seq<char>)
    requires
        well_formed(groups),
        !members_of(groups, key).contains(value),
    ensures
        well_formed(inserted(groups, key, value)),
        inserted(groups, key, value).len() == groups.len() + (if position_from(groups, key, 0)
            < groups.len() {
            0int
        } else {
            1int
        }),
        members_of(inserted(groups, key, value), key) == members_of(groups, key).push(value),
{
    lemma_position_from(groups, key, 0);
    let at = position_from(groups, key, 0);
    let after = inserted(groups, key, value);
    if at < groups.len() {
        let members = groups[at].members;
        assert forall|i: int, j: int|
            0 <= i < members.push(value).len() && 0 <= j < members.push(value).len() && i
                != j implies members.push(value)[i] != members.push(value)[j] by {
            if i < members.len() && j < members.len() {
            } else if i < members.len() {
                assert(members.contains(members[i]));
            } else {
                assert(members.contains(members[j]));
            }
        }
        assert forall|k: int| 0 <= k < after.len() implies (#[trigger] after[k]).members.len()
            >= 1 && after[k].members.no_duplicates() by {
            if k != at {
                assert(after[k] == groups[k]);
            }
        }
        assert forall|k: int, l: int| 0 <= k < l < after.len() implies (
        #[trigger] after[k]).candidate != (#[trigger] after[l]).candidate by {
            assert(after[k].candidate == groups[k].candidate);
            assert(after[l].candidate == groups[l].candidate);
        }
        lemma_position_is(after, key, at);
    } else {
        assert forall|k: int| 0 <= k < after.len() implies (#[trigger] after[k]).members.len()
            >= 1 && after[k].members.no_duplicates() by {
            if k < groups.len() {
                assert(after[k] == groups[k]);
            }
        }
        assert forall|k: int, l: int| 0 <= k < l < after.len() implies (
        #[trigger] after[k]).candidate != (#[trigger] after[l]).candidate by {
            assert(after[k] == groups[k]);
            if l < groups.len() {
                assert(after[l] == groups[l]);
            }
        }
        assert forall|j: int| 0 <= j < groups.len() implies (#[trigger] after[j]).candidate
            != key by {
            assert(after[j] == groups[j]);
        }
        lemma_position_is(after, key, groups.len() as int);
        assert(members_of(after, key) =~= members_of(groups, key).push(value));
    }
}

/// Adding a file to the group of one candidate leaves the group of every
/// other candidate as it was.
pub proof fn lemma_inserted_leaves_others(
    groups: Seq<GroupView>,
    key: Seq<char>,
    value: Seq<char>,
    other: Seq<char>,
)
    requires
        other != key,
    ensures
        members_of(inserted(groups, key, value), other) == members_of(groups, other),
{
    lemma_position_from(groups, key, 0);
    lemma_position_from(groups, other, 0);
    let at = position_from(groups, other, 0);
    let after = inserted(groups, key, value);
    assert forall|j: int| 0 <= j < at implies (#[trigger] after[j]).candidate != other by {
        assert(after[j].candidate == groups[j].candidate);
    }
    if at < groups.len() {
        assert(after[at] == groups[at]);
        lemma_position_is(after, other, at);
    } else {
        assert forall|j: int| 0 <= j < after.len() implies (#[trigger] after[j]).candidate
            != other by {
            if j < groups.len() {
                assert(after[j].candidate == groups[j].candidate);
            }
        }
        lemma_position_is(after, other, after.len() as int);
    }
}

/// The final assignments of groups are as many as their members: every
/// member of every group is assigned one destination.
pub proof fn lemma_resolutions_count(groups: Seq<GroupView>, n: int)
    requires
        0 <= n <= groups.len(),
    ensures
        resolutions(groups, n).len() == member_count(groups.take(n)),
    decreases n,
{
    if n > 0 {
        lemma_resolutions_count(groups, n - 1);
        assert(groups.take(n).drop_last() =~= groups.take(n - 1));
        assert(groups.take(n).last() == groups[n - 1]);
    }
}

/// The final assignments of the groups that do not have exactly one member
/// are those of the groups of two or more: a group without a member has
/// none.
pub proof fn lemma_colliding_resolutions(groups: Seq<GroupView>, n: int)
    requires
        0 <= n <= groups.len(),
    ensures
        resolutions(colliding_upto(groups, n), colliding_upto(groups, n).len() as int)
            == duplicate_assignments(groups, n),
        forall|m: int|
            0 <= m < colliding_upto(groups, n).len() ==> exists|k: int|
                0 <= k < n && groups[k] == #[trigger] colliding_upto(groups, n)[m],
    decreases n,
{
    if n > 0 {
        lemma_colliding_resolutions(groups, n - 1);
        let before = colliding_upto(groups, n - 1);
        let after = colliding_upto(groups, n);
        let last = groups[n - 1];
        assert forall|m: int| 0 <= m < before.len() implies exists|k: int|
            0 <= k < n && groups[k] == #[trigger] before[m] by {
            let k = choose|k: int| 0 <= k < n - 1 && groups[k] == before[m];
            assert(0 <= k < n && groups[k] == before[m]);
        }
        if last.members.len() != 1 {
            lemma_resolutions_prefix(before, after, before.len() as int);
            assert(after[before.len() as int] == last);
            assert(resolution(last).len() == last.members.len());
            if last.members.len() == 0 {
                assert(resolutions(after, after.len() as int) =~= resolutions(
                    before,
                    before.len() as int,
                ));
            }
            assert forall|m: int| 0 <= m < after.len() implies exists|k: int|
                0 <= k < n && groups[k] == #[trigger] after[m] by {
                if m < before.len() {
                    assert(after[m] == before[m]);
                    let k = choose|k: int| 0 <= k < n && groups[k] == before[m];
                    assert(groups[k] == after[m]);
                } else {
                    assert(groups[n - 1] == after[m]);
                }
            }
        }
    }
}

/// The final assignments of the first `n` groups depend on those groups
/// alone.
proof fn lemma_resolutions_prefix(a: Seq<GroupView>, b: Seq<GroupView>, n: int)
    requires
        0 <= n <= a.len(),
        n <= b.len(),
        forall|k: int| 0 <= k < n ==> a[k] == b[k],
    ensures
        resolutions(a, n) == resolutions(b, n),
    decreases n,
{
    if n > 0 {
        lemma_resolutions_prefix(a, b, n - 1);
    }
}

/// The first index from `start` on that holds the candidate `key` is the
/// position of `key`.
proof fn lemma_position_is(groups: Seq<GroupView>, key: Seq<char>, at: int)
    requires
        0 <= at <= groups.len(),
        at < groups.len() ==> groups[at].candidate == key,
        forall|j: int| 0 <= j < at ==> (#[trigger] groups[j]).candidate != key,
    ensures
        position_from(groups, key, 0) == at,
{
    lemma_position_from(groups, key, 0);
}

/// The members of a candidate among files of which none is given twice hold
/// no file twice.
proof fn lemma_members_distinct(pairs: Seq<AssignmentView>, key: Seq<char>, n: int)
    requires
        sources(pairs).no_duplicates(),
        0 <= n <= pairs.len(),
    ensures
        members_upto(pairs, key, n).no_duplicates(),
        forall|j: int|
            n <= j < pairs.len() ==> !members_upto(pairs, key, n).contains(
                (#[trigger] pairs[j]).source,
            ),
    decreases n,
{
    let members = members_upto(pairs, key, n);
    assert forall|j: int| n <= j < pairs.len() implies !members.contains(
        (#[trigger] pairs[j]).source,
    ) by {
        if members.contains(pairs[j].source) {
            let m = choose|m: int| 0 <= m < members.len() && members[m] == pairs[j].source;
            lemma_member_origin(pairs, key, n, m);
            let i = choose|i: int|
                0 <= i < n && (#[trigger] pairs[i]).source == members[m] && pairs[i].destination
                    == key;
            assert(sources(pairs)[i] == sources(pairs)[j]);
        }
    }
    if n > 0 {
        lemma_members_distinct(pairs, key, n - 1);
        let before = members_upto(pairs, key, n - 1);
        if pairs[n - 1].destination == key {
            assert(!before.contains(pairs[n - 1].source));
            assert forall|i: int, j: int|
                0 <= i < members.len() && 0 <= j < members.len() && i != j implies members[i]
                != members[j] by {
                if i < before.len() && j < before.len() {
                } else if i < before.len() {
                    assert(before.contains(before[i]));
                } else {
                    assert(before.contains(before[j]));
                }
            }
        }
    }
}

/// The groups of the first `n` files, of which none is given twice, are
/// well formed.
proof fn lemma_groups_well_formed(pairs: Seq<AssignmentView>, n: int)
    requires
        sources(pairs).no_duplicates(),
        0 <= n <= pairs.len(),
    ensures
        well_formed(groups_upto(pairs, n)),
{
    let groups = groups_upto(pairs, n);
    let keys = keys_upto(pairs, n);
    lemma_keys(pairs, n);
    assert forall|k: int, l: int| 0 <= k < l < groups.len() implies (#[trigger] groups[k]).candidate
        != (#[trigger] groups[l]).candidate by {
        assert(keys[k] != keys[l]);
    }
    assert forall|k: int| 0 <= k < groups.len() implies (#[trigger] groups[k]).members.len() >= 1
        && groups[k].members.no_duplicates() by {
        let j = choose|j: int| 0 <= j < n && pairs[j].destination == keys[k];
        lemma_members(pairs, keys[k], n);
        assert(pairs[j].destination == keys[k]);
        lemma_members_distinct(pairs, keys[k], n);
    }
}

/// The next file is not yet in the group of its candidate, where no file is
/// given twice.
proof fn lemma_next_is_new(pairs: Seq<AssignmentView>, n: int)
    requires
        sources(pairs).no_duplicates(),
        0 <= n < pairs.len(),
    ensures
        !members_of(groups_upto(pairs, n), pairs[n].destination).contains(pairs[n].source),
{
    let groups = groups_upto(pairs, n);
    let key = pairs[n].destination;
    lemma_position_from(groups, key, 0);
    let at = position_from(groups, key, 0);
    if at < groups.len() {
        lemma_members_distinct(pairs, key, n);
        assert(groups[at].members == members_upto(pairs, key, n));
    }
}

/// What `position_from` finds: the first group from `start` on that has the
/// candidate `key`.
pub proof fn lemma_position_from(groups: Seq<GroupView>, key: Seq<char>, start: int)
    requires
        0 <= start <= groups.len(),
    ensures
        start <= position_from(groups, key, start) <= groups.len(),
        position_from(groups, key, start) < groups.len() ==> groups[position_from(
            groups,
            key,
            start,
        )].candidate == key,
        forall|j: int|
            start <= j < position_from(groups, key, start) ==> (#[trigger] groups[j]).candidate
                != key,
    decreases groups.len() - start,
{
    if start < groups.len() && groups[start].candidate != key {
        lemma_position_from(groups, key, start + 1);
    }
}

/// The keys of the first `n` pairs are their candidates: each candidate is
/// a key, each key is the candidate of a pair, and no key occurs twice.
pub proof fn lemma_keys(pairs: Seq<AssignmentView>, n: int)
    requires
        0 <= n <= pairs.len(),
    ensures
        keys_upto(pairs, n).no_duplicates(),
        keys_upto(pairs, n).len() <= n,
        forall|j: int| 0 <= j < n ==> keys_upto(pairs, n).contains(#[trigger] pairs[j].destination),
        forall|k: int|
            0 <= k < keys_upto(pairs, n).len() ==> exists|j: int|
                0 <= j < n && pairs[j].destination == #[trigger] keys_upto(pairs, n)[k],
    decreases n,
{
    if n > 0 {
        lemma_keys(pairs, n - 1);
        let before = keys_upto(pairs, n - 1);
        let after = keys_upto(pairs, n);
        let key = pairs[n - 1].destination;
        if before.contains(key) {
            assert forall|k: int| 0 <= k < after.len() implies exists|j: int|
                0 <= j < n && pairs[j].destination == #[trigger] after[k] by {
                let j = choose|j: int| 0 <= j < n - 1 && pairs[j].destination == before[k];
                assert(0 <= j < n && pairs[j].destination == after[k]);
            }
        } else {
            assert(after[before.len() as int] == key);
            assert forall|j: int| 0 <= j < n implies after.contains(
                #[trigger] pairs[j].destination,
            ) by {
                if j < n - 1 {
                    let k = choose|k: int|
                        0 <= k < before.len() && before[k] == pairs[j].destination;
                    assert(after[k] == pairs[j].destination);
                }
            }
            assert forall|k: int| 0 <= k < after.len() implies exists|j: int|
                0 <= j < n && pairs[j].destination == #[trigger] after[k] by {
                if k < before.len() {
                    let j = choose|j: int| 0 <= j < n - 1 && pairs[j].destination == before[k];
                    assert(0 <= j < n && pairs[j].destination == after[k]);
                } else {
                    assert(0 <= n - 1 < n && pairs[n - 1].destination == after[k]);
                }
            }
        }
    }
}

/// A candidate has members among the first `n` pairs exactly where one of
/// them has it; the members are never more than the pairs.
pub proof fn lemma_members(pairs: Seq<AssignmentView>, key: Seq<char>, n: int)
    requires
        0 <= n <= pairs.len(),
    ensures
        members_upto(pairs, key, n).len() <= n,
        members_upto(pairs, key, n).len() > 0 <==> exists|j: int|
            0 <= j < n && (#[trigger] pairs[j]).destination == key,
    decreases n,
{
    if n > 0 {
        lemma_members(pairs, key, n - 1);
        if pairs[n - 1].destination == key {
            assert(0 <= n - 1 < n && pairs[n - 1].destination == key);
        } else if members_upto(pairs, key, n).len() > 0 {
            let j = choose|j: int| 0 <= j < n - 1 && (#[trigger] pairs[j]).destination == key;
            assert(0 <= j < n && pairs[j].destination == key);
        } else if exists|j: int| 0 <= j < n && (#[trigger] pairs[j]).destination == key {
            let j = choose|j: int| 0 <= j < n && (#[trigger] pairs[j]).destination == key;
            assert(0 <= j < n - 1 && pairs[j].destination == key);
        }
    }
}

/// Grouping one pair more is adding its source to the group of its
/// candidate.
pub proof fn lemma_group_step(pairs: Seq<AssignmentView>, n: int)
    requires
        0 <= n < pairs.len(),
    ensures
        groups_upto(pairs, n + 1) == inserted(
            groups_upto(pairs, n),
            pairs[n].destination,
            pairs[n].source,
        ),
{
    lemma_keys(pairs, n);
    let keys = keys_upto(pairs, n);
    let groups = groups_upto(pairs, n);
    let key = pairs[n].destination;
    let source = pairs[n].source;
    let at = position_from(groups, key, 0);
    lemma_position_from(groups, key, 0);
    let after = groups_upto(pairs, n + 1);
    let expected = inserted(groups, key, source);
    if at < groups.len() {
        assert(keys[at] == key);
        assert(keys.contains(key));
        assert(after.len() == expected.len());
        assert forall|k: int| 0 <= k < after.len() implies after[k] == expected[k] by {
            if k != at {
                assert(keys[k] != keys[at]);
            }
        }
    } else {
        if keys.contains(key) {
            let k = choose|k: int| 0 <= k < keys.len() && keys[k] == key;
            assert(groups[k].candidate == key);
        }
        lemma_members(pairs, key, n);
        if members_upto(pairs, key, n).len() > 0 {
            let j = choose|j: int| 0 <= j < n && (#[trigger] pairs[j]).destination == key;
            assert(keys.contains(pairs[j].destination));
        }
        assert(members_upto(pairs, key, n) =~= Seq::<Seq<char>>::empty());
        assert(members_upto(pairs, key, n + 1) =~= seq![source]);
        assert(after.len() == expected.len());
        assert forall|k: int| 0 <= k < after.len() implies after[k] == expected[k] by {
            if k < keys.len() {
                assert(keys[k] != key);
            }
        }
    }
    assert(after =~= expected);
}

/// The files that collide with no other keep distinct destinations: the
/// candidates of their groups.
proof fn lemma_uniques_distinct(groups: Seq<GroupView>, n: int)
    requires
        separable(groups),
        0 <= n <= groups.len(),
    ensures
        destinations(unique_assignments(groups, n)).no_duplicates(),
        forall|i: int|
            0 <= i < unique_assignments(groups, n).len() ==> kept_by(
                groups,
                n,
                (#[trigger] unique_assignments(groups, n)[i]).destination,
            ),
    decreases n,
{
    if n > 0 {
        lemma_uniques_distinct(groups, n - 1);
        let before = unique_assignments(groups, n - 1);
        let after = unique_assignments(groups, n);
        assert forall|i: int| 0 <= i < before.len() implies kept_by(
            groups,
            n,
            (#[trigger] before[i]).destination,
        ) by {
            assert(kept_by(groups, n - 1, before[i].destination));
            let k = choose|k: int|
                0 <= k < n - 1 && (#[trigger] groups[k]).members.len() == 1 && groups[k].candidate
                    == before[i].destination;
            assert(0 <= k < n && groups[k].members.len() == 1);
        }
        if groups[n - 1].members.len() == 1 {
            let only = resolution(groups[n - 1]);
            assert(only.len() == 1);
            assert(after =~= before + only);
            assert(only[0].destination == groups[n - 1].candidate);
            assert forall|i: int| 0 <= i < after.len() implies kept_by(
                groups,
                n,
                (#[trigger] after[i]).destination,
            ) by {
                if i < before.len() {
                    assert(after[i] == before[i]);
                } else {
                    assert(after[i] == only[0]);
                    assert(groups[n - 1].members.len() == 1);
                }
            }
            let all = destinations(after);
            let earlier = destinations(before);
            assert forall|i: int, j: int|
                0 <= i < all.len() && 0 <= j < all.len() && i != j implies all[i] != all[j] by {
                if i < before.len() && j < before.len() {
                    assert(all[i] == earlier[i] && all[j] == earlier[j]);
                } else {
                    let old = if i < before.len() {
                        i
                    } else {
                        j
                    };
                    assert(kept_by(groups, n - 1, before[old].destination));
                    let k = choose|k: int|
                        0 <= k < n - 1 && (#[trigger] groups[k]).members.len() == 1
                            && groups[k].candidate == before[old].destination;
                    assert(groups[k].candidate != groups[n - 1].candidate);
                    assert(all[old] == before[old].destination);
                }
            }
        }
    }
}

/// The files that collide get distinct destinations: suffixed candidates of
/// their groups.
proof fn lemma_duplicates_distinct(groups: Seq<GroupView>, n: int)
    requires
        separable(groups),
        0 <= n <= groups.len(),
    ensures
        destinations(duplicate_assignments(groups, n)).no_duplicates(),
        forall|i: int|
            0 <= i < duplicate_assignments(groups, n).len() ==> suffixed_by(
                groups,
                n,
                (#[trigger] duplicate_assignments(groups, n)[i]).destination,
            ),
    decreases n,
{
    if n > 0 {
        lemma_duplicates_distinct(groups, n - 1);
        let before = duplicate_assignments(groups, n - 1);
        let after = duplicate_assignments(groups, n);
        assert forall|i: int| 0 <= i < before.len() implies suffixed_by(
            groups,
            n,
            (#[trigger] before[i]).destination,
        ) by {
            assert(suffixed_by(groups, n - 1, before[i].destination));
            let (k, number) = choose|k: int, number: nat|
                0 <= k < n - 1 && groups[k].members.len() >= 2 && before[i].destination
                    == #[trigger] suffixed(groups[k].candidate, number);
            assert(0 <= k < n && before[i].destination == suffixed(groups[k].candidate, number));
        }
        if groups[n - 1].members.len() >= 2 {
            let last = groups[n - 1];
            let added = resolution(last);
            lemma_resolution_distinct(last);
            assert(after =~= before + added);
            assert forall|i: int| 0 <= i < after.len() implies suffixed_by(
                groups,
                n,
                (#[trigger] after[i]).destination,
            ) by {
                if i < before.len() {
                    assert(after[i] == before[i]);
                } else {
                    let m = i - before.len();
                    assert(after[i] == added[m]);
                    assert(added[m].destination == suffixed(last.candidate, (m + 1) as nat));
                }
            }
            let all = destinations(after);
            let earlier = destinations(before);
            assert forall|i: int, j: int|
                0 <= i < all.len() && 0 <= j < all.len() && i != j implies all[i] != all[j] by {
                if i < before.len() && j < before.len() {
                    assert(all[i] == earlier[i] && all[j] == earlier[j]);
                } else if i >= before.len() && j >= before.len() {
                    let a = i - before.len();
                    let b = j - before.len();
                    assert(all[i] == added[a].destination && all[j] == added[b].destination);
                    if a < b {
                        assert(added[a].destination != added[b].destination);
                    } else {
                        assert(added[b].destination != added[a].destination);
                    }
                } else {
                    let old = if i < before.len() {
                        i
                    } else {
                        j
                    };
                    let new = if i < before.len() {
                        j - before.len()
                    } else {
                        i - before.len()
                    };
                    assert(all[old] == before[old].destination);
                    assert(all[before.len() + new] == added[new].destination);
                    assert(suffixed_by(groups, n - 1, before[old].destination));
                    let (k, number) = choose|k: int, number: nat|
                        0 <= k < n - 1 && groups[k].members.len() >= 2 && before[old].destination
                            == #[trigger] suffixed(groups[k].candidate, number);
                    assert(groups[k].candidate != groups[n - 1].candidate);
                    if before[old].destination == added[new].destination {
                        lemma_suffixed_injective_joint(
                            groups[k].candidate,
                            number,
                            last.candidate,
                            (new + 1) as nat,
                        );
                    }
                }
            }
        }
    }
}

/// Changing one group changes the count of members by what that group
/// gains.
proof fn lemma_count_update(groups: Seq<GroupView>, at: int, group: GroupView)
    requires
        0 <= at < groups.len(),
    ensures
        member_count(groups.update(at, group)) == member_count(groups) - groups[at].members.len()
            + group.members.len(),
    decreases groups.len(),
{
    let updated = groups.update(at, group);
    if at == groups.len() - 1 {
        assert(updated.drop_last() =~= groups.drop_last());
    } else {
        assert(updated.drop_last() =~= groups.drop_last().update(at, group));
        lemma_count_update(groups.drop_last(), at, group);
    }
}

/// The source of a pair is among the members of its candidate.
proof fn lemma_member_present(pairs: Seq<AssignmentView>, i: int, n: int)
    requires
        0 <= i < n <= pairs.len(),
    ensures
        members_upto(pairs, pairs[i].destination, n).contains(pairs[i].source),
    decreases n,
{
    let key = pairs[i].destination;
    let members = members_upto(pairs, key, n);
    if i == n - 1 {
        assert(members[members.len() - 1] == pairs[i].source);
    } else {
        lemma_member_present(pairs, i, n - 1);
        let before = members_upto(pairs, key, n - 1);
        let m = choose|m: int| 0 <= m < before.len() && before[m] == pairs[i].source;
        assert(members[m] == pairs[i].source);
    }
}

/// Every member of a candidate is the source of a pair that has it.
proof fn lemma_member_origin(pairs: Seq<AssignmentView>, key: Seq<char>, n: int, m: int)
    requires
        0 <= n <= pairs.len(),
        0 <= m < members_upto(pairs, key, n).len(),
    ensures
        exists|i: int|
            0 <= i < n && (#[trigger] pairs[i]).source == members_upto(pairs, key, n)[m]
                && pairs[i].destination == key,
    decreases n,
{
    if n > 0 {
        let before = members_upto(pairs, key, n - 1);
        if pairs[n - 1].destination == key && m == before.len() {
            assert(pairs[n - 1].source == members_upto(pairs, key, n)[m]);
        } else {
            lemma_member_origin(pairs, key, n - 1, m);
            let i = choose|i: int|
                0 <= i < n - 1 && (#[trigger] pairs[i]).source == before[m]
                    && pairs[i].destination == key;
            assert(0 <= i < n && pairs[i].source == members_upto(pairs, key, n)[m]);
        }
    }
}

/// The groups of the first `n` pairs hold `n` members.
proof fn lemma_count(pairs: Seq<AssignmentView>, n: int)
    requires
        0 <= n <= pairs.len(),
    ensures
        member_count(groups_upto(pairs, n)) == n,
    decreases n,
{
    if n == 0 {
        assert(groups_upto(pairs, 0) =~= Seq::<GroupView>::empty());
    } else {
        lemma_count(pairs, n - 1);
        lemma_group_step(pairs, n - 1);
        let groups = groups_upto(pairs, n - 1);
        let key = pairs[n - 1].destination;
        let source = pairs[n - 1].source;
        let at = position_from(groups, key, 0);
        lemma_position_from(groups, key, 0);
        if at < groups.len() {
            lemma_count_update(
                groups,
                at,
                GroupView { candidate: key, members: groups[at].members.push(source) },
            );
        } else {
            let added = GroupView { candidate: key, members: seq![source] };
            assert(groups.push(added).drop_last() =~= groups);
        }
    }
}

} // verus!
