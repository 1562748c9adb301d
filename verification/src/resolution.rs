//! The resolution engine: how one duplicate group goes from being shown to
//! the operator to a set of deletions that keeps at least one member.
//!
//! The engine is a state machine. The caller shows the group, asks the
//! operator, looks at the file system and removes files; every answer and
//! observation is handed to a [`GroupResolution`], which decides what
//! follows.
//!
//! A group starts out `Presented`. Skipping ends it as `Skipped`. Manual
//! selection leads to `AwaitingSelection` and, once the operator has marked
//! some but not all members, to `AwaitingConfirmation`; keeping the first
//! needs no answers and leads there at once. A proposal that names no member
//! or every member, and a declined confirmation, end the group as `Aborted`.
//! A confirmed proposal is `Deleting` until each of its files has been
//! examined and, if it is still what it was, removed; then the group is
//! `Reported`. An event that is not due in the current phase changes nothing.

use crate::capped::{capped_bytes, capped_count};
use crate::file_info::FileInfo;
use crate::groups::DuplicateGroup;
use vstd::prelude::*;

verus! {

/// What the operator wants done with a group, in the order the menu lists them.
#[derive(Debug, Clone, Copy, PartialEq, Eq, Structural)]
pub enum Choice {
    /// Decide file by file which members to delete.
    ManualSelect,
    /// Leave the group as it is.
    Skip,
    /// Delete every member but the first.
    KeepFirst,
}

/// Where the resolution of a group stands.
#[derive(Debug, Clone, Copy, PartialEq, Eq, Structural)]
pub enum Phase {
    Presented,
    AwaitingSelection,
    AwaitingConfirmation,
    Deleting,
    Skipped,
    Aborted,
    Reported,
}

/// What re-examining a file just before its deletion showed.
#[derive(Debug, Clone, Copy, PartialEq, Eq, Structural)]
pub enum DeleteCheck {
    /// The file is there with the size it was discovered with.
    Proceed,
    /// The file is gone or cannot be examined.
    Missing,
    /// The file no longer has the size it was discovered with.
    SizeChanged,
}

/// The operator marked every member of a group for deletion.
#[derive(Debug, Clone, Copy, PartialEq, Eq, Structural)]
pub struct NothingKept;

impl Choice {
    /// The choice at `index` of the menu, if there is one.
    pub fn from_index(index: usize) -> (choice: Option<Choice>)
        ensures
            choice == if index == 0 {
                Some(Choice::ManualSelect)
            } else if index == 1 {
                Some(Choice::Skip)
            } else if index == 2 {
                Some(Choice::KeepFirst)
            } else {
                None
            },
    {
        if index == 0 {
            Some(Choice::ManualSelect)
        } else if index == 1 {
            Some(Choice::Skip)
        } else if index == 2 {
            Some(Choice::KeepFirst)
        } else {
            None
        }
    }
}

impl Phase {
    /// A phase that no event leaves.
    pub open spec fn is_terminal(self) -> bool {
        self is Skipped || self is Aborted || self is Reported
    }
}

/// Whether the answer for the member at `position` is "delete". A member
/// without an answer is kept.
pub open spec fn is_marked(marks: Seq<bool>, position: int) -> bool {
    0 <= position < marks.len() && marks[position]
}

/// The marked positions below `members`, ascending.
pub open spec fn marked_positions(members: nat, marks: Seq<bool>) -> Seq<int>
    decreases members,
{
    if members == 0 {
        Seq::empty()
    } else {
        let earlier = marked_positions((members - 1) as nat, marks);
        if is_marked(marks, members - 1) {
            earlier.push(members - 1)
        } else {
            earlier
        }
    }
}

/// Every position below `members` but the first, ascending.
pub open spec fn all_but_first(members: nat) -> Seq<int> {
    if members == 0 {
        Seq::empty()
    } else {
        Seq::new((members - 1) as nat, |i: int| i + 1)
    }
}

/// The verdict on a file discovered with `recorded` bytes that now shows
/// `observed`: its current size, or `None` when it cannot be examined.
pub open spec fn delete_check(recorded: u64, observed: Option<u64>) -> DeleteCheck {
    match observed {
        None => DeleteCheck::Missing,
        Some(current) => if current == recorded {
            DeleteCheck::Proceed
        } else {
            DeleteCheck::SizeChanged
        },
    }
}

/// Decides whether `file` may still be deleted, given what examining it
/// again just showed.
pub fn check_before_delete(file: &FileInfo, observed: Option<u64>) -> (check: DeleteCheck)
    ensures
        check == delete_check(file.size, observed),
{
    match observed {
        None => DeleteCheck::Missing,
        Some(current) => if current == file.size {
            DeleteCheck::Proceed
        } else {
            DeleteCheck::SizeChanged
        },
    }
}

/// The state of one group's resolution, as mathematics.
pub struct Resolution {
    /// The size each member was discovered with.
    pub sizes: Seq<u64>,
    pub phase: Phase,
    /// Positions of the members proposed for deletion, ascending.
    pub proposal: Seq<int>,
    /// How many proposed members have been dealt with.
    pub settled: int,
    /// The member now due passed its check and awaits removal.
    pub cleared: bool,
    /// How many proposed members were removed.
    pub deleted: int,
}

impl Resolution {
    pub open spec fn members(self) -> nat {
        self.sizes.len()
    }

    /// A group that has just been shown.
    pub open spec fn presented(sizes: Seq<u64>) -> Resolution {
        Resolution {
            sizes,
            phase: Phase::Presented,
            proposal: Seq::empty(),
            settled: 0,
            cleared: false,
            deleted: 0,
        }
    }

    /// The states the engine can be in.
    pub open spec fn wf(self) -> bool {
        &&& forall|i: int| 0 <= i < self.proposal.len() ==> 0 <= #[trigger] self.proposal[i] < self.members()
        &&& forall|i: int, j: int|
            0 <= i < j < self.proposal.len() ==> #[trigger] self.proposal[i] < #[trigger] self.proposal[j]
        &&& self.proposal.len() == 0 || self.proposal.len() < self.members()
        &&& 0 <= self.deleted <= self.settled <= self.proposal.len()
        &&& self.cleared ==> self.phase is Deleting
        &&& match self.phase {
            Phase::Presented | Phase::AwaitingSelection | Phase::Skipped | Phase::Aborted => {
                self.proposal.len() == 0
            },
            Phase::AwaitingConfirmation => self.proposal.len() > 0 && self.settled == 0,
            Phase::Deleting => self.settled < self.proposal.len(),
            Phase::Reported => self.proposal.len() > 0 && self.settled == self.proposal.len(),
        }
    }

    /// The state with nothing proposed and the given terminal or waiting phase.
    pub open spec fn without_proposal(self, phase: Phase) -> Resolution {
        Resolution { phase, proposal: Seq::empty(), ..self }
    }

    /// The state after `proposal` was put forward: it awaits confirmation
    /// if it names some but not all members, and is aborted otherwise.
    pub open spec fn propose(self, proposal: Seq<int>) -> Resolution {
        if 0 < proposal.len() < self.members() {
            Resolution { phase: Phase::AwaitingConfirmation, proposal, ..self }
        } else {
            self.without_proposal(Phase::Aborted)
        }
    }

    /// The operator picked an entry of the menu.
    pub open spec fn after_choice(self, choice: Choice) -> Resolution {
        if self.phase is Presented {
            match choice {
                Choice::ManualSelect => self.without_proposal(Phase::AwaitingSelection),
                Choice::Skip => self.without_proposal(Phase::Skipped),
                Choice::KeepFirst => self.propose(all_but_first(self.members())),
            }
        } else {
            self
        }
    }

    /// Whether the answers mark every member, which is refused.
    pub open spec fn refuses(self, marks: Seq<bool>) -> bool {
        self.phase is AwaitingSelection && forall|i: int|
            0 <= i < self.members() ==> is_marked(marks, i)
    }

    /// The operator answered, member by member, whether to delete it.
    pub open spec fn after_selection(self, marks: Seq<bool>) -> Resolution {
        if self.phase is AwaitingSelection {
            self.propose(marked_positions(self.members(), marks))
        } else {
            self
        }
    }

    /// The operator confirmed or declined the proposal.
    pub open spec fn after_confirmation(self, yes: bool) -> Resolution {
        if self.phase is AwaitingConfirmation {
            if yes {
                Resolution { phase: Phase::Deleting, ..self }
            } else {
                self.without_proposal(Phase::Aborted)
            }
        } else {
            self
        }
    }

    /// The position of the member to deal with next.
    pub open spec fn target(self) -> Option<int> {
        if self.phase is Deleting {
            Some(self.proposal[self.settled])
        } else {
            None
        }
    }

    /// Whether the member now due is still to be examined.
    pub open spec fn check_due(self) -> bool {
        self.phase is Deleting && !self.cleared
    }

    /// Whether the member now due awaits the outcome of its removal.
    pub open spec fn removal_due(self) -> bool {
        self.phase is Deleting && self.cleared
    }

    /// The state after the member now due was dealt with.
    pub open spec fn advance(self, removed: bool) -> Resolution {
        Resolution {
            phase: if self.settled + 1 == self.proposal.len() {
                Phase::Reported
            } else {
                Phase::Deleting
            },
            settled: self.settled + 1,
            cleared: false,
            deleted: if removed {
                self.deleted + 1
            } else {
                self.deleted
            },
            ..self
        }
    }

    /// The member now due was examined again and showed `observed`.
    pub open spec fn after_check(self, observed: Option<u64>) -> Resolution {
        if self.check_due() {
            if delete_check(self.sizes[self.proposal[self.settled]], observed) is Proceed {
                Resolution { cleared: true, ..self }
            } else {
                self.advance(false)
            }
        } else {
            self
        }
    }

    /// The removal of the member now due succeeded or failed.
    pub open spec fn after_removal(self, removed: bool) -> Resolution {
        if self.removal_due() {
            self.advance(removed)
        } else {
            self
        }
    }

    /// The bytes won back so far: the group's size for every removed member.
    pub open spec fn reclaimed(self, size: u64) -> int {
        size * self.deleted
    }
}

/// The marked positions are ascending, lie below `members`, and are all of
/// them exactly when every member is marked.
pub proof fn lemma_marked_positions(members: nat, marks: Seq<bool>)
    ensures
        marked_positions(members, marks).len() <= members,
        forall|i: int|
            0 <= i < marked_positions(members, marks).len() ==> 0 <= #[trigger] marked_positions(
                members,
                marks,
            )[i] < members && is_marked(marks, marked_positions(members, marks)[i]),
        forall|i: int, j: int|
            0 <= i < j < marked_positions(members, marks).len() ==> #[trigger] marked_positions(
                members,
                marks,
            )[i] < #[trigger] marked_positions(members, marks)[j],
        marked_positions(members, marks).len() == members <==> forall|i: int|
            0 <= i < members ==> is_marked(marks, i),
        forall|p: int|
            0 <= p < members && is_marked(marks, p) ==> marked_positions(members, marks).contains(
                p,
            ),
    decreases members,
{
    if members > 0 {
        let earlier = marked_positions((members - 1) as nat, marks);
        let all = marked_positions(members, marks);
        lemma_marked_positions((members - 1) as nat, marks);
        if is_marked(marks, members - 1) {
            assert(all == earlier.push(members - 1));
            assert forall|p: int| 0 <= p < members && is_marked(marks, p) implies all.contains(
                p,
            ) by {
                if p == members - 1 {
                    assert(all[earlier.len() as int] == p);
                } else {
                    let k = choose|k: int| 0 <= k < earlier.len() && earlier[k] == p;
                    assert(all[k] == p);
                }
            }
            if all.len() == members {
                assert forall|i: int| 0 <= i < members implies is_marked(marks, i) by {}
            }
        } else {
            assert(all == earlier);
            assert(!is_marked(marks, members - 1));
        }
    }
}

/// A group that has just been shown is in a state of the engine.
pub proof fn lemma_presented_wf(sizes: Seq<u64>)
    ensures
        Resolution::presented(sizes).wf(),
{
}

/// Every event takes a state of the engine to a state of the engine.
pub proof fn lemma_events_preserve_wf(
    state: Resolution,
    choice: Choice,
    marks: Seq<bool>,
    yes: bool,
    observed: Option<u64>,
    removed: bool,
)
    requires
        state.wf(),
    ensures
        state.after_choice(choice).wf(),
        state.after_selection(marks).wf(),
        state.after_confirmation(yes).wf(),
        state.after_check(observed).wf(),
        state.after_removal(removed).wf(),
{
    lemma_marked_positions(state.members(), marks);
}

/// A group never visits more than one terminal state: once skipped, aborted
/// or reported, no event changes anything.
pub proof fn lemma_terminal_is_final(
    state: Resolution,
    choice: Choice,
    marks: Seq<bool>,
    yes: bool,
    observed: Option<u64>,
    removed: bool,
)
    requires
        state.wf(),
        state.phase.is_terminal(),
    ensures
        state.after_choice(choice) == state,
        state.after_selection(marks) == state,
        state.after_confirmation(yes) == state,
        state.after_check(observed) == state,
        state.after_removal(removed) == state,
{
}

/// A group always retains at least one member: fewer members are proposed,
/// and so removed, than the group has.
pub proof fn lemma_one_member_kept(state: Resolution)
    requires
        state.wf(),
        state.members() > 0,
    ensures
        state.deleted <= state.proposal.len() < state.members(),
        exists|kept: int| 0 <= kept < state.members() && !state.proposal.contains(kept),
{
    lemma_ascending_misses_one(state.proposal, state.members());
}

/// Fewer than `bound` ascending positions below `bound` leave one out.
proof fn lemma_ascending_misses_one(positions: Seq<int>, bound: nat)
    requires
        positions.len() < bound,
        forall|i: int| 0 <= i < positions.len() ==> 0 <= #[trigger] positions[i] < bound,
        forall|i: int, j: int|
            0 <= i < j < positions.len() ==> #[trigger] positions[i] < #[trigger] positions[j],
    ensures
        exists|kept: int| 0 <= kept < bound && !positions.contains(kept),
    decreases bound,
{
    if positions.len() == 0 {
        assert(!positions.contains(0));
    } else if positions.last() < bound - 1 {
        assert forall|i: int| 0 <= i < positions.len() implies positions[i] != bound - 1 by {
            if i < positions.len() - 1 {
                assert(positions[i] < positions[positions.len() - 1]);
            }
        }
        assert(!positions.contains(bound - 1));
    } else {
        let rest = positions.drop_last();
        assert forall|i: int| 0 <= i < rest.len() implies 0 <= #[trigger] rest[i] < bound - 1 by {
            assert(positions[i] < positions[positions.len() - 1]);
        }
        lemma_ascending_misses_one(rest, (bound - 1) as nat);
        let kept = choose|kept: int| 0 <= kept < bound - 1 && !rest.contains(kept);
        assert forall|i: int| 0 <= i < positions.len() implies positions[i] != kept by {
            if i < rest.len() {
                assert(rest[i] == positions[i]);
            }
        }
        assert(!positions.contains(kept));
    }
}

/// Marking every member for deletion is refused: the group is aborted with
/// nothing proposed and nothing removed.
pub proof fn lemma_marking_all_is_refused(state: Resolution, marks: Seq<bool>)
    requires
        state.wf(),
        state.refuses(marks),
    ensures
        state.after_selection(marks).phase is Aborted,
        state.after_selection(marks).proposal.len() == 0,
        state.after_selection(marks).deleted == 0,
{
    lemma_marked_positions(state.members(), marks);
}

/// Keeping the first member proposes every other member, and only those.
pub proof fn lemma_keep_first_proposal(state: Resolution)
    requires
        state.wf(),
        state.phase is Presented,
        state.members() >= 2,
    ensures
        state.after_choice(Choice::KeepFirst).phase is AwaitingConfirmation,
        state.after_choice(Choice::KeepFirst).proposal.len() == state.members() - 1,
        !state.after_choice(Choice::KeepFirst).proposal.contains(0),
        forall|p: int|
            1 <= p < state.members() ==> state.after_choice(Choice::KeepFirst).proposal.contains(p),
{
    let proposal = all_but_first(state.members());
    assert forall|p: int| 1 <= p < state.members() implies proposal.contains(p) by {
        assert(proposal[p - 1] == p);
    }
}

/// A member that is gone or whose size changed is skipped, never removed,
/// and the members after it are still dealt with.
pub proof fn lemma_stale_member_is_skipped(state: Resolution, observed: Option<u64>)
    requires
        state.wf(),
        state.check_due(),
        observed != Some(state.sizes[state.proposal[state.settled]]),
    ensures
        state.after_check(observed).deleted == state.deleted,
        state.after_check(observed).settled == state.settled + 1,
        state.after_check(observed).proposal == state.proposal,
        state.settled + 1 < state.proposal.len() ==> state.after_check(observed).check_due()
            && state.after_check(observed).target() == Some(state.proposal[state.settled + 1]),
        state.settled + 1 == state.proposal.len() ==> state.after_check(observed).phase is Reported,
{
}

/// The size each file was discovered with, in order.
pub open spec fn member_sizes(files: Seq<FileInfo>) -> Seq<u64> {
    Seq::new(files.len(), |i: int| files[i].size)
}

/// Positions held as machine integers, as mathematical ones.
pub open spec fn positions(proposed: Seq<usize>) -> Seq<int> {
    Seq::new(proposed.len(), |i: int| proposed[i] as int)
}

/// Where a resolution stands, apart from what it proposes.
#[derive(Clone, Copy)]
struct Stage {
    phase: Phase,
    settled: usize,
    cleared: bool,
    deleted: usize,
}

/// The resolution of one duplicate group, driven by the operator's answers
/// and by what the file system shows.
pub struct GroupResolution<'a> {
    group: &'a DuplicateGroup,
    proposed: Vec<usize>,
    stage: Stage,
}

impl<'a> View for GroupResolution<'a> {
    type V = Resolution;

    closed spec fn view(&self) -> Resolution {
        Resolution {
            sizes: member_sizes(self.group.files@),
            phase: self.stage.phase,
            proposal: positions(self.proposed@),
            settled: self.stage.settled as int,
            cleared: self.stage.cleared,
            deleted: self.stage.deleted as int,
        }
    }
}

impl<'a> GroupResolution<'a> {
    #[verifier::type_invariant]
    spec fn inv(self) -> bool {
        self@.wf()
    }

    /// The group being resolved.
    pub closed spec fn group(&self) -> DuplicateGroup {
        *self.group
    }

    /// Starts the resolution of `group`, which has just been shown.
    pub fn present(group: &'a DuplicateGroup) -> (resolution: Self)
        ensures
            resolution@ == Resolution::presented(member_sizes(group.files@)),
            resolution@.wf(),
            resolution.group() == *group,
    {
        let resolution = GroupResolution {
            group,
            proposed: Vec::new(),
            stage: Stage { phase: Phase::Presented, settled: 0, cleared: false, deleted: 0 },
        };
        assert(resolution@.proposal =~= Seq::empty());
        resolution
    }

    /// The current phase.
    pub fn phase(&self) -> (phase: Phase)
        ensures
            phase == self@.phase,
            self@.wf(),
    {
        proof {
            use_type_invariant(self);
        }
        self.stage.phase
    }

    /// Whether the resolution has ended.
    pub fn is_finished(&self) -> (finished: bool)
        ensures
            finished == self@.phase.is_terminal(),
    {
        match self.stage.phase {
            Phase::Skipped | Phase::Aborted | Phase::Reported => true,
            _ => false,
        }
    }

    /// Puts `proposal` forward, or aborts when it names none or all members.
    fn put_forward(&mut self, proposal: Vec<usize>)
        requires
            old(self)@.phase is Presented || old(self)@.phase is AwaitingSelection,
            forall|i: int|
                0 <= i < proposal@.len() ==> 0 <= #[trigger] proposal@[i] < old(self)@.members(),
            forall|i: int, j: int|
                0 <= i < j < proposal@.len() ==> #[trigger] proposal@[i] < #[trigger] proposal@[j],
        ensures
            final(self)@ == old(self)@.propose(positions(proposal@)),
            final(self).group() == old(self).group(),
    {
        proof {
            use_type_invariant(&*self);
        }
        let group = self.group;
        if 0 < proposal.len() && proposal.len() < group.files.len() {
            let stage = Stage { phase: Phase::AwaitingConfirmation, ..self.stage };
            *self = GroupResolution { group, proposed: proposal, stage };
        } else {
            let stage = Stage { phase: Phase::Aborted, ..self.stage };
            *self = GroupResolution { group, proposed: Vec::new(), stage };
            assert(self@.proposal =~= Seq::empty());
        }
    }

    /// The operator picked `choice` from the menu.
    pub fn pick(&mut self, choice: Choice)
        ensures
            final(self)@ == old(self)@.after_choice(choice),
            final(self)@.wf(),
            final(self).group() == old(self).group(),
    {
        proof {
            use_type_invariant(&*self);
        }
        match self.stage.phase {
            Phase::Presented => {},
            _ => {
                return ;
            },
        }
        assert(self@.proposal =~= Seq::empty());
        match choice {
            Choice::ManualSelect => {
                self.stage = Stage { phase: Phase::AwaitingSelection, ..self.stage };
            },
            Choice::Skip => {
                self.stage = Stage { phase: Phase::Skipped, ..self.stage };
            },
            Choice::KeepFirst => {
                let members = self.group.files.len();
                let mut others: Vec<usize> = Vec::new();
                let mut position: usize = 1;
                while position < members
                    invariant
                        1 <= position,
                        position <= members || (members == 0 && position == 1),
                        others@.len() == position - 1,
                        forall|i: int| 0 <= i < others@.len() ==> #[trigger] others@[i] == i + 1,
                    decreases members - position,
                {
                    others.push(position);
                    position += 1;
                }
                assert(positions(others@) =~= all_but_first(members as nat));
                self.put_forward(others);
            },
        }
    }

    /// The operator answered, member by member, whether to delete it:
    /// `marks[i]` is the answer for member `i`, and a member without an answer
    /// is kept. Marking every member is refused.
    pub fn select(&mut self, marks: &[bool]) -> (result: Result<(), NothingKept>)
        ensures
            final(self)@ == old(self)@.after_selection(marks@),
            final(self)@.wf(),
            final(self).group() == old(self).group(),
            result is Err <==> old(self)@.refuses(marks@),
            result is Err ==> final(self)@ == old(self)@.without_proposal(Phase::Aborted),
    {
        proof {
            use_type_invariant(&*self);
        }
        match self.stage.phase {
            Phase::AwaitingSelection => {},
            _ => {
                return Ok(());
            },
        }
        let members = self.group.files.len();
        let mut chosen: Vec<usize> = Vec::new();
        let mut position: usize = 0;
        assert(positions(chosen@) =~= marked_positions(0, marks@));
        while position < members
            invariant
                position <= members,
                positions(chosen@) == marked_positions(position as nat, marks@),
            decreases members - position,
        {
            if position < marks.len() && marks[position] {
                chosen.push(position);
                assert(positions(chosen@) =~= marked_positions(position as nat, marks@).push(
                    position as int,
                ));
            }
            position += 1;
        }
        proof {
            lemma_marked_positions(members as nat, marks@);
            assert forall|i: int| 0 <= i < chosen@.len() implies 0 <= #[trigger] chosen@[i]
                < members by {
                assert(positions(chosen@)[i] == chosen@[i]);
            }
            assert forall|i: int, j: int| 0 <= i < j < chosen@.len() implies #[trigger] chosen@[i]
                < #[trigger] chosen@[j] by {
                assert(positions(chosen@)[i] == chosen@[i]);
                assert(positions(chosen@)[j] == chosen@[j]);
            }
        }
        let refused = chosen.len() >= members;
        self.put_forward(chosen);
        if refused {
            Err(NothingKept)
        } else {
            Ok(())
        }
    }

    /// The operator confirmed (`yes`) or declined the proposal.
    pub fn confirm(&mut self, yes: bool)
        ensures
            final(self)@ == old(self)@.after_confirmation(yes),
            final(self)@.wf(),
            final(self).group() == old(self).group(),
    {
        proof {
            use_type_invariant(&*self);
        }
        match self.stage.phase {
            Phase::AwaitingConfirmation => {},
            _ => {
                return ;
            },
        }
        if yes {
            self.stage = Stage { phase: Phase::Deleting, ..self.stage };
        } else {
            let stage = Stage { phase: Phase::Aborted, ..self.stage };
            *self = GroupResolution { group: self.group, proposed: Vec::new(), stage };
            assert(self@.proposal =~= Seq::empty());
        }
    }

    /// The members proposed for deletion, in group order.
    pub fn proposal(&self) -> (files: Vec<&'a FileInfo>)
        ensures
            files@.len() == self@.proposal.len(),
            forall|i: int|
                0 <= i < files@.len() ==> 0 <= self@.proposal[i] < self.group().files@.len()
                    && *#[trigger] files@[i] == self.group().files@[self@.proposal[i]],
    {
        proof {
            use_type_invariant(self);
        }
        let mut files: Vec<&'a FileInfo> = Vec::new();
        let mut i: usize = 0;
        while i < self.proposed.len()
            invariant
                i <= self.proposed@.len(),
                self@.wf(),
                files@.len() == i,
                forall|k: int|
                    0 <= k < i ==> *#[trigger] files@[k] == self.group().files@[self@.proposal[k]],
            decreases self.proposed@.len() - i,
        {
            assert(self@.proposal[i as int] == self.proposed@[i as int]);
            files.push(&self.group.files[self.proposed[i]]);
            i += 1;
        }
        files
    }

    /// The member to deal with next, while deleting.
    pub fn target(&self) -> (file: Option<&'a FileInfo>)
        ensures
            match self@.target() {
                Some(position) => 0 <= position < self.group().files@.len() && file == Some(
                    &self.group().files@[position],
                ),
                None => file is None,
            },
    {
        proof {
            use_type_invariant(self);
        }
        match self.stage.phase {
            Phase::Deleting => {
                assert(self@.proposal[self.stage.settled as int]
                    == self.proposed@[self.stage.settled as int]);
                Some(&self.group.files[self.proposed[self.stage.settled]])
            },
            _ => None,
        }
    }

    /// Moves on from the member now due.
    fn advance(&mut self, removed: bool)
        requires
            old(self)@.phase is Deleting,
        ensures
            final(self)@ == old(self)@.advance(removed),
            final(self).group() == old(self).group(),
    {
        proof {
            use_type_invariant(&*self);
        }
        let proposed = self.proposed.len();
        assert(self@.settled < self@.proposal.len() == proposed);
        let settled = self.stage.settled + 1;
        self.stage = Stage {
            phase: if settled == proposed {
                Phase::Reported
            } else {
                Phase::Deleting
            },
            settled,
            cleared: false,
            deleted: if removed {
                self.stage.deleted + 1
            } else {
                self.stage.deleted
            },
        };
    }

    /// The member now due was examined again just before its deletion and
    /// showed `observed`: its current size, or `None` when it is gone or
    /// cannot be examined. Returns the verdict, or `None` when no
    /// examination was due. Only after `Proceed` may the file be removed.
    pub fn observe(&mut self, observed: Option<u64>) -> (check: Option<DeleteCheck>)
        ensures
            final(self)@ == old(self)@.after_check(observed),
            final(self)@.wf(),
            final(self).group() == old(self).group(),
            check == if old(self)@.check_due() {
                Some(
                    delete_check(
                        old(self)@.sizes[old(self)@.proposal[old(self)@.settled]],
                        observed,
                    ),
                )
            } else {
                None
            },
    {
        proof {
            use_type_invariant(&*self);
        }
        match self.stage.phase {
            Phase::Deleting => {},
            _ => {
                return None;
            },
        }
        if self.stage.cleared {
            return None;
        }
        assert(self@.proposal[self.stage.settled as int]
            == self.proposed@[self.stage.settled as int]);
        let check = check_before_delete(
            &self.group.files[self.proposed[self.stage.settled]],
            observed,
        );
        match check {
            DeleteCheck::Proceed => {
                self.stage = Stage { cleared: true, ..self.stage };
            },
            _ => {
                self.advance(false);
            },
        }
        Some(check)
    }

    /// The removal of the member now due succeeded (`removed`) or failed.
    /// Ignored unless that member passed its examination.
    pub fn removal(&mut self, removed: bool)
        ensures
            final(self)@ == old(self)@.after_removal(removed),
            final(self)@.wf(),
            final(self).group() == old(self).group(),
    {
        proof {
            use_type_invariant(&*self);
        }
        match self.stage.phase {
            Phase::Deleting => {},
            _ => {
                return ;
            },
        }
        if self.stage.cleared {
            self.advance(removed);
        }
    }

    /// How many members have been removed.
    pub fn deleted(&self) -> (count: usize)
        ensures
            count == self@.deleted,
    {
        self.stage.deleted
    }
}

/// What a session has removed so far, over all its groups.
#[derive(Debug, Clone, Copy, PartialEq, Eq, Structural)]
pub struct Totals {
    pub files_deleted: usize,
    pub bytes_reclaimed: u64,
}

impl Totals {
    /// Nothing removed yet.
    pub fn new() -> (totals: Self)
        ensures
            totals.files_deleted == 0,
            totals.bytes_reclaimed == 0,
    {
        Totals { files_deleted: 0, bytes_reclaimed: 0 }
    }

    /// Adds what the resolution of one group removed: its count of removed
    /// members, and the group's size for each of them. Both totals stop at
    /// the largest value they can hold.
    pub fn credit(&mut self, resolution: GroupResolution<'_>)
        ensures
            final(self).files_deleted == capped_count(
                old(self).files_deleted + resolution@.deleted,
            ),
            final(self).bytes_reclaimed == capped_bytes(
                old(self).bytes_reclaimed + resolution@.reclaimed(resolution.group().size),
            ),
    {
        proof {
            use_type_invariant(&resolution);
        }
        let deleted = resolution.stage.deleted;
        let size = resolution.group.size;
        let reclaimed = match size.checked_mul(deleted as u64) {
            Some(bytes) => bytes,
            None => u64::MAX,
        };
        self.files_deleted = self.files_deleted.saturating_add(deleted);
        self.bytes_reclaimed = self.bytes_reclaimed.saturating_add(reclaimed);
    }
}

} // verus!
