//! Carrying out a plan, step by step. Each step names the operations to perform on the
//! disk, in order; the next step may ask first whether a path of the target exists. What was
//! performed is reported back, operation by operation.
use vstd::hash_set::StringHashSet;
use vstd::prelude::*;
use vstd::string::*;

use crate::display::{
    Line, Tone, copy_line, copy_line_text, move_line, move_line_text, size_of_or_zero,
    size_or_zero, trash_line, trash_line_text,
};
use crate::index::{FileIndex, IndexModel};
use crate::paths::{trash_folder, trash_folder_name};
use crate::plan::{PlanModel, SyncPlan};
use crate::text::{decimal, push_decimal};

verus! {

/// One operation of a run.
pub enum Action {
    /// Show a line.
    Say(Line),
    /// Create the folder of the trash that the path lies in.
    MakeTrashParent(String),
    /// Move the file of the target at the path to the same path in the trash.
    MoveToTrash(String),
    /// Create the folder of the target that the path lies in.
    MakeParent(String),
    /// Move the file of the target at the first path to the second one.
    Move(String, String),
    /// Move the file of the trash at the first path to the second path of the target.
    TakeBack(String, String),
    /// Copy the file of the source at the path to the same path in the target.
    Copy(String),
}

/// One operation of a run, with texts in place of strings.
pub enum Step {
    Say(Seq<(Tone, Seq<char>)>),
    MakeTrashParent(Seq<char>),
    MoveToTrash(Seq<char>),
    MakeParent(Seq<char>),
    Move(Seq<char>, Seq<char>),
    TakeBack(Seq<char>, Seq<char>),
    Copy(Seq<char>),
}

impl View for Action {
    type V = Step;

    open spec fn view(&self) -> Step {
        match self {
            Action::Say(line) => Step::Say(line@),
            Action::MakeTrashParent(path) => Step::MakeTrashParent(path@),
            Action::MoveToTrash(path) => Step::MoveToTrash(path@),
            Action::MakeParent(path) => Step::MakeParent(path@),
            Action::Move(source, dest) => Step::Move(source@, dest@),
            Action::TakeBack(source, dest) => Step::TakeBack(source@, dest@),
            Action::Copy(path) => Step::Copy(path@),
        }
    }
}

/// The operations that a list of actions stands for.
pub open spec fn steps(actions: Seq<Action>) -> Seq<Step> {
    actions.map_values(|action: Action| action@)
}

fn push_action(actions: &mut Vec<Action>, action: Action)
    ensures
        steps(final(actions)@) == steps(old(actions)@).push(action@),
{
    let ghost before = steps(actions@);
    actions.push(action);
    assert(steps(actions@) =~= before.push(action@));
}

/// The operations for one move. A file that stands in the way goes to the trash first; a
/// file that went there because it stood in the way itself is taken back from there.
pub open spec fn move_steps(
    source: Seq<char>,
    dest: Seq<char>,
    displaced: bool,
    trashed: bool,
) -> Seq<Step> {
    let clearing = if displaced {
        seq![Step::MakeTrashParent(dest), Step::MoveToTrash(dest)]
    } else {
        seq![]
    };
    let moving = if trashed {
        Step::TakeBack(source, dest)
    } else {
        Step::Move(source, dest)
    };
    clearing + seq![Step::MakeParent(dest), moving, Step::Say(move_line_text(source, dest))]
}

/// The operations for one path to trash.
pub open spec fn trash_steps(path: Seq<char>, present: bool) -> Seq<Step> {
    if present {
        seq![
            Step::MakeTrashParent(path),
            Step::MoveToTrash(path),
            Step::Say(trash_line_text(path)),
        ]
    } else {
        seq![]
    }
}

/// The operations for one copy.
pub open spec fn copy_steps(path: Seq<char>, size: nat) -> Seq<Step> {
    seq![Step::MakeParent(path), Step::Copy(path), Step::Say(copy_line_text(path, size))]
}

/// Appends the operations for the `i`-th move of the plan, given whether its new path
/// exists in the target and which paths earlier moves have cleared. A file in the way is
/// trashed unless its path was cleared; a file whose path was cleared is taken from the
/// trash.
pub fn execute_moves(
    plan: &SyncPlan,
    i: usize,
    dest_exists: bool,
    inline_trashed: &StringHashSet,
    actions: &mut Vec<Action>,
)
    requires
        i < plan@.moves.len(),
    ensures
        ({
            let (source, dest) = plan@.moves[i as int];
            steps(final(actions)@) == steps(old(actions)@) + move_steps(
                source,
                dest,
                dest_exists && !inline_trashed@.contains(dest),
                inline_trashed@.contains(source),
            )
        }),
{
    let ghost before = steps(actions@);
    let source = plan.moves[i].0.as_str();
    let dest = plan.moves[i].1.as_str();
    let displaced = dest_exists && !inline_trashed.contains(dest);
    let trashed = inline_trashed.contains(source);
    if displaced {
        push_action(actions, Action::MakeTrashParent(dest.to_string()));
        push_action(actions, Action::MoveToTrash(dest.to_string()));
    }
    push_action(actions, Action::MakeParent(dest.to_string()));
    if trashed {
        push_action(actions, Action::TakeBack(source.to_string(), dest.to_string()));
    } else {
        push_action(actions, Action::Move(source.to_string(), dest.to_string()));
    }
    push_action(actions, Action::Say(move_line(source, dest)));
    assert(plan@.moves[i as int] == (source@, dest@));
    assert(steps(actions@) =~= before + move_steps(source@, dest@, displaced, trashed));
}

/// Appends the operations for the `i`-th path to trash, given whether it exists in the
/// target. A path that a move cleared already is passed over.
pub fn execute_trashes(
    plan: &SyncPlan,
    i: usize,
    exists: bool,
    inline_trashed: &StringHashSet,
    actions: &mut Vec<Action>,
)
    requires
        i < plan@.trashes.len(),
    ensures
        ({
            let path = plan@.trashes[i as int];
            steps(final(actions)@) == steps(old(actions)@) + trash_steps(
                path,
                exists && !inline_trashed@.contains(path),
            )
        }),
{
    let ghost before = steps(actions@);
    let path = plan.trashes[i].as_str();
    assert(plan@.trashes[i as int] == path@);
    if inline_trashed.contains(path) || !exists {
        assert(before =~= before + trash_steps(path@, false));
        return ;
    }
    push_action(actions, Action::MakeTrashParent(path.to_string()));
    push_action(actions, Action::MoveToTrash(path.to_string()));
    push_action(actions, Action::Say(trash_line(path)));
    assert(steps(actions@) =~= before + trash_steps(path@, true));
}

/// Appends the operations for the `i`-th copy of the plan.
pub fn execute_copies(plan: &SyncPlan, i: usize, a_idx: &FileIndex, actions: &mut Vec<Action>)
    requires
        i < plan@.copies.len(),
    ensures
        ({
            let path = plan@.copies[i as int];
            steps(final(actions)@) == steps(old(actions)@) + copy_steps(
                path,
                size_or_zero(a_idx@, path),
            )
        }),
{
    let ghost before = steps(actions@);
    let path = plan.copies[i].as_str();
    assert(plan@.copies[i as int] == path@);
    push_action(actions, Action::MakeParent(path.to_string()));
    push_action(actions, Action::Copy(path.to_string()));
    push_action(actions, Action::Say(copy_line(path, size_of_or_zero(a_idx, path))));
    assert(steps(actions@) =~= before + copy_steps(path@, size_or_zero(a_idx@, path@)));
}

/// The parts of a run, in their order.
#[derive(Clone, Copy, PartialEq, Eq, Structural, Debug)]
pub enum Stage {
    Moves,
    Trashes,
    Copies,
    Done,
}

/// How far a run has come: the stage, the entry of its list that is next, and the paths
/// that moves have cleared, by moving the file there to the trash.
#[verifier::ext_equal]
pub struct Progress {
    pub stage: Stage,
    pub next: nat,
    pub inline_trashed: Set<Seq<char>>,
}

/// How many entries the list of a stage has.
pub open spec fn stage_len(plan: PlanModel, stage: Stage) -> nat {
    match stage {
        Stage::Moves => plan.moves.len(),
        Stage::Trashes => plan.trashes.len(),
        Stage::Copies => plan.copies.len(),
        Stage::Done => 0,
    }
}

/// The stage after `stage`.
pub open spec fn stage_after(stage: Stage) -> Stage {
    match stage {
        Stage::Moves => Stage::Trashes,
        Stage::Trashes => Stage::Copies,
        Stage::Copies => Stage::Done,
        Stage::Done => Stage::Done,
    }
}

/// The headline of a stage.
pub open spec fn headline_text(plan: PlanModel, stage: Stage, timestamp: Seq<char>) -> Seq<char> {
    match stage {
        Stage::Moves => "正在执行 B 内部移动（"@ + decimal(plan.moves.len()) + " 个）..."@,
        Stage::Trashes => "正在移到回收站（"@ + decimal(plan.trashes.len()) + " 个）→ "@
            + trash_folder(timestamp) + "/"@,
        Stage::Copies => "正在从 A 复制到 B（"@ + decimal(plan.copies.len()) + " 个文件）..."@,
        Stage::Done => Seq::empty(),
    }
}

/// The path of the target whose existence decides the next step, if there is one.
pub open spec fn probe_path(plan: PlanModel, at: Progress) -> Option<Seq<char>> {
    if at.next >= stage_len(plan, at.stage) {
        None
    } else {
        match at.stage {
            Stage::Moves => Some(plan.moves[at.next as int].1),
            Stage::Trashes => {
                let path = plan.trashes[at.next as int];
                if at.inline_trashed.contains(path) {
                    None
                } else {
                    Some(path)
                }
            },
            _ => None,
        }
    }
}

/// The operations for the next entry of the list, without the headline.
pub open spec fn entry_steps(plan: PlanModel, a: IndexModel, at: Progress, exists: bool) -> Seq<
    Step,
> {
    let i = at.next as int;
    match at.stage {
        Stage::Moves => move_steps(
            plan.moves[i].0,
            plan.moves[i].1,
            exists && !at.inline_trashed.contains(plan.moves[i].1),
            at.inline_trashed.contains(plan.moves[i].0),
        ),
        Stage::Trashes => trash_steps(
            plan.trashes[i],
            exists && !at.inline_trashed.contains(plan.trashes[i]),
        ),
        Stage::Copies => copy_steps(plan.copies[i], size_or_zero(a, plan.copies[i])),
        Stage::Done => Seq::empty(),
    }
}

/// The operations of the next step: those for the next entry of the list, under a headline
/// where it is the first; none where the list is at its end.
pub open spec fn next_steps(
    plan: PlanModel,
    a: IndexModel,
    timestamp: Seq<char>,
    at: Progress,
    exists: bool,
) -> Seq<Step> {
    if at.next >= stage_len(plan, at.stage) {
        Seq::empty()
    } else if at.next == 0 {
        seq![Step::Say(seq![(Tone::Cyan, headline_text(plan, at.stage, timestamp))])] + entry_steps(
            plan,
            a,
            at,
            exists,
        )
    } else {
        entry_steps(plan, a, at, exists)
    }
}

/// How far the run has come when the next step is taken and none of its operations is
/// performed yet.
pub open spec fn next_progress(plan: PlanModel, at: Progress) -> Progress {
    if at.next >= stage_len(plan, at.stage) {
        Progress { stage: stage_after(at.stage), next: 0, inline_trashed: at.inline_trashed }
    } else {
        Progress { stage: at.stage, next: at.next + 1, inline_trashed: at.inline_trashed }
    }
}

/// How far the run has come when an operation has been performed: a path is cleared once a
/// move has put its file into the trash.
pub open spec fn operation_done(at: Progress, step: Step) -> Progress {
    match step {
        Step::MoveToTrash(path) if at.stage == Stage::Moves => Progress {
            stage: at.stage,
            next: at.next,
            inline_trashed: at.inline_trashed.insert(path),
        },
        _ => at,
    }
}

/// How far the run has come when a list of operations has been performed.
pub open spec fn operations_done(at: Progress, list: Seq<Step>) -> Progress
    decreases list.len(),
{
    if list.len() == 0 {
        at
    } else {
        operation_done(operations_done(at, list.drop_last()), list.last())
    }
}

/// The paths that come to count as cleared are exactly those whose files the moves have put
/// into the trash; a path whose operation was handed out and not performed is not among them.
pub proof fn only_trashed_paths_are_cleared(at: Progress, list: Seq<Step>)
    ensures
        operations_done(at, list).stage == at.stage,
        operations_done(at, list).next == at.next,
        forall|path: Seq<char>| #[trigger]
            operations_done(at, list).inline_trashed.contains(path)
                <==> at.inline_trashed.contains(path) || (at.stage == Stage::Moves
                && list.contains(Step::MoveToTrash(path))),
    decreases list.len(),
{
    if list.len() > 0 {
        let shorter = list.drop_last();
        only_trashed_paths_are_cleared(at, shorter);
        assert forall|path: Seq<char>| list.contains(Step::MoveToTrash(path)) <==> shorter.contains(
            Step::MoveToTrash(path),
        ) || list.last() == Step::MoveToTrash(path) by {
            let step = Step::MoveToTrash(path);
            if shorter.contains(step) {
                let i = choose|i: int| 0 <= i < shorter.len() && shorter[i] == step;
                assert(list[i] == step);
            }
            if list.last() == step {
                assert(list[list.len() - 1] == step);
            }
            if list.contains(step) && list.last() != step {
                let i = choose|i: int| 0 <= i < list.len() && list[i] == step;
                assert(shorter[i] == step);
            }
        }
    }
}

/// A run that carries out a plan.
pub struct Execution {
    stage: Stage,
    next: usize,
    inline_trashed: StringHashSet,
}

impl View for Execution {
    type V = Progress;

    closed spec fn view(&self) -> Progress {
        Progress {
            stage: self.stage,
            next: self.next as nat,
            inline_trashed: self.inline_trashed@,
        }
    }
}

impl Execution {
    /// A run at its start.
    pub fn new() -> (run: Execution)
        ensures
            run@ == (Progress { stage: Stage::Moves, next: 0, inline_trashed: Set::empty() }),
    {
        Execution { stage: Stage::Moves, next: 0, inline_trashed: StringHashSet::new() }
    }

    /// The stage that the run is in.
    pub fn stage(&self) -> (stage: Stage)
        ensures
            stage == self@.stage,
    {
        self.stage
    }

    /// The path of the target whose existence decides the next step, if there is one.
    pub fn probe(&self, plan: &SyncPlan) -> (path: Option<String>)
        ensures
            match path {
                Some(path) => probe_path(plan@, self@) == Some(path@),
                None => probe_path(plan@, self@) is None,
            },
    {
        let i = self.next;
        match self.stage {
            Stage::Moves => {
                if i < plan.moves.len() {
                    Some(plan.moves[i].1.clone())
                } else {
                    None
                }
            },
            Stage::Trashes => {
                if i < plan.trashes.len() && !self.inline_trashed.contains(
                    plan.trashes[i].as_str(),
                ) {
                    Some(plan.trashes[i].clone())
                } else {
                    None
                }
            },
            _ => None,
        }
    }

    /// Takes the next step, given whether the probed path exists, and returns the
    /// operations to perform for it, in order.
    pub fn advance(
        &mut self,
        plan: &SyncPlan,
        a_idx: &FileIndex,
        timestamp: &str,
        exists: bool,
    ) -> (actions: Vec<Action>)
        ensures
            final(self)@ == next_progress(plan@, old(self)@),
            steps(actions@) == next_steps(plan@, a_idx@, timestamp@, old(self)@, exists),
    {
        let mut actions: Vec<Action> = Vec::new();
        assert(steps(actions@) =~= Seq::empty());
        let count = match self.stage {
            Stage::Moves => plan.moves.len(),
            Stage::Trashes => plan.trashes.len(),
            Stage::Copies => plan.copies.len(),
            Stage::Done => 0,
        };
        let i = self.next;
        if i >= count {
            self.stage = match self.stage {
                Stage::Moves => Stage::Trashes,
                Stage::Trashes => Stage::Copies,
                _ => Stage::Done,
            };
            self.next = 0;
            return actions;
        }
        if i == 0 {
            push_action(&mut actions, Action::Say(stage_headline(plan, self.stage, timestamp)));
        }
        let ghost head = steps(actions@);
        match self.stage {
            Stage::Moves => execute_moves(plan, i, exists, &self.inline_trashed, &mut actions),
            Stage::Trashes => execute_trashes(plan, i, exists, &self.inline_trashed, &mut actions),
            Stage::Copies => execute_copies(plan, i, a_idx, &mut actions),
            Stage::Done => {},
        }
        self.next = i + 1;
        proof {
            assert(steps(actions@) =~= head + entry_steps(plan@, a_idx@, old(self)@, exists));
            assert(steps(actions@) =~= next_steps(
                plan@,
                a_idx@,
                timestamp@,
                old(self)@,
                exists,
            ));
        }
        actions
    }

    /// Notes that an operation of the last step has been performed.
    pub fn performed(&mut self, action: &Action)
        ensures
            final(self)@ == operation_done(old(self)@, action@),
    {
        if self.stage == Stage::Moves {
            match action {
                Action::MoveToTrash(path) => {
                    self.inline_trashed.insert(path.clone());
                },
                _ => {},
            }
        }
    }
}

fn stage_headline(plan: &SyncPlan, stage: Stage, timestamp: &str) -> (line: Line)
    ensures
        line@ == seq![(Tone::Cyan, headline_text(plan@, stage, timestamp@))],
{
    let mut text = String::new();
    match stage {
        Stage::Moves => {
            text.append("正在执行 B 内部移动（");
            push_decimal(&mut text, plan.moves.len() as u64);
            text.append(" 个）...");
        },
        Stage::Trashes => {
            text.append("正在移到回收站（");
            push_decimal(&mut text, plan.trashes.len() as u64);
            text.append(" 个）→ ");
            text.append(trash_folder_name(timestamp).as_str());
            text.append("/");
        },
        Stage::Copies => {
            text.append("正在从 A 复制到 B（");
            push_decimal(&mut text, plan.copies.len() as u64);
            text.append(" 个文件）...");
        },
        Stage::Done => {},
    }
    assert(text@ =~= headline_text(plan@, stage, timestamp@));
    let line = Line::new().with(Tone::Cyan, text.as_str());
    assert(line@ =~= seq![(Tone::Cyan, headline_text(plan@, stage, timestamp@))]);
    line
}

/// What a run says when an operation of a stage fails.
pub open spec fn failure_text(stage: Stage, error: Seq<char>) -> Seq<char> {
    match stage {
        Stage::Moves => "移动操作失败："@ + error,
        Stage::Trashes => "Trash 操作失败："@ + error,
        Stage::Copies => "复制操作失败："@ + error,
        Stage::Done => error,
    }
}

/// The line to show when an operation of a stage fails.
pub fn failure_line(stage: Stage, error: &str) -> (line: Line)
    ensures
        line@ == seq![(Tone::Red, failure_text(stage, error@))],
{
    let mut text = String::new();
    match stage {
        Stage::Moves => text.append("移动操作失败："),
        Stage::Trashes => text.append("Trash 操作失败："),
        Stage::Copies => text.append("复制操作失败："),
        Stage::Done => {},
    }
    text.append(error);
    assert(text@ =~= failure_text(stage, error@));
    let line = Line::new().with(Tone::Red, text.as_str());
    assert(line@ =~= seq![(Tone::Red, failure_text(stage, error@))]);
    line
}

} // verus!
