//! What holds of the operations that a run hands out.
use vstd::prelude::*;
use vstd::string::*;

use crate::display::Tone;
use crate::execute::{
    Action, Progress, Stage, Step, entry_steps, failure_text, next_progress, next_steps,
    operation_done, probe_path, steps,
};
use crate::index::IndexModel;
use crate::plan::PlanModel;
use crate::size::size_text;
use crate::text::decimal;

verus! {

/// Whether an operation of the list before the `i`-th one is `step`.
pub open spec fn comes_before(list: Seq<Step>, i: int, step: Step) -> bool {
    exists|j: int| 0 <= j < i && #[trigger] list[j] == step
}

/// In every step of a run the folder comes before the file: what puts a file at a path of the
/// target follows an operation that creates the folder there, and what puts a file into the
/// trash follows one that creates its folder in the trash.
pub proof fn folders_come_before_files(
    plan: PlanModel,
    a: IndexModel,
    timestamp: Seq<char>,
    at: Progress,
    exists: bool,
    i: int,
)
    requires
        0 <= i < next_steps(plan, a, timestamp, at, exists).len(),
    ensures
        ({
            let list = next_steps(plan, a, timestamp, at, exists);
            match list[i] {
                Step::Copy(path) => comes_before(list, i, Step::MakeParent(path)),
                Step::Move(_, path) => comes_before(list, i, Step::MakeParent(path)),
                Step::TakeBack(_, path) => comes_before(list, i, Step::MakeParent(path)),
                Step::MoveToTrash(path) => comes_before(list, i, Step::MakeTrashParent(path)),
                _ => true,
            }
        }),
{
    let list = next_steps(plan, a, timestamp, at, exists);
    assert(list[i] is Copy || list[i] is Move || list[i] is TakeBack || list[i] is MoveToTrash
        ==> i > 0);
    if i > 0 {
        let j = i - 1;
        assert(list[j] == list[i - 1]);
    }
}

/// Whether an operation moves or copies a file.
pub open spec fn touches_file(step: Step) -> bool {
    step is Move || step is TakeBack || step is MoveToTrash || step is Copy
}

/// A step over a move trashes the file at the new path, if one is there and the path is not
/// cleared yet, then moves the file: from the trash where its old path was cleared, and else
/// from that path. It touches no other file.
pub proof fn move_step_touches(
    plan: PlanModel,
    a: IndexModel,
    timestamp: Seq<char>,
    at: Progress,
    exists: bool,
)
    requires
        at.stage == Stage::Moves,
        at.next < plan.moves.len(),
    ensures
        ({
            let (source, dest) = plan.moves[at.next as int];
            let moving = if at.inline_trashed.contains(source) {
                Step::TakeBack(source, dest)
            } else {
                Step::Move(source, dest)
            };
            next_steps(plan, a, timestamp, at, exists).filter(|s: Step| touches_file(s)) == if exists
                && !at.inline_trashed.contains(dest) {
                seq![Step::MoveToTrash(dest), moving]
            } else {
                seq![moving]
            }
        }),
{
    let list = next_steps(plan, a, timestamp, at, exists);
    let pick = |s: Step| touches_file(s);
    filter_unrolls(list, pick);
}

/// A step over a path to trash moves its file to the trash, if it is there and no move has
/// cleared the path. It touches no other file.
pub proof fn trash_step_touches(
    plan: PlanModel,
    a: IndexModel,
    timestamp: Seq<char>,
    at: Progress,
    exists: bool,
)
    requires
        at.stage == Stage::Trashes,
        at.next < plan.trashes.len(),
    ensures
        ({
            let path = plan.trashes[at.next as int];
            next_steps(plan, a, timestamp, at, exists).filter(|s: Step| touches_file(s)) == if exists
                && !at.inline_trashed.contains(path) {
                seq![Step::MoveToTrash(path)]
            } else {
                seq![]
            }
        }),
{
    let list = next_steps(plan, a, timestamp, at, exists);
    let pick = |s: Step| touches_file(s);
    filter_unrolls(list, pick);
}

/// A step over a copy copies its file, and touches no other.
pub proof fn copy_step_touches(
    plan: PlanModel,
    a: IndexModel,
    timestamp: Seq<char>,
    at: Progress,
    exists: bool,
)
    requires
        at.stage == Stage::Copies,
        at.next < plan.copies.len(),
    ensures
        next_steps(plan, a, timestamp, at, exists).filter(|s: Step| touches_file(s)) == seq![
            Step::Copy(plan.copies[at.next as int]),
        ],
{
    let list = next_steps(plan, a, timestamp, at, exists);
    let pick = |s: Step| touches_file(s);
    filter_unrolls(list, pick);
}

/// What is picked from a list of at most six operations.
proof fn filter_unrolls(list: Seq<Step>, pick: spec_fn(Step) -> bool)
    requires
        list.len() <= 6,
    ensures
        list.filter(pick) == picked(list, 0, pick) + picked(list, 1, pick) + picked(list, 2, pick)
            + picked(list, 3, pick) + picked(list, 4, pick) + picked(list, 5, pick),
{
    let none = Seq::<Step>::empty();
    let l1 = picked(list, 0, pick);
    let l2 = l1 + picked(list, 1, pick);
    let l3 = l2 + picked(list, 2, pick);
    let l4 = l3 + picked(list, 3, pick);
    let l5 = l4 + picked(list, 4, pick);
    filter_grows(list, 0, pick, none);
    assert(none + picked(list, 0, pick) =~= l1);
    filter_grows(list, 1, pick, l1);
    filter_grows(list, 2, pick, l2);
    filter_grows(list, 3, pick, l3);
    filter_grows(list, 4, pick, l4);
    filter_grows(list, 5, pick, l5);
    assert(list.take(6int) =~= list || list.len() < 6);
    assert(upto(list, 6) =~= list);
}

/// The first `k` operations of a list, or all where there are fewer.
spec fn upto(list: Seq<Step>, k: int) -> Seq<Step> {
    if k < list.len() {
        list.take(k)
    } else {
        list
    }
}

spec fn picked(list: Seq<Step>, i: int, pick: spec_fn(Step) -> bool) -> Seq<Step> {
    if i < list.len() && pick(list[i]) {
        seq![list[i]]
    } else {
        seq![]
    }
}

proof fn filter_grows(list: Seq<Step>, i: int, pick: spec_fn(Step) -> bool, before: Seq<Step>)
    requires
        0 <= i,
        i == 0 ==> before.len() == 0,
        i > 0 ==> upto(list, i).filter(pick) == before,
    ensures
        upto(list, i + 1).filter(pick) == before + picked(list, i, pick),
{
    reveal_with_fuel(Seq::filter, 2);
    if i < list.len() {
        let longer = upto(list, i + 1);
        assert(longer =~= list.take(i + 1));
        assert(longer.drop_last() =~= list.take(i));
        assert(longer.last() == list[i]);
        if i == 0 {
            assert(list.take(0) =~= Seq::empty());
            assert(list.take(0).filter(pick) =~= before);
        }
        assert(longer.filter(pick) =~= before + picked(list, i, pick));
    } else {
        assert(upto(list, i + 1) == upto(list, i));
        if i == 0 {
            assert(upto(list, 1).len() == 0);
        }
        assert(upto(list, i + 1).filter(pick) =~= before + picked(list, i, pick));
    }
}

/// A move is reported by its line when it is done, a copy by its own with the size of the
/// file, and a trashed file by its own; nothing follows the line.
pub proof fn steps_end_with_their_lines(
    plan: PlanModel,
    a: IndexModel,
    timestamp: Seq<char>,
    at: Progress,
    exists: bool,
)
    ensures
        ({
            let list = next_steps(plan, a, timestamp, at, exists);
            let i = at.next as int;
            &&& at.stage == Stage::Moves && i < plan.moves.len() ==> list.len() > 0 && list.last()
                == Step::Say(
                seq![
                    (Tone::Plain, "  "@),
                    (Tone::Green, "mv"@),
                    (Tone::Plain, "  "@),
                    (Tone::Dimmed, plan.moves[i].0),
                    (Tone::Plain, "  →  "@),
                    (Tone::Plain, plan.moves[i].1),
                ],
            )
            &&& at.stage == Stage::Trashes && i < plan.trashes.len() && exists
                && !at.inline_trashed.contains(plan.trashes[i]) ==> list.len() > 0 && list.last()
                == Step::Say(
                seq![
                    (Tone::Plain, "  "@),
                    (Tone::Red, "trash"@),
                    (Tone::Plain, "  "@),
                    (Tone::Plain, plan.trashes[i]),
                ],
            )
            &&& at.stage == Stage::Copies && i < plan.copies.len() ==> list.len() > 0 && list.last()
                == Step::Say(
                seq![
                    (Tone::Plain, "  "@),
                    (Tone::Yellow, "cp"@),
                    (Tone::Plain, "  "@),
                    (Tone::Plain, plan.copies[i]),
                    (Tone::Plain, "  "@),
                    (
                        Tone::Dimmed,
                        "("@ + size_text(
                            if a.sizes.contains_key(plan.copies[i]) {
                                a.sizes[plan.copies[i]] as nat
                            } else {
                                0
                            },
                        ) + ")"@,
                    ),
                ],
            )
        }),
{
    let list = next_steps(plan, a, timestamp, at, exists);
    let entry = entry_steps(plan, a, at, exists);
    if list.len() > 0 && entry.len() > 0 {
        assert(list.last() == entry.last());
    }
}

/// A stage with entries begins with its headline, which tells how many there are; no other
/// step has one, and a step says at most one more line.
pub proof fn stages_begin_with_their_headlines(
    plan: PlanModel,
    a: IndexModel,
    timestamp: Seq<char>,
    at: Progress,
    exists: bool,
)
    ensures
        ({
            let list = next_steps(plan, a, timestamp, at, exists);
            let said = list.filter(|s: Step| s is Say);
            &&& at.stage == Stage::Moves && at.next == 0 && plan.moves.len() > 0 ==> list.len() > 0
                && list[0] == Step::Say(
                seq![
                    (
                        Tone::Cyan,
                        "正在执行 B 内部移动（"@ + decimal(plan.moves.len()) + " 个）..."@,
                    ),
                ],
            )
            &&& at.stage == Stage::Trashes && at.next == 0 && plan.trashes.len() > 0 ==> list.len()
                > 0 && list[0] == Step::Say(
                seq![
                    (
                        Tone::Cyan,
                        "正在移到回收站（"@ + decimal(plan.trashes.len()) + " 个）→ "@ + (
                        "_trash_"@ + timestamp) + "/"@,
                    ),
                ],
            )
            &&& at.stage == Stage::Copies && at.next == 0 && plan.copies.len() > 0 ==> list.len()
                > 0 && list[0] == Step::Say(
                seq![
                    (
                        Tone::Cyan,
                        "正在从 A 复制到 B（"@ + decimal(plan.copies.len()) + " 个文件）..."@,
                    ),
                ],
            )
            &&& said.len() <= if at.next == 0 {
                2int
            } else {
                1int
            }
        }),
{
    let list = next_steps(plan, a, timestamp, at, exists);
    filter_unrolls(list, |s: Step| s is Say);
}

/// A run goes through the moves, the files to trash and the copies, each list from its first
/// entry to its last, one entry a step; a step at the end of a list does nothing but go on to
/// the next list.
pub proof fn runs_go_through_every_entry(
    plan: PlanModel,
    a: IndexModel,
    timestamp: Seq<char>,
    at: Progress,
    exists: bool,
)
    ensures
        ({
            let count = match at.stage {
                Stage::Moves => plan.moves.len(),
                Stage::Trashes => plan.trashes.len(),
                Stage::Copies => plan.copies.len(),
                Stage::Done => 0,
            };
            let after = next_progress(plan, at);
            &&& after.inline_trashed == at.inline_trashed
            &&& at.next < count ==> after.stage == at.stage && after.next == at.next + 1
            &&& at.next >= count ==> {
                &&& after.next == 0
                &&& at.stage == Stage::Moves ==> after.stage == Stage::Trashes
                &&& at.stage == Stage::Trashes ==> after.stage == Stage::Copies
                &&& at.stage == Stage::Copies ==> after.stage == Stage::Done
                &&& at.stage == Stage::Done ==> after.stage == Stage::Done
                &&& next_steps(plan, a, timestamp, at, exists).len() == 0
            }
        }),
{
}

/// A run asks whether the new path of the next move exists, or the next path to trash, unless
/// a move has cleared that one; it asks about no other path.
pub proof fn runs_ask_about_the_next_path(plan: PlanModel, at: Progress)
    ensures
        probe_path(plan, at) == if at.stage == Stage::Moves && at.next < plan.moves.len() {
            Some(plan.moves[at.next as int].1)
        } else if at.stage == Stage::Trashes && at.next < plan.trashes.len()
            && !at.inline_trashed.contains(plan.trashes[at.next as int]) {
            Some(plan.trashes[at.next as int])
        } else {
            None
        },
{
}

/// Only a file that a move puts into the trash clears a path, and it clears its own.
pub proof fn one_operation_clears_one_path(at: Progress, step: Step)
    ensures
        operation_done(at, step).stage == at.stage,
        operation_done(at, step).next == at.next,
        operation_done(at, step).inline_trashed == match step {
            Step::MoveToTrash(path) => if at.stage == Stage::Moves {
                at.inline_trashed.insert(path)
            } else {
                at.inline_trashed
            },
            _ => at.inline_trashed,
        },
{
}

/// A failure is told by its stage and by what went wrong.
pub proof fn failures_tell_what_went_wrong(error: Seq<char>)
    ensures
        failure_text(Stage::Moves, error) == "移动操作失败："@ + error,
        failure_text(Stage::Trashes, error) == "Trash 操作失败："@ + error,
        failure_text(Stage::Copies, error) == "复制操作失败："@ + error,
{
}

/// The operations that a list of actions stands for are those of the actions, one for each
/// and in their order, with the paths and lines that they hold.
pub proof fn actions_stand_for_operations(actions: Seq<Action>, i: int)
    requires
        0 <= i < actions.len(),
    ensures
        steps(actions).len() == actions.len(),
        steps(actions)[i] == match actions[i] {
            Action::Say(line) => Step::Say(line@),
            Action::MakeTrashParent(path) => Step::MakeTrashParent(path@),
            Action::MoveToTrash(path) => Step::MoveToTrash(path@),
            Action::MakeParent(path) => Step::MakeParent(path@),
            Action::Move(source, dest) => Step::Move(source@, dest@),
            Action::TakeBack(source, dest) => Step::TakeBack(source@, dest@),
            Action::Copy(path) => Step::Copy(path@),
        },
{
}

/// A step creates a folder only for a file that it then puts there.
pub proof fn folders_are_made_for_files(
    plan: PlanModel,
    a: IndexModel,
    timestamp: Seq<char>,
    at: Progress,
    exists: bool,
    i: int,
)
    requires
        0 <= i < next_steps(plan, a, timestamp, at, exists).len(),
    ensures
        ({
            let list = next_steps(plan, a, timestamp, at, exists);
            match list[i] {
                Step::MakeTrashParent(path) => i + 1 < list.len() && list[i + 1]
                    == Step::MoveToTrash(path),
                Step::MakeParent(path) => i + 1 < list.len() && match list[i + 1] {
                    Step::Copy(dest) => dest == path,
                    Step::Move(_, dest) => dest == path,
                    Step::TakeBack(_, dest) => dest == path,
                    _ => false,
                },
                _ => true,
            }
        }),
{
}

} // verus!
