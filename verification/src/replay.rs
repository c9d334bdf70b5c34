//! What carrying out a plan does to the files, followed on a model of the disk.
//!
//! The model knows files by their paths and takes it that no file stands where the path of
//! another needs a folder, and that the operations fail only where their file is missing.
use vstd::prelude::*;

use crate::display::size_or_zero;
use crate::execute::{
    Progress, Stage, Step, copy_steps, entry_steps, move_steps, next_progress, next_steps,
    only_trashed_paths_are_cleared, operations_done, probe_path, stage_len, trash_steps,
};
use crate::index::IndexModel;
use crate::paths::trash_folder;
use crate::plan::{PlanModel, in_sync, is_plan, moved_away, stale, wanted};
use crate::plan_laws::{
    empty_plan_means_in_sync, every_source_file_is_placed_once, files_in_sync_stay, moved_to,
    moves_keep_name_and_size, plan_counts_every_source_file, plan_repeats_nothing,
};

verus! {

/// Where the contents of a file come from: the file that stood at a path of the source, or
/// of the target, when the run began.
pub enum Origin {
    Source(Seq<char>),
    Target(Seq<char>),
}

/// The files of the target, and those of the run's trash folder, by their paths.
#[verifier::ext_equal]
pub struct Disk {
    pub target: Map<Seq<char>, Origin>,
    pub trash: Map<Seq<char>, Origin>,
}

/// The disk before a run on the target `b`: every file at its place, the trash empty.
pub open spec fn disk_before(b: IndexModel) -> Disk {
    Disk {
        target: Map::new(
            |path: Seq<char>| b.sizes.contains_key(path),
            |path: Seq<char>| Origin::Target(path),
        ),
        trash: Map::empty(),
    }
}

/// The disk after one operation; none where it fails because its file is not there. A file
/// at the new path is overwritten. Folders are made as needed.
pub open spec fn perform(a: IndexModel, disk: Disk, step: Step) -> Option<Disk> {
    match step {
        Step::Say(_) => Some(disk),
        Step::MakeTrashParent(_) => Some(disk),
        Step::MakeParent(_) => Some(disk),
        Step::MoveToTrash(path) => if disk.target.contains_key(path) {
            Some(
                Disk {
                    target: disk.target.remove(path),
                    trash: disk.trash.insert(path, disk.target[path]),
                },
            )
        } else {
            None
        },
        Step::Move(source, dest) => if disk.target.contains_key(source) {
            Some(
                Disk {
                    target: disk.target.remove(source).insert(dest, disk.target[source]),
                    trash: disk.trash,
                },
            )
        } else {
            None
        },
        Step::TakeBack(source, dest) => if disk.trash.contains_key(source) {
            Some(
                Disk {
                    target: disk.target.insert(dest, disk.trash[source]),
                    trash: disk.trash.remove(source),
                },
            )
        } else {
            None
        },
        Step::Copy(path) => if a.sizes.contains_key(path) {
            Some(
                Disk {
                    target: disk.target.insert(path, Origin::Source(path)),
                    trash: disk.trash,
                },
            )
        } else {
            None
        },
    }
}

/// The disk after a list of operations.
pub open spec fn perform_all(a: IndexModel, disk: Disk, list: Seq<Step>) -> Option<Disk>
    decreases list.len(),
{
    if list.len() == 0 {
        Some(disk)
    } else {
        match perform(a, disk, list[0]) {
            Some(next) => perform_all(a, next, list.drop_first()),
            None => None,
        }
    }
}

/// How many stages come at or after `stage`.
pub open spec fn stages_left(stage: Stage) -> nat {
    match stage {
        Stage::Moves => 3,
        Stage::Trashes => 2,
        Stage::Copies => 1,
        Stage::Done => 0,
    }
}

/// Whether the path that the next step asks about exists.
pub open spec fn probed(plan: PlanModel, at: Progress, disk: Disk) -> bool {
    match probe_path(plan, at) {
        Some(path) => disk.target.contains_key(path),
        None => false,
    }
}

/// How far a run has come, and what it has made of the disk.
pub struct RunState {
    pub at: Progress,
    pub disk: Disk,
}

/// How many operations a run may still perform, if there is a limit, when `count` more are
/// performed.
pub open spec fn left(limit: Option<nat>, count: nat) -> Option<nat> {
    match limit {
        Some(n) => Some((n - count) as nat),
        None => None,
    }
}

/// How far a run comes from `at` on, and what it makes of the disk; none where an operation
/// fails. Without a limit the run takes all its steps; with one it is cut short when it has
/// performed that many operations.
pub open spec fn run_from(
    a: IndexModel,
    plan: PlanModel,
    timestamp: Seq<char>,
    at: Progress,
    disk: Disk,
    limit: Option<nat>,
) -> Option<RunState>
    decreases stages_left(at.stage), stage_len(plan, at.stage) - at.next,
{
    if at.stage == Stage::Done {
        Some(RunState { at, disk })
    } else {
        let all = next_steps(plan, a, timestamp, at, probed(plan, at, disk));
        let is_cut = limit is Some && limit->0 < all.len();
        let list = if is_cut {
            all.take(limit->0 as int)
        } else {
            all
        };
        let reached = operations_done(next_progress(plan, at), list);
        match perform_all(a, disk, list) {
            Some(next) => if is_cut {
                Some(RunState { at: reached, disk: next })
            } else {
                proof {
                    only_trashed_paths_are_cleared(next_progress(plan, at), list);
                }
                run_from(a, plan, timestamp, reached, next, left(limit, list.len()))
            },
            None => None,
        }
    }
}

/// The start of a run.
pub open spec fn run_start() -> Progress {
    Progress { stage: Stage::Moves, next: 0, inline_trashed: Set::empty() }
}

/// A run on the target `b`, from its start.
pub open spec fn run(
    a: IndexModel,
    b: IndexModel,
    plan: PlanModel,
    timestamp: Seq<char>,
    limit: Option<nat>,
) -> Option<RunState> {
    run_from(a, plan, timestamp, run_start(), disk_before(b), limit)
}

/// Whether the file that stood at `path` of the target is still on the disk.
pub open spec fn kept(disk: Disk, path: Seq<char>) -> bool {
    ||| exists|q: Seq<char>| #[trigger]
        disk.target.contains_key(q) && disk.target[q] == Origin::Target(path)
    ||| exists|q: Seq<char>| #[trigger]
        disk.trash.contains_key(q) && disk.trash[q] == Origin::Target(path)
}

/// Every file of the target is still on the disk.
spec fn all_kept(b: IndexModel, disk: Disk) -> bool {
    forall|p: Seq<char>| #[trigger] b.sizes.contains_key(p) ==> kept(disk, p)
}

/// Whether an operation finds its file and overwrites none.
spec fn is_safe(a: IndexModel, disk: Disk, step: Step) -> bool {
    match step {
        Step::MoveToTrash(path) => disk.target.contains_key(path) && !disk.trash.contains_key(path),
        Step::Move(source, dest) => disk.target.contains_key(source) && !disk.target.contains_key(
            dest,
        ),
        Step::TakeBack(source, dest) => disk.trash.contains_key(source)
            && !disk.target.contains_key(dest),
        Step::Copy(path) => a.sizes.contains_key(path) && !disk.target.contains_key(path),
        _ => true,
    }
}

/// Whether each operation of a list, in its turn, finds its file and overwrites none.
spec fn are_safe(a: IndexModel, disk: Disk, list: Seq<Step>) -> bool
    decreases list.len(),
{
    list.len() == 0 || (is_safe(a, disk, list[0]) && are_safe(
        a,
        perform(a, disk, list[0])->0,
        list.drop_first(),
    ))
}

proof fn safe_step_keeps(a: IndexModel, b: IndexModel, disk: Disk, step: Step)
    requires
        is_safe(a, disk, step),
        all_kept(b, disk),
    ensures
        perform(a, disk, step) is Some,
        all_kept(b, perform(a, disk, step)->0),
{
    let next = perform(a, disk, step)->0;
    assert forall|p: Seq<char>| #[trigger] b.sizes.contains_key(p) implies kept(next, p) by {
        assert(kept(disk, p));
        if exists|q: Seq<char>| #[trigger]
            disk.target.contains_key(q) && disk.target[q] == Origin::Target(p) {
            let q = choose|q: Seq<char>| #[trigger]
                disk.target.contains_key(q) && disk.target[q] == Origin::Target(p);
            match step {
                Step::MoveToTrash(path) if path == q => {
                    assert(next.trash.contains_key(q));
                },
                Step::Move(source, dest) if source == q => {
                    assert(next.target.contains_key(dest));
                },
                _ => {
                    assert(next.target.contains_key(q));
                },
            }
        } else {
            let q = choose|q: Seq<char>| #[trigger]
                disk.trash.contains_key(q) && disk.trash[q] == Origin::Target(p);
            match step {
                Step::TakeBack(source, dest) if source == q => {
                    assert(next.target.contains_key(dest));
                },
                _ => {
                    assert(next.trash.contains_key(q));
                },
            }
        }
    }
}

/// Safe operations lose no file, wherever they are cut short.
proof fn safe_steps_keep(a: IndexModel, b: IndexModel, disk: Disk, list: Seq<Step>, n: int)
    requires
        are_safe(a, disk, list),
        all_kept(b, disk),
        0 <= n <= list.len(),
    ensures
        perform_all(a, disk, list.take(n)) is Some,
        all_kept(b, perform_all(a, disk, list.take(n))->0),
    decreases n,
{
    if n > 0 {
        safe_step_keeps(a, b, disk, list[0]);
        let next = perform(a, disk, list[0])->0;
        safe_steps_keep(a, b, next, list.drop_first(), n - 1);
        assert(list.take(n).drop_first() =~= list.drop_first().take(n - 1));
    }
}

/// What the moves of a plan are known to be.
spec fn sound_moves(a: IndexModel, b: IndexModel, moves: Seq<(Seq<char>, Seq<char>)>) -> bool {
    &&& forall|i: int, j: int|
        #![trigger moves[i], moves[j]]
        0 <= i < j < moves.len() ==> moves[i].0 != moves[j].0 && moves[i].1 != moves[j].1
    &&& forall|i: int|
        0 <= i < moves.len() ==> {
            &&& b.sizes.contains_key((#[trigger] moves[i]).0)
            &&& !in_sync(a, b, moves[i].0)
            &&& wanted(a, b, moves[i].1)
            &&& moves[i].0 != moves[i].1
            &&& b.sizes[moves[i].0] == a.sizes[moves[i].1]
        }
}

/// Whether one of the first `k` moves brings a file to `path`.
#[verifier::opaque]
spec fn filled(moves: Seq<(Seq<char>, Seq<char>)>, k: int, path: Seq<char>) -> bool {
    exists|j: int| 0 <= j < k && (#[trigger] moves[j]).1 == path
}

/// Whether one of the first `k` moves takes the file that stood at `path`.
#[verifier::opaque]
spec fn emptied(moves: Seq<(Seq<char>, Seq<char>)>, k: int, path: Seq<char>) -> bool {
    exists|j: int| 0 <= j < k && (#[trigger] moves[j]).0 == path
}

/// What the first `k` moves trashed stood in the way of one of them, and is in the trash
/// until one of them takes it.
spec fn trash_known(
    b: IndexModel,
    moves: Seq<(Seq<char>, Seq<char>)>,
    k: int,
    inline: Set<Seq<char>>,
    disk: Disk,
) -> bool {
    &&& forall|p: Seq<char>| #[trigger]
        inline.contains(p) ==> b.sizes.contains_key(p) && filled(moves, k, p)
    &&& forall|p: Seq<char>| #[trigger]
        disk.trash.contains_key(p) <==> inline.contains(p) && !emptied(moves, k, p)
    &&& forall|p: Seq<char>| #[trigger]
        disk.trash.contains_key(p) ==> disk.trash[p] == Origin::Target(p)
}

/// Paths that none of the first `k` moves filled hold what they held, unless one took it.
spec fn unfilled_known(
    b: IndexModel,
    moves: Seq<(Seq<char>, Seq<char>)>,
    k: int,
    disk: Disk,
) -> bool {
    forall|p: Seq<char>|
        !filled(moves, k, p) ==> {
            &&& #[trigger] disk.target.contains_key(p) <==> b.sizes.contains_key(p) && !emptied(
                moves,
                k,
                p,
            )
            &&& disk.target.contains_key(p) ==> disk.target[p] == Origin::Target(p)
        }
}

/// Whether the new path of each of the first `k` moves holds the file that stood at its old
/// path when the run began.
pub open spec fn moves_brought(moves: Seq<(Seq<char>, Seq<char>)>, k: int, disk: Disk) -> bool {
    forall|j: int|
        0 <= j < k ==> disk.target.contains_key((#[trigger] moves[j]).1)
            && disk.target[moves[j].1] == Origin::Target(moves[j].0)
}

/// A file of the target at a path that one of the first `k` moves filled was taken or
/// trashed.
spec fn cleared_known(
    b: IndexModel,
    moves: Seq<(Seq<char>, Seq<char>)>,
    k: int,
    inline: Set<Seq<char>>,
) -> bool {
    forall|j: int|
        0 <= j < k && b.sizes.contains_key((#[trigger] moves[j]).1) && !emptied(
            moves,
            k,
            moves[j].1,
        ) ==> inline.contains(moves[j].1)
}

/// The disk after the first `k` moves.
spec fn after_moves(
    b: IndexModel,
    moves: Seq<(Seq<char>, Seq<char>)>,
    k: int,
    inline: Set<Seq<char>>,
    disk: Disk,
) -> bool {
    &&& trash_known(b, moves, k, inline, disk)
    &&& unfilled_known(b, moves, k, disk)
    &&& moves_brought(moves, k, disk)
    &&& cleared_known(b, moves, k, inline)
}

/// The disk when the new path of a move is cleared.
spec fn cleared_disk(disk: Disk, dest: Seq<char>) -> Disk {
    if disk.target.contains_key(dest) {
        Disk {
            target: disk.target.remove(dest),
            trash: disk.trash.insert(dest, disk.target[dest]),
        }
    } else {
        disk
    }
}

/// The disk after a move whose new path is cleared first.
spec fn moved_disk(disk: Disk, source: Seq<char>, dest: Seq<char>, trashed: bool) -> Disk {
    let cleared = cleared_disk(disk, dest);
    if trashed {
        Disk {
            target: cleared.target.insert(dest, cleared.trash[source]),
            trash: cleared.trash.remove(source),
        }
    } else {
        Disk {
            target: cleared.target.remove(source).insert(dest, cleared.target[source]),
            trash: cleared.trash,
        }
    }
}

/// The cleared paths after a move.
spec fn cleared_after(inline: Set<Seq<char>>, disk: Disk, dest: Seq<char>) -> Set<Seq<char>> {
    if disk.target.contains_key(dest) {
        inline.insert(dest)
    } else {
        inline
    }
}

/// What performing the operations of one move comes to.
proof fn perform_move(
    a: IndexModel,
    disk: Disk,
    source: Seq<char>,
    dest: Seq<char>,
    displaced: bool,
    trashed: bool,
)
    requires
        source != dest,
        trashed ==> disk.trash.contains_key(source),
        !trashed ==> disk.target.contains_key(source),
        !disk.trash.contains_key(dest),
        displaced == disk.target.contains_key(dest),
    ensures
        perform_all(a, disk, move_steps(source, dest, displaced, trashed)) == Some(
            moved_disk(disk, source, dest, trashed),
        ),
        are_safe(a, disk, move_steps(source, dest, displaced, trashed)),
{
    reveal_with_fuel(perform_all, 6);
    reveal_with_fuel(are_safe, 6);
    let list = move_steps(source, dest, displaced, trashed);
    let moving = if trashed {
        Step::TakeBack(source, dest)
    } else {
        Step::Move(source, dest)
    };
    if displaced {
        assert(list.len() == 5);
        assert(list[0] == Step::MakeTrashParent(dest));
        let l1 = list.drop_first();
        assert(l1[0] == Step::MoveToTrash(dest));
        let l2 = l1.drop_first();
        assert(l2[0] == Step::MakeParent(dest));
        let l3 = l2.drop_first();
        assert(l3[0] == moving);
        assert(l3.drop_first()[0] is Say);
    } else {
        assert(list.len() == 3);
        assert(list[0] == Step::MakeParent(dest));
        let l1 = list.drop_first();
        assert(l1[0] == moving);
        assert(l1.drop_first()[0] is Say);
    }
}

/// A line shown first changes nothing.
proof fn perform_said(a: IndexModel, disk: Disk, first: Step, rest: Seq<Step>)
    requires
        first is Say,
    ensures
        perform_all(a, disk, seq![first] + rest) == perform_all(a, disk, rest),
        are_safe(a, disk, seq![first] + rest) == are_safe(a, disk, rest),
{
    assert((seq![first] + rest).drop_first() =~= rest);
}

proof fn filled_grows(moves: Seq<(Seq<char>, Seq<char>)>, k: int, p: Seq<char>)
    requires
        0 <= k < moves.len(),
    ensures
        filled(moves, k + 1, p) <==> filled(moves, k, p) || p == moves[k].1,
{
    reveal(filled);
    if filled(moves, k, p) {
        let j = choose|j: int| 0 <= j < k && (#[trigger] moves[j]).1 == p;
        assert(moves[j].1 == p);
    }
    if p == moves[k].1 {
        assert(moves[k].1 == p);
    }
}

proof fn emptied_grows(moves: Seq<(Seq<char>, Seq<char>)>, k: int, p: Seq<char>)
    requires
        0 <= k < moves.len(),
    ensures
        emptied(moves, k + 1, p) <==> emptied(moves, k, p) || p == moves[k].0,
{
    reveal(emptied);
    if emptied(moves, k, p) {
        let j = choose|j: int| 0 <= j < k && (#[trigger] moves[j]).0 == p;
        assert(moves[j].0 == p);
    }
    if p == moves[k].0 {
        assert(moves[k].0 == p);
    }
}

/// No move before the `k`-th fills its new path or takes its file.
proof fn move_is_first(a: IndexModel, b: IndexModel, moves: Seq<(Seq<char>, Seq<char>)>, k: int)
    requires
        sound_moves(a, b, moves),
        0 <= k < moves.len(),
    ensures
        !filled(moves, k, moves[k].1),
        !emptied(moves, k, moves[k].0),
{
    reveal(filled);
    reveal(emptied);
}

/// The file of the `k`-th move is in the trash where its path was cleared, and else still at
/// its path.
proof fn source_is_there(
    a: IndexModel,
    b: IndexModel,
    moves: Seq<(Seq<char>, Seq<char>)>,
    k: int,
    inline: Set<Seq<char>>,
    disk: Disk,
)
    requires
        sound_moves(a, b, moves),
        0 <= k < moves.len(),
        after_moves(b, moves, k, inline, disk),
    ensures
        ({
            let source = moves[k].0;
            if inline.contains(source) {
                disk.trash.contains_key(source) && disk.trash[source] == Origin::Target(source)
            } else {
                &&& !filled(moves, k, source)
                &&& disk.target.contains_key(source)
                &&& disk.target[source] == Origin::Target(source)
            }
        }),
{
    move_is_first(a, b, moves, k);
    let source = moves[k].0;
    assert(b.sizes.contains_key(moves[k].0));
    if inline.contains(source) {
        assert(disk.trash.contains_key(source));
    } else {
        if filled(moves, k, source) {
            reveal(filled);
            let j = choose|j: int| 0 <= j < k && (#[trigger] moves[j]).1 == source;
            assert(b.sizes.contains_key(moves[j].1));
            assert(inline.contains(moves[j].1));
        }
        assert(disk.target.contains_key(source));
    }
}

proof fn move_keeps_trash_known(
    a: IndexModel,
    b: IndexModel,
    moves: Seq<(Seq<char>, Seq<char>)>,
    k: int,
    inline: Set<Seq<char>>,
    disk: Disk,
)
    requires
        sound_moves(a, b, moves),
        0 <= k < moves.len(),
        after_moves(b, moves, k, inline, disk),
    ensures
        !inline.contains(moves[k].1),
        trash_known(
            b,
            moves,
            k + 1,
            cleared_after(inline, disk, moves[k].1),
            moved_disk(disk, moves[k].0, moves[k].1, inline.contains(moves[k].0)),
        ),
{
    let (source, dest) = moves[k];
    let next = moved_disk(disk, source, dest, inline.contains(source));
    let inline2 = cleared_after(inline, disk, dest);
    move_is_first(a, b, moves, k);
    assert(!inline.contains(dest));
    assert(source != dest) by {
        assert(moves[k].0 != moves[k].1);
    }
    assert(disk.target.contains_key(dest) ==> b.sizes.contains_key(dest) && !emptied(
        moves,
        k,
        dest,
    ));
    assert forall|p: Seq<char>| #[trigger] inline2.contains(p) implies b.sizes.contains_key(p)
        && filled(moves, k + 1, p) by {
        filled_grows(moves, k, p);
        if p != dest {
            assert(inline.contains(p));
        }
    }
    assert forall|p: Seq<char>| #[trigger]
        next.trash.contains_key(p) <==> inline2.contains(p) && !emptied(moves, k + 1, p) by {
        emptied_grows(moves, k, p);
        assert(disk.trash.contains_key(p) <==> inline.contains(p) && !emptied(moves, k, p));
    }
    assert forall|p: Seq<char>| #[trigger] next.trash.contains_key(p) implies next.trash[p]
        == Origin::Target(p) by {
        if p == dest && disk.target.contains_key(dest) {
            assert(disk.target[dest] == Origin::Target(dest));
        } else {
            assert(disk.trash.contains_key(p));
        }
    }
}

proof fn move_keeps_unfilled_known(
    a: IndexModel,
    b: IndexModel,
    moves: Seq<(Seq<char>, Seq<char>)>,
    k: int,
    inline: Set<Seq<char>>,
    disk: Disk,
)
    requires
        sound_moves(a, b, moves),
        0 <= k < moves.len(),
        after_moves(b, moves, k, inline, disk),
    ensures
        unfilled_known(
            b,
            moves,
            k + 1,
            moved_disk(disk, moves[k].0, moves[k].1, inline.contains(moves[k].0)),
        ),
{
    let (source, dest) = moves[k];
    let next = moved_disk(disk, source, dest, inline.contains(source));
    assert forall|p: Seq<char>| !filled(moves, k + 1, p) implies {
        &&& #[trigger] next.target.contains_key(p) <==> b.sizes.contains_key(p) && !emptied(
            moves,
            k + 1,
            p,
        )
        &&& next.target.contains_key(p) ==> next.target[p] == Origin::Target(p)
    } by {
        filled_grows(moves, k, p);
        emptied_grows(moves, k, p);
        assert(disk.target.contains_key(p) <==> b.sizes.contains_key(p) && !emptied(moves, k, p));
        if p == source {
            assert(!inline.contains(p));
        }
    }
}

proof fn move_keeps_moves_brought(
    a: IndexModel,
    b: IndexModel,
    moves: Seq<(Seq<char>, Seq<char>)>,
    k: int,
    inline: Set<Seq<char>>,
    disk: Disk,
)
    requires
        sound_moves(a, b, moves),
        0 <= k < moves.len(),
        after_moves(b, moves, k, inline, disk),
    ensures
        moves_brought(
            moves,
            k + 1,
            moved_disk(disk, moves[k].0, moves[k].1, inline.contains(moves[k].0)),
        ),
{
    let (source, dest) = moves[k];
    let next = moved_disk(disk, source, dest, inline.contains(source));
    source_is_there(a, b, moves, k, inline, disk);
    assert(source != dest) by {
        assert(moves[k].0 != moves[k].1);
    }
    assert forall|j: int| 0 <= j < k + 1 implies next.target.contains_key((#[trigger] moves[j]).1)
        && next.target[moves[j].1] == Origin::Target(moves[j].0) by {
        if j < k {
            assert(moves[j].1 != moves[k].1);
            assert(disk.target.contains_key(moves[j].1));
            if !inline.contains(source) {
                reveal(filled);
                assert(moves[j].1 != source);
            }
        }
    }
}

proof fn move_keeps_cleared_known(
    a: IndexModel,
    b: IndexModel,
    moves: Seq<(Seq<char>, Seq<char>)>,
    k: int,
    inline: Set<Seq<char>>,
    disk: Disk,
)
    requires
        sound_moves(a, b, moves),
        0 <= k < moves.len(),
        after_moves(b, moves, k, inline, disk),
    ensures
        cleared_known(b, moves, k + 1, cleared_after(inline, disk, moves[k].1)),
{
    let (source, dest) = moves[k];
    move_is_first(a, b, moves, k);
    let inline2 = cleared_after(inline, disk, dest);
    assert forall|j: int|
        0 <= j < k + 1 && b.sizes.contains_key((#[trigger] moves[j]).1) && !emptied(
            moves,
            k + 1,
            moves[j].1,
        ) implies inline2.contains(moves[j].1) by {
        emptied_grows(moves, k, moves[j].1);
        if j == k {
            assert(disk.target.contains_key(dest));
        }
    }
}

/// The `k`-th move succeeds, overwrites nothing and keeps what is known of the disk.
proof fn one_move(
    a: IndexModel,
    b: IndexModel,
    moves: Seq<(Seq<char>, Seq<char>)>,
    k: int,
    inline: Set<Seq<char>>,
    disk: Disk,
)
    requires
        sound_moves(a, b, moves),
        0 <= k < moves.len(),
        after_moves(b, moves, k, inline, disk),
    ensures
        ({
            let (source, dest) = moves[k];
            let displaced = disk.target.contains_key(dest);
            let trashed = inline.contains(source);
            let list = move_steps(source, dest, displaced, trashed);
            let next = moved_disk(disk, source, dest, trashed);
            &&& !inline.contains(dest)
            &&& perform_all(a, disk, list) == Some(next)
            &&& are_safe(a, disk, list)
            &&& after_moves(b, moves, k + 1, cleared_after(inline, disk, dest), next)
        }),
{
    let (source, dest) = moves[k];
    source_is_there(a, b, moves, k, inline, disk);
    move_keeps_trash_known(a, b, moves, k, inline, disk);
    assert(moves[k].0 != moves[k].1);
    assert(!disk.trash.contains_key(dest));
    perform_move(
        a,
        disk,
        source,
        dest,
        disk.target.contains_key(dest),
        inline.contains(source),
    );
    move_keeps_unfilled_known(a, b, moves, k, inline, disk);
    move_keeps_moves_brought(a, b, moves, k, inline, disk);
    move_keeps_cleared_known(a, b, moves, k, inline, disk);
}

/// What a plan is known to be.
spec fn sound_plan(a: IndexModel, b: IndexModel, plan: PlanModel) -> bool {
    &&& sound_moves(a, b, plan.moves)
    &&& plan.trashes.no_duplicates()
    &&& forall|p: Seq<char>| #[trigger]
        plan.trashes.contains(p) <==> stale(a, b, p) && !moved_away(plan.moves, p)
    &&& plan.copies.no_duplicates()
    &&& forall|p: Seq<char>|
        #![trigger plan.copies.contains(p)]
        #![trigger moved_to(plan.moves, p)]
        {
            &&& wanted(a, b, p) <==> plan.copies.contains(p) || moved_to(plan.moves, p)
            &&& !(plan.copies.contains(p) && moved_to(plan.moves, p))
        }
}

proof fn plans_are_sound(a: IndexModel, b: IndexModel, plan: PlanModel)
    requires
        a.valid(),
        b.valid(),
        b.consistent(),
        is_plan(a, b, plan),
    ensures
        sound_plan(a, b, plan),
{
    plan_repeats_nothing(a, b, plan);
    files_in_sync_stay(a, b, plan);
    assert forall|i: int| 0 <= i < plan.moves.len() implies {
        &&& b.sizes.contains_key((#[trigger] plan.moves[i]).0)
        &&& !in_sync(a, b, plan.moves[i].0)
        &&& wanted(a, b, plan.moves[i].1)
        &&& plan.moves[i].0 != plan.moves[i].1
        &&& b.sizes[plan.moves[i].0] == a.sizes[plan.moves[i].1]
    } by {
        moves_keep_name_and_size(a, b, plan, i);
    }
    assert forall|p: Seq<char>|
        #![trigger plan.copies.contains(p)]
        #![trigger moved_to(plan.moves, p)]
        {
            &&& wanted(a, b, p) <==> plan.copies.contains(p) || moved_to(plan.moves, p)
            &&& !(plan.copies.contains(p) && moved_to(plan.moves, p))
        } by {
        every_source_file_is_placed_once(a, b, plan, p);
    }
}

proof fn filled_in_the_end(moves: Seq<(Seq<char>, Seq<char>)>, p: Seq<char>)
    ensures
        filled(moves, moves.len() as int, p) <==> moved_to(moves, p),
        emptied(moves, moves.len() as int, p) <==> moved_away(moves, p),
{
    reveal(filled);
    reveal(emptied);
    if moved_to(moves, p) {
        let i = choose|i: int| 0 <= i < moves.len() && #[trigger] moves[i].1 == p;
        assert(moves[i].1 == p);
    }
    if moved_away(moves, p) {
        let i = choose|i: int| 0 <= i < moves.len() && #[trigger] moves[i].0 == p;
        assert(moves[i].0 == p);
    }
}

/// Whether the file at `p` is among the first `k` paths to trash, and no move cleared it.
spec fn discarded(plan: PlanModel, k: int, inline: Set<Seq<char>>, p: Seq<char>) -> bool {
    plan.trashes.take(k).contains(p) && !inline.contains(p)
}

/// The disk after the first `k` paths are trashed, where `d0` was the disk after the moves.
spec fn after_trashes(
    plan: PlanModel,
    k: int,
    inline: Set<Seq<char>>,
    d0: Disk,
    disk: Disk,
) -> bool {
    &&& forall|p: Seq<char>| #[trigger]
        disk.target.contains_key(p) <==> d0.target.contains_key(p) && !discarded(plan, k, inline, p)
    &&& forall|p: Seq<char>| #[trigger]
        disk.target.contains_key(p) ==> disk.target[p] == d0.target[p]
    &&& forall|p: Seq<char>| #[trigger]
        disk.trash.contains_key(p) <==> d0.trash.contains_key(p) || discarded(plan, k, inline, p)
    &&& forall|p: Seq<char>| #[trigger]
        disk.trash.contains_key(p) ==> disk.trash[p] == Origin::Target(p)
}

/// The disk after the first `k` copies, where `d1` was the disk before them.
spec fn after_copies(plan: PlanModel, k: int, d1: Disk, disk: Disk) -> bool {
    &&& forall|p: Seq<char>| #[trigger]
        disk.target.contains_key(p) <==> d1.target.contains_key(p) || plan.copies.take(k).contains(p)
    &&& forall|p: Seq<char>| #[trigger]
        disk.target.contains_key(p) ==> disk.target[p] == if plan.copies.take(k).contains(p) {
            Origin::Source(p)
        } else {
            d1.target[p]
        }
    &&& disk.trash == d1.trash
}

/// A file to trash that no move cleared still stands at its path after the moves.
proof fn trashed_file_is_there(
    a: IndexModel,
    b: IndexModel,
    plan: PlanModel,
    inline: Set<Seq<char>>,
    d0: Disk,
    p: Seq<char>,
)
    requires
        sound_plan(a, b, plan),
        after_moves(b, plan.moves, plan.moves.len() as int, inline, d0),
        plan.trashes.contains(p),
        !inline.contains(p),
    ensures
        d0.target.contains_key(p),
        d0.target[p] == Origin::Target(p),
        !moved_to(plan.moves, p),
{
    let moves = plan.moves;
    let n = moves.len() as int;
    filled_in_the_end(moves, p);
    if moved_to(moves, p) {
        let j = choose|j: int| 0 <= j < moves.len() && #[trigger] moves[j].1 == p;
        assert(b.sizes.contains_key(moves[j].1) && !emptied(moves, n, moves[j].1));
        assert(inline.contains(moves[j].1));
    }
    assert(d0.target.contains_key(p));
}

proof fn take_grows(list: Seq<Seq<char>>, k: int, p: Seq<char>)
    requires
        0 <= k < list.len(),
    ensures
        list.take(k + 1).contains(p) <==> list.take(k).contains(p) || p == list[k],
{
    let before = list.take(k);
    let after = list.take(k + 1);
    if before.contains(p) {
        let i = choose|i: int| 0 <= i < before.len() && before[i] == p;
        assert(after[i] == p);
    }
    if p == list[k] {
        assert(after[k] == p);
    }
    if after.contains(p) && p != list[k] {
        let i = choose|i: int| 0 <= i < after.len() && after[i] == p;
        assert(before[i] == p);
    }
}

/// The `k`-th path to trash keeps what is known of the disk.
proof fn one_trash(
    a: IndexModel,
    b: IndexModel,
    plan: PlanModel,
    k: int,
    inline: Set<Seq<char>>,
    d0: Disk,
    disk: Disk,
) -> (next: Disk)
    requires
        sound_plan(a, b, plan),
        after_moves(b, plan.moves, plan.moves.len() as int, inline, d0),
        0 <= k < plan.trashes.len(),
        after_trashes(plan, k, inline, d0, disk),
    ensures
        ({
            let path = plan.trashes[k];
            let present = !inline.contains(path) && disk.target.contains_key(path);
            &&& perform_all(a, disk, trash_steps(path, present)) == Some(next)
            &&& are_safe(a, disk, trash_steps(path, present))
            &&& after_trashes(plan, k + 1, inline, d0, next)
        }),
{
    let path = plan.trashes[k];
    assert(plan.trashes.contains(path));
    assert(!plan.trashes.take(k).contains(path)) by {
        if plan.trashes.take(k).contains(path) {
            let i = choose|i: int| 0 <= i < k && plan.trashes.take(k)[i] == path;
            assert(plan.trashes[i] == plan.trashes[k]);
        }
    }
    assert forall|p: Seq<char>| #[trigger] discarded(plan, k + 1, inline, p) <==> discarded(
        plan,
        k,
        inline,
        p,
    ) || (p == path && !inline.contains(p)) by {
        take_grows(plan.trashes, k, p);
    }
    if inline.contains(path) {
        assert(perform_all(a, disk, trash_steps(path, false)) == Some(disk));
        disk
    } else {
        trashed_file_is_there(a, b, plan, inline, d0, path);
        assert(!discarded(plan, k, inline, path));
        assert(disk.target.contains_key(path));
        assert(!d0.trash.contains_key(path));
        assert(!disk.trash.contains_key(path));
        let next = Disk {
            target: disk.target.remove(path),
            trash: disk.trash.insert(path, disk.target[path]),
        };
        assert(perform_all(a, disk, trash_steps(path, true)) == Some(next) && are_safe(
            a,
            disk,
            trash_steps(path, true),
        )) by {
            reveal_with_fuel(perform_all, 4);
            reveal_with_fuel(are_safe, 4);
            let list = trash_steps(path, true);
            assert(list[0] == Step::MakeTrashParent(path));
            let l1 = list.drop_first();
            assert(l1[0] == Step::MoveToTrash(path));
            assert(l1.drop_first()[0] is Say);
        }
        assert forall|p: Seq<char>| #[trigger] next.trash.contains_key(p) implies next.trash[p]
            == Origin::Target(p) by {
            if p != path {
                assert(disk.trash.contains_key(p));
            } else {
                assert(disk.target[p] == d0.target[p]);
            }
        }
        assert forall|p: Seq<char>| #[trigger] next.target.contains_key(p) implies next.target[p]
            == d0.target[p] by {
            assert(disk.target.contains_key(p));
        }
        assert forall|p: Seq<char>| #[trigger]
            next.target.contains_key(p) <==> d0.target.contains_key(p) && !discarded(
                plan,
                k + 1,
                inline,
                p,
            ) by {
            assert(disk.target.contains_key(p) <==> d0.target.contains_key(p) && !discarded(
                plan,
                k,
                inline,
                p,
            ));
        }
        assert forall|p: Seq<char>| #[trigger]
            next.trash.contains_key(p) <==> d0.trash.contains_key(p) || discarded(
                plan,
                k + 1,
                inline,
                p,
            ) by {
            assert(disk.trash.contains_key(p) <==> d0.trash.contains_key(p) || discarded(
                plan,
                k,
                inline,
                p,
            ));
        }
        next
    }
}

/// The `k`-th copy keeps what is known of the disk.
proof fn one_copy(
    a: IndexModel,
    b: IndexModel,
    plan: PlanModel,
    k: int,
    size: nat,
    d1: Disk,
    disk: Disk,
) -> (next: Disk)
    requires
        sound_plan(a, b, plan),
        0 <= k < plan.copies.len(),
        !d1.target.contains_key(plan.copies[k]),
        after_copies(plan, k, d1, disk),
    ensures
        perform_all(a, disk, copy_steps(plan.copies[k], size)) == Some(next),
        are_safe(a, disk, copy_steps(plan.copies[k], size)),
        after_copies(plan, k + 1, d1, next),
{
    let path = plan.copies[k];
    assert(plan.copies.contains(path));
    assert(!plan.copies.take(k).contains(path)) by {
        if plan.copies.take(k).contains(path) {
            let i = choose|i: int| 0 <= i < k && plan.copies.take(k)[i] == path;
            assert(plan.copies[i] == plan.copies[k]);
        }
    }
    assert(!disk.target.contains_key(path));
    let next = Disk { target: disk.target.insert(path, Origin::Source(path)), trash: disk.trash };
    assert(perform_all(a, disk, copy_steps(path, size)) == Some(next) && are_safe(
        a,
        disk,
        copy_steps(path, size),
    )) by {
        reveal_with_fuel(perform_all, 4);
        reveal_with_fuel(are_safe, 4);
        let list = copy_steps(path, size);
        assert(list[0] == Step::MakeParent(path));
        let l1 = list.drop_first();
        assert(l1[0] == Step::Copy(path));
        assert(l1.drop_first()[0] is Say);
    }
    assert forall|p: Seq<char>| #[trigger] next.target.contains_key(p) <==> d1.target.contains_key(p)
        || plan.copies.take(k + 1).contains(p) by {
        take_grows(plan.copies, k, p);
        assert(disk.target.contains_key(p) <==> d1.target.contains_key(p) || plan.copies.take(
            k,
        ).contains(p));
    }
    assert forall|p: Seq<char>| #[trigger] next.target.contains_key(p) implies next.target[p]
        == if plan.copies.take(k + 1).contains(p) {
        Origin::Source(p)
    } else {
        d1.target[p]
    } by {
        take_grows(plan.copies, k, p);
        if p != path {
            assert(disk.target.contains_key(p));
        }
    }
    next
}

/// The size of the file that an origin stands for.
pub open spec fn origin_size(a: IndexModel, b: IndexModel, origin: Origin) -> u64 {
    match origin {
        Origin::Source(path) => a.sizes[path],
        Origin::Target(path) => b.sizes[path],
    }
}

/// Whether the target on the disk is like the source: the same paths, with files of the
/// same sizes.
pub open spec fn mirrors(a: IndexModel, b: IndexModel, disk: Disk) -> bool {
    &&& disk.target.dom() == a.sizes.dom()
    &&& forall|p: Seq<char>| #[trigger]
        a.sizes.contains_key(p) ==> origin_size(a, b, disk.target[p]) == a.sizes[p]
}

/// What the disk holds at `p` when the paths to trash are cleared.
proof fn trashed_at(
    a: IndexModel,
    b: IndexModel,
    plan: PlanModel,
    inline: Set<Seq<char>>,
    d0: Disk,
    d1: Disk,
    p: Seq<char>,
)
    requires
        sound_plan(a, b, plan),
        after_moves(b, plan.moves, plan.moves.len() as int, inline, d0),
        after_trashes(plan, plan.trashes.len() as int, inline, d0, d1),
    ensures
        plan.copies.contains(p) ==> !d1.target.contains_key(p),
        moved_to(plan.moves, p) ==> (d1.target.contains_key(p) <==> d0.target.contains_key(p)),
        !plan.copies.contains(p) && !moved_to(plan.moves, p) ==> (d1.target.contains_key(p)
            <==> in_sync(a, b, p)),
{
    let moves = plan.moves;
    filled_in_the_end(moves, p);
    assert(plan.trashes.take(plan.trashes.len() as int) =~= plan.trashes);
    assert(d1.target.contains_key(p) <==> d0.target.contains_key(p) && !discarded(
        plan,
        plan.trashes.len() as int,
        inline,
        p,
    ));
    if plan.trashes.contains(p) && !inline.contains(p) {
        trashed_file_is_there(a, b, plan, inline, d0, p);
    }
    if inline.contains(p) {
        assert(moved_to(moves, p));
    }
    assert(plan.trashes.contains(p) <==> stale(a, b, p) && !moved_away(moves, p));
    if moved_away(moves, p) {
        let i = choose|i: int| 0 <= i < moves.len() && #[trigger] moves[i].0 == p;
        assert(!in_sync(a, b, moves[i].0));
    }
    if !moved_to(moves, p) {
        assert(d0.target.contains_key(p) <==> b.sizes.contains_key(p) && !moved_away(moves, p));
    }
    assert(plan.copies.contains(p) ==> wanted(a, b, p) && !moved_to(moves, p));
}

/// What the disk holds when the run is over.
proof fn end_mirrors(
    a: IndexModel,
    b: IndexModel,
    plan: PlanModel,
    inline: Set<Seq<char>>,
    d0: Disk,
    d1: Disk,
    d2: Disk,
)
    requires
        sound_plan(a, b, plan),
        after_moves(b, plan.moves, plan.moves.len() as int, inline, d0),
        after_trashes(plan, plan.trashes.len() as int, inline, d0, d1),
        after_copies(plan, plan.copies.len() as int, d1, d2),
    ensures
        mirrors(a, b, d2),
        moves_brought(plan.moves, plan.moves.len() as int, d2),
{
    let moves = plan.moves;
    assert(plan.copies.take(plan.copies.len() as int) =~= plan.copies);
    assert forall|j: int| 0 <= j < moves.len() implies d2.target.contains_key(
        (#[trigger] moves[j]).1,
    ) && d2.target[moves[j].1] == Origin::Target(moves[j].0) by {
        let p = moves[j].1;
        assert(moved_to(moves, p));
        trashed_at(a, b, plan, inline, d0, d1, p);
        assert(d0.target.contains_key(p));
        assert(d1.target.contains_key(p));
        assert(!plan.copies.contains(p));
        assert(d2.target.contains_key(p));
    }
    assert forall|p: Seq<char>| d2.target.dom().contains(p) <==> a.sizes.dom().contains(p) by {
        trashed_at(a, b, plan, inline, d0, d1, p);
        assert(d2.target.contains_key(p) <==> d1.target.contains_key(p) || plan.copies.contains(p));
        assert(wanted(a, b, p) <==> plan.copies.contains(p) || moved_to(moves, p));
        if moved_to(moves, p) {
            let j = choose|j: int| 0 <= j < moves.len() && #[trigger] moves[j].1 == p;
            assert(d2.target.contains_key(moves[j].1));
        }
    }
    assert(d2.target.dom() =~= a.sizes.dom());
    assert forall|p: Seq<char>| #[trigger] a.sizes.contains_key(p) implies origin_size(
        a,
        b,
        d2.target[p],
    ) == a.sizes[p] by {
        trashed_at(a, b, plan, inline, d0, d1, p);
        assert(d2.target.dom().contains(p));
        assert(d2.target.contains_key(p));
        assert(wanted(a, b, p) <==> plan.copies.contains(p) || moved_to(moves, p));
        if moved_to(moves, p) {
            let j = choose|j: int| 0 <= j < moves.len() && #[trigger] moves[j].1 == p;
            assert(b.sizes[moves[j].0] == a.sizes[moves[j].1]);
        } else if !plan.copies.contains(p) {
            assert(in_sync(a, b, p));
            filled_in_the_end(moves, p);
            assert(d1.target.contains_key(p));
            assert(d0.target.contains_key(p));
            assert(d0.target[p] == Origin::Target(p));
        }
    }
}

/// No operation of the run fails and no file of the target is lost; where the run is not cut
/// short, it ends with the target like the source and every moved file at its new path.
spec fn good_run(
    a: IndexModel,
    b: IndexModel,
    plan: PlanModel,
    limit: Option<nat>,
    end: Option<RunState>,
) -> bool {
    &&& end is Some
    &&& all_kept(b, end->0.disk)
    &&& limit is None ==> {
        &&& end->0.at.stage == Stage::Done
        &&& mirrors(a, b, end->0.disk)
        &&& moves_brought(plan.moves, plan.moves.len() as int, end->0.disk)
    }
}

/// Outside the moves, operations clear no path.
proof fn nothing_cleared(at: Progress, list: Seq<Step>)
    requires
        at.stage != Stage::Moves,
    ensures
        operations_done(at, list) == at,
{
    only_trashed_paths_are_cleared(at, list);
    assert(operations_done(at, list) =~= at);
}

/// A step whose operations are safe keeps every file, and the run goes on from there unless
/// it is cut short.
proof fn run_goes_on(
    a: IndexModel,
    b: IndexModel,
    plan: PlanModel,
    timestamp: Seq<char>,
    at: Progress,
    disk: Disk,
    limit: Option<nat>,
)
    requires
        at.stage != Stage::Done,
        all_kept(b, disk),
        are_safe(a, disk, next_steps(plan, a, timestamp, at, probed(plan, at, disk))),
    ensures
        ({
            let list = next_steps(plan, a, timestamp, at, probed(plan, at, disk));
            let next = perform_all(a, disk, list);
            let reached = operations_done(next_progress(plan, at), list);
            &&& next is Some
            &&& all_kept(b, next->0)
            &&& limit is Some && limit->0 < list.len() ==> good_run(
                a,
                b,
                plan,
                limit,
                run_from(a, plan, timestamp, at, disk, limit),
            )
            &&& !(limit is Some && limit->0 < list.len()) ==> run_from(
                a,
                plan,
                timestamp,
                at,
                disk,
                limit,
            ) == run_from(a, plan, timestamp, reached, next->0, left(limit, list.len()))
        }),
{
    let list = next_steps(plan, a, timestamp, at, probed(plan, at, disk));
    safe_steps_keep(a, b, disk, list, list.len() as int);
    assert(list.take(list.len() as int) =~= list);
    if limit is Some && limit->0 < list.len() {
        safe_steps_keep(a, b, disk, list, limit->0 as int);
    }
}

proof fn run_copies(
    a: IndexModel,
    b: IndexModel,
    plan: PlanModel,
    timestamp: Seq<char>,
    k: int,
    inline: Set<Seq<char>>,
    d0: Disk,
    d1: Disk,
    disk: Disk,
    limit: Option<nat>,
)
    requires
        sound_plan(a, b, plan),
        after_moves(b, plan.moves, plan.moves.len() as int, inline, d0),
        after_trashes(plan, plan.trashes.len() as int, inline, d0, d1),
        0 <= k <= plan.copies.len(),
        after_copies(plan, k, d1, disk),
        all_kept(b, disk),
    ensures
        good_run(
            a,
            b,
            plan,
            limit,
            run_from(
                a,
                plan,
                timestamp,
                Progress { stage: Stage::Copies, next: k as nat, inline_trashed: inline },
                disk,
                limit,
            ),
        ),
    decreases plan.copies.len() - k,
{
    let at = Progress { stage: Stage::Copies, next: k as nat, inline_trashed: inline };
    let exists = probed(plan, at, disk);
    let list = next_steps(plan, a, timestamp, at, exists);
    nothing_cleared(next_progress(plan, at), list);
    if k < plan.copies.len() {
        let path = plan.copies[k];
        assert(plan.copies.contains(path));
        trashed_at(a, b, plan, inline, d0, d1, path);
        let entry = entry_steps(plan, a, at, exists);
        if k == 0 {
            perform_said(a, disk, list[0], entry);
            assert(list =~= seq![list[0]] + entry);
        }
        let next = one_copy(a, b, plan, k, size_or_zero(a, path), d1, disk);
        run_goes_on(a, b, plan, timestamp, at, disk, limit);
        run_copies(
            a,
            b,
            plan,
            timestamp,
            k + 1,
            inline,
            d0,
            d1,
            next,
            left(limit, list.len()),
        );
    } else {
        run_goes_on(a, b, plan, timestamp, at, disk, limit);
        end_mirrors(a, b, plan, inline, d0, d1, disk);
    }
}

proof fn run_trashes(
    a: IndexModel,
    b: IndexModel,
    plan: PlanModel,
    timestamp: Seq<char>,
    k: int,
    inline: Set<Seq<char>>,
    d0: Disk,
    disk: Disk,
    limit: Option<nat>,
)
    requires
        sound_plan(a, b, plan),
        after_moves(b, plan.moves, plan.moves.len() as int, inline, d0),
        0 <= k <= plan.trashes.len(),
        after_trashes(plan, k, inline, d0, disk),
        all_kept(b, disk),
    ensures
        good_run(
            a,
            b,
            plan,
            limit,
            run_from(
                a,
                plan,
                timestamp,
                Progress { stage: Stage::Trashes, next: k as nat, inline_trashed: inline },
                disk,
                limit,
            ),
        ),
    decreases plan.trashes.len() - k,
{
    let at = Progress { stage: Stage::Trashes, next: k as nat, inline_trashed: inline };
    let exists = probed(plan, at, disk);
    let list = next_steps(plan, a, timestamp, at, exists);
    nothing_cleared(next_progress(plan, at), list);
    if k < plan.trashes.len() {
        let entry = entry_steps(plan, a, at, exists);
        if k == 0 {
            perform_said(a, disk, list[0], entry);
            assert(list =~= seq![list[0]] + entry);
        }
        let next = one_trash(a, b, plan, k, inline, d0, disk);
        run_goes_on(a, b, plan, timestamp, at, disk, limit);
        run_trashes(
            a,
            b,
            plan,
            timestamp,
            k + 1,
            inline,
            d0,
            next,
            left(limit, list.len()),
        );
    } else {
        run_goes_on(a, b, plan, timestamp, at, disk, limit);
        assert(plan.copies.take(0).len() == 0);
        assert(after_copies(plan, 0, disk, disk));
        run_copies(a, b, plan, timestamp, 0, inline, d0, disk, disk, left(limit, list.len()));
    }
}

/// The operations of a move clear its new path where a file stands there.
proof fn move_clears(
    at: Progress,
    list: Seq<Step>,
    source: Seq<char>,
    dest: Seq<char>,
    displaced: bool,
    trashed: bool,
)
    requires
        at.stage == Stage::Moves,
        ({
            let entry = move_steps(source, dest, displaced, trashed);
            list == entry || list.len() > 0 && list[0] is Say && list == seq![list[0]] + entry
        }),
    ensures
        operations_done(at, list).stage == at.stage,
        operations_done(at, list).next == at.next,
        operations_done(at, list).inline_trashed == if displaced {
            at.inline_trashed.insert(dest)
        } else {
            at.inline_trashed
        },
{
    only_trashed_paths_are_cleared(at, list);
    let entry = move_steps(source, dest, displaced, trashed);
    assert forall|p: Seq<char>| list.contains(Step::MoveToTrash(p)) <==> displaced && p == dest by {
        if displaced && p == dest {
            assert(entry[1] == Step::MoveToTrash(p));
            assert(list[if list == entry { 1int } else { 2int }] == Step::MoveToTrash(p));
        }
    }
    assert(operations_done(at, list).inline_trashed =~= if displaced {
        at.inline_trashed.insert(dest)
    } else {
        at.inline_trashed
    });
}

proof fn run_moves(
    a: IndexModel,
    b: IndexModel,
    plan: PlanModel,
    timestamp: Seq<char>,
    k: int,
    inline: Set<Seq<char>>,
    disk: Disk,
    limit: Option<nat>,
)
    requires
        sound_plan(a, b, plan),
        0 <= k <= plan.moves.len(),
        after_moves(b, plan.moves, k, inline, disk),
        all_kept(b, disk),
    ensures
        good_run(
            a,
            b,
            plan,
            limit,
            run_from(
                a,
                plan,
                timestamp,
                Progress { stage: Stage::Moves, next: k as nat, inline_trashed: inline },
                disk,
                limit,
            ),
        ),
    decreases plan.moves.len() - k,
{
    let at = Progress { stage: Stage::Moves, next: k as nat, inline_trashed: inline };
    let exists = probed(plan, at, disk);
    let list = next_steps(plan, a, timestamp, at, exists);
    if k < plan.moves.len() {
        let entry = entry_steps(plan, a, at, exists);
        if k == 0 {
            perform_said(a, disk, list[0], entry);
            assert(list =~= seq![list[0]] + entry);
        }
        one_move(a, b, plan.moves, k, inline, disk);
        let (source, dest) = plan.moves[k];
        let trashed = inline.contains(source);
        let next = moved_disk(disk, source, dest, trashed);
        let inline2 = cleared_after(inline, disk, dest);
        assert(entry == move_steps(source, dest, exists, trashed));
        move_clears(next_progress(plan, at), list, source, dest, exists, trashed);
        assert(operations_done(next_progress(plan, at), list) == (Progress {
            stage: Stage::Moves,
            next: (k + 1) as nat,
            inline_trashed: inline2,
        }));
        run_goes_on(a, b, plan, timestamp, at, disk, limit);
        run_moves(a, b, plan, timestamp, k + 1, inline2, next, left(limit, list.len()));
    } else {
        run_goes_on(a, b, plan, timestamp, at, disk, limit);
        nothing_cleared(next_progress(plan, at), list);
        assert(plan.trashes.take(0).len() == 0);
        assert(after_trashes(plan, 0, inline, disk, disk));
        run_trashes(a, b, plan, timestamp, 0, inline, disk, disk, left(limit, list.len()));
    }
}

proof fn whole_run(
    a: IndexModel,
    b: IndexModel,
    plan: PlanModel,
    timestamp: Seq<char>,
    limit: Option<nat>,
)
    requires
        a.valid(),
        b.valid(),
        b.consistent(),
        is_plan(a, b, plan),
    ensures
        good_run(a, b, plan, limit, run(a, b, plan, timestamp, limit)),
{
    plans_are_sound(a, b, plan);
    let disk = disk_before(b);
    let inline = Set::<Seq<char>>::empty();
    assert(after_moves(b, plan.moves, 0, inline, disk)) by {
        reveal(filled);
        reveal(emptied);
    }
    assert forall|p: Seq<char>| #[trigger] b.sizes.contains_key(p) implies kept(disk, p) by {
        assert(disk.target.contains_key(p));
    }
    run_moves(a, b, plan, timestamp, 0, inline, disk, limit);
}

/// A run never fails for want of a file, and loses no file of the target, wherever it is cut
/// short: after any number of operations each is in the target or in the trash.
pub proof fn run_loses_nothing(
    a: IndexModel,
    b: IndexModel,
    plan: PlanModel,
    timestamp: Seq<char>,
    limit: Option<nat>,
    path: Seq<char>,
)
    requires
        a.valid(),
        b.valid(),
        b.consistent(),
        is_plan(a, b, plan),
        b.sizes.contains_key(path),
    ensures
        run(a, b, plan, timestamp, limit) is Some,
        kept(run(a, b, plan, timestamp, limit)->0.disk, path),
{
    whole_run(a, b, plan, timestamp, limit);
}

/// After a run the target has the paths and sizes of the source.
pub proof fn run_mirrors_source(
    a: IndexModel,
    b: IndexModel,
    plan: PlanModel,
    timestamp: Seq<char>,
)
    requires
        a.valid(),
        b.valid(),
        b.consistent(),
        is_plan(a, b, plan),
    ensures
        run(a, b, plan, timestamp, None) is Some,
        run(a, b, plan, timestamp, None)->0.at.stage == Stage::Done,
        mirrors(a, b, run(a, b, plan, timestamp, None)->0.disk),
{
    whole_run(a, b, plan, timestamp, None);
}

/// After a run the new path of each move holds the file that stood at its old path when the
/// plan was made, also where the moves form a chain or a circle.
pub proof fn moves_bring_their_files(
    a: IndexModel,
    b: IndexModel,
    plan: PlanModel,
    timestamp: Seq<char>,
)
    requires
        a.valid(),
        b.valid(),
        b.consistent(),
        is_plan(a, b, plan),
    ensures
        run(a, b, plan, timestamp, None) is Some,
        moves_brought(
            plan.moves,
            plan.moves.len() as int,
            run(a, b, plan, timestamp, None)->0.disk,
        ),
{
    whole_run(a, b, plan, timestamp, None);
}

/// When a run has made the target like the source, the next plan has nothing to do.
pub proof fn second_run_has_nothing_to_do(
    a: IndexModel,
    b: IndexModel,
    disk: Disk,
    rescanned: IndexModel,
    plan: PlanModel,
)
    requires
        a.valid(),
        mirrors(a, b, disk),
        rescanned.sizes.dom() == disk.target.dom(),
        forall|p: Seq<char>| #[trigger]
            disk.target.contains_key(p) ==> rescanned.sizes[p] == origin_size(a, b, disk.target[p]),
        is_plan(a, rescanned, plan),
    ensures
        plan.moves.len() == 0,
        plan.copies.len() == 0,
        plan.trashes.len() == 0,
        plan.skip_count == a.sizes.dom().len(),
{
    assert(a.sizes =~= rescanned.sizes) by {
        assert forall|p: Seq<char>| a.sizes.dom().contains(p) implies a.sizes[p]
            == rescanned.sizes[p] by {
            assert(a.sizes.contains_key(p));
            assert(disk.target.dom().contains(p));
            assert(disk.target.contains_key(p));
        }
    }
    empty_plan_means_in_sync(a, rescanned, plan);
    plan_counts_every_source_file(a, rescanned, plan);
}

/// The path in the target at which a file lies when it is in the trash.
pub open spec fn place_in_trash(timestamp: Seq<char>, path: Seq<char>) -> Seq<char> {
    trash_folder(timestamp).push('/') + path
}

/// Whether `path` is `place`, or a folder that `place` lies in.
pub open spec fn leads_to(path: Seq<char>, place: Seq<char>) -> bool {
    path == place || path.push('/').is_prefix_of(place)
}

/// Whether no path to trash is the place in the trash of its own file or of one that comes
/// later in the list, nor a folder above such a place. Paths that moves have cleared do not
/// count, since a pass leaves them alone.
pub open spec fn stays_clear_of_trash(
    plan: PlanModel,
    timestamp: Seq<char>,
    inline: Set<Seq<char>>,
) -> bool {
    forall|i: int, j: int|
        0 <= i <= j < plan.trashes.len() && !inline.contains(#[trigger] plan.trashes[i])
            && !inline.contains(#[trigger] plan.trashes[j]) ==> !leads_to(
            plan.trashes[i],
            place_in_trash(timestamp, plan.trashes[j]),
        )
}

/// All files of the target, those in the trash folder among them, after the operations for
/// one path to trash; none where the file to trash is not there.
pub open spec fn files_after_steps(
    timestamp: Seq<char>,
    files: Map<Seq<char>, Origin>,
    list: Seq<Step>,
) -> Option<Map<Seq<char>, Origin>>
    decreases list.len(),
{
    if list.len() == 0 {
        Some(files)
    } else {
        match list[0] {
            Step::MoveToTrash(path) => if files.contains_key(path) {
                files_after_steps(
                    timestamp,
                    files.remove(path).insert(place_in_trash(timestamp, path), files[path]),
                    list.drop_first(),
                )
            } else {
                None
            },
            _ => files_after_steps(timestamp, files, list.drop_first()),
        }
    }
}

/// All files of the target after a pass over the paths to trash from the `k`-th on, where
/// moves have cleared the paths `inline`.
pub open spec fn files_after_trashes(
    plan: PlanModel,
    timestamp: Seq<char>,
    inline: Set<Seq<char>>,
    files: Map<Seq<char>, Origin>,
    k: nat,
) -> Option<Map<Seq<char>, Origin>>
    decreases plan.trashes.len() - k,
{
    if k >= plan.trashes.len() {
        Some(files)
    } else {
        let path = plan.trashes[k as int];
        let list = trash_steps(path, files.contains_key(path) && !inline.contains(path));
        match files_after_steps(timestamp, files, list) {
            Some(next) => files_after_trashes(plan, timestamp, inline, next, k + 1),
            None => None,
        }
    }
}

/// What the operations for one path to trash come to.
proof fn trash_one_path(
    timestamp: Seq<char>,
    files: Map<Seq<char>, Origin>,
    path: Seq<char>,
    present: bool,
)
    requires
        present ==> files.contains_key(path),
    ensures
        files_after_steps(timestamp, files, trash_steps(path, present)) == Some(
            if present {
                files.remove(path).insert(place_in_trash(timestamp, path), files[path])
            } else {
                files
            },
        ),
{
    if present {
        reveal_with_fuel(files_after_steps, 4);
        let list = trash_steps(path, true);
        assert(list[0] == Step::MakeTrashParent(path));
        let l1 = list.drop_first();
        assert(l1[0] == Step::MoveToTrash(path));
        assert(l1.drop_first()[0] is Say);
    }
}

/// Whether a pass from the `k`-th entry on may put a file at `place`.
spec fn is_place(
    plan: PlanModel,
    timestamp: Seq<char>,
    inline: Set<Seq<char>>,
    k: nat,
    place: Seq<char>,
) -> bool {
    exists|j: int|
        k <= j < plan.trashes.len() && !inline.contains(#[trigger] plan.trashes[j]) && place
            == place_in_trash(timestamp, plan.trashes[j])
}

/// A pass leaves none of its paths with a file, but for those that moves have cleared, and
/// puts files nowhere but into the trash.
proof fn trash_pass_clears(
    plan: PlanModel,
    timestamp: Seq<char>,
    inline: Set<Seq<char>>,
    files: Map<Seq<char>, Origin>,
    k: nat,
)
    requires
        stays_clear_of_trash(plan, timestamp, inline),
    ensures
        files_after_trashes(plan, timestamp, inline, files, k) is Some,
        ({
            let after = files_after_trashes(plan, timestamp, inline, files, k)->0;
            &&& forall|p: Seq<char>| #[trigger]
                after.contains_key(p) ==> files.contains_key(p) || is_place(
                    plan,
                    timestamp,
                    inline,
                    k,
                    p,
                )
            &&& forall|i: int|
                k <= i < plan.trashes.len() && !inline.contains(#[trigger] plan.trashes[i])
                    ==> !after.contains_key(plan.trashes[i])
        }),
    decreases plan.trashes.len() - k,
{
    if k < plan.trashes.len() {
        let path = plan.trashes[k as int];
        let present = files.contains_key(path) && !inline.contains(path);
        let place = place_in_trash(timestamp, path);
        trash_one_path(timestamp, files, path, present);
        let next = files_after_steps(timestamp, files, trash_steps(path, present))->0;
        trash_pass_clears(plan, timestamp, inline, next, k + 1);
        let after = files_after_trashes(plan, timestamp, inline, files, k)->0;
        assert forall|p: Seq<char>| #[trigger] after.contains_key(p) implies files.contains_key(p)
            || is_place(plan, timestamp, inline, k, p) by {
            if is_place(plan, timestamp, inline, k + 1, p) {
                let j = choose|j: int|
                    k + 1 <= j < plan.trashes.len() && !inline.contains(#[trigger] plan.trashes[j])
                        && p == place_in_trash(timestamp, plan.trashes[j]);
                assert(!inline.contains(plan.trashes[j]));
            } else if !files.contains_key(p) {
                assert(next.contains_key(p));
                assert(!inline.contains(plan.trashes[k as int]) && p == place);
            }
        }
        if !inline.contains(path) && after.contains_key(path) {
            assert(!leads_to(plan.trashes[k as int], place));
            assert(!next.contains_key(path));
            let j = choose|j: int|
                k + 1 <= j < plan.trashes.len() && !inline.contains(#[trigger] plan.trashes[j])
                    && path == place_in_trash(timestamp, plan.trashes[j]);
            assert(!leads_to(plan.trashes[k as int], place_in_trash(timestamp, plan.trashes[j])));
        }
    }
}

/// A pass over paths without files changes nothing.
proof fn idle_trash_pass(
    plan: PlanModel,
    timestamp: Seq<char>,
    inline: Set<Seq<char>>,
    files: Map<Seq<char>, Origin>,
    k: nat,
)
    requires
        forall|i: int|
            k <= i < plan.trashes.len() && !inline.contains(#[trigger] plan.trashes[i])
                ==> !files.contains_key(plan.trashes[i]),
    ensures
        files_after_trashes(plan, timestamp, inline, files, k) == Some(files),
    decreases plan.trashes.len() - k,
{
    if k < plan.trashes.len() {
        let path = plan.trashes[k as int];
        trash_one_path(timestamp, files, path, false);
        idle_trash_pass(plan, timestamp, inline, files, k + 1);
    }
}

/// A list of paths none of which begins as the name of a trash folder does stays clear of the
/// trash.
pub proof fn ordinary_paths_stay_clear_of_trash(
    plan: PlanModel,
    timestamp: Seq<char>,
    inline: Set<Seq<char>>,
)
    requires
        forall|i: int|
            0 <= i < plan.trashes.len() ==> !"_trash_"@.is_prefix_of(#[trigger] plan.trashes[i]),
    ensures
        stays_clear_of_trash(plan, timestamp, inline),
{
    reveal_strlit("_trash_");
    let mark = "_trash_"@;
    assert forall|i: int, j: int|
        0 <= i <= j < plan.trashes.len() && !inline.contains(#[trigger] plan.trashes[i])
            && !inline.contains(#[trigger] plan.trashes[j]) implies !leads_to(
        plan.trashes[i],
        place_in_trash(timestamp, plan.trashes[j]),
    ) by {
        let path = plan.trashes[i];
        let place = place_in_trash(timestamp, plan.trashes[j]);
        assert(mark.is_prefix_of(place));
        if path.push('/').is_prefix_of(place) {
            let n = path.len() as int;
            assert(place[n] == path.push('/')[n]);
            if n < mark.len() {
                assert(place[n] == mark[n]);
            } else {
                assert forall|k: int| 0 <= k < mark.len() implies mark[k] == path[k] by {
                    assert(place[k] == path.push('/')[k]);
                    assert(place[k] == mark[k]);
                }
                assert(mark.is_prefix_of(path));
            }
        }
    }
}

/// A second pass over the same paths to trash changes no file of the target, in the trash
/// folder or outside of it, whatever else the plan holds and whichever files there are. The
/// list has to stay clear of the trash: a path in it that the pass fills only after coming by
/// would be taken up by the second pass.
pub proof fn second_trash_pass_changes_nothing(
    plan: PlanModel,
    timestamp: Seq<char>,
    inline: Set<Seq<char>>,
    files: Map<Seq<char>, Origin>,
)
    requires
        stays_clear_of_trash(plan, timestamp, inline),
    ensures
        ({
            let once = files_after_trashes(plan, timestamp, inline, files, 0);
            &&& once is Some
            &&& files_after_trashes(plan, timestamp, inline, once->0, 0) == once
        }),
{
    trash_pass_clears(plan, timestamp, inline, files, 0);
    let once = files_after_trashes(plan, timestamp, inline, files, 0)->0;
    idle_trash_pass(plan, timestamp, inline, once, 0);
}

} // verus!
