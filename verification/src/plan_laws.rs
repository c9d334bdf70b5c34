//! What holds of every plan.
use vstd::prelude::*;

use crate::index::{IndexModel, key_is_name_and_size, keys_tell_name_and_size_apart, path_key};
use crate::paths::base_name_of;
use crate::plan::{
    PlanModel, SyncPlan, bytes_at, first_free, greedy, greedy_len, in_sync, is_plan, lists_wanted,
    matched, matched_sources, moved_away, planned_copies, planned_moves, stale, synced, unmatched,
    used, used_grows, wanted, wanted_list, wanted_list_is_unique,
};
use crate::text::{ascending, ascending_list_exists, decimal, text_le, text_le_reflexive};

verus! {

/// Whether some planned move brings a file to `path`.
pub open spec fn moved_to(moves: Seq<(Seq<char>, Seq<char>)>, path: Seq<char>) -> bool {
    exists|i: int| 0 <= i < moves.len() && #[trigger] moves[i].1 == path
}

/// The wanted paths of a finite source can be listed.
pub(crate) proof fn wanted_list_exists(a: IndexModel, b: IndexModel)
    requires
        a.valid(),
    ensures
        lists_wanted(a, b, wanted_list(a, b)),
{
    let set = a.sizes.dom().filter(|path: Seq<char>| wanted(a, b, path));
    let list = ascending_list_exists(set);
    assert(lists_wanted(a, b, list));
}

proof fn first_free_is_free(pool: Seq<Seq<char>>, taken: Set<Seq<char>>)
    ensures
        match first_free(pool, taken) {
            Some(path) => pool.contains(path) && !taken.contains(path),
            None => forall|i: int| 0 <= i < pool.len() ==> taken.contains(#[trigger] pool[i]),
        },
    decreases pool.len(),
{
    if pool.len() > 0 && taken.contains(pool[0]) {
        let rest = pool.drop_first();
        first_free_is_free(rest, taken);
        match first_free(pool, taken) {
            Some(path) => {
                let i = choose|i: int| 0 <= i < rest.len() && rest[i] == path;
                assert(pool[i + 1] == path);
            },
            None => {
                assert forall|i: int| 0 <= i < pool.len() implies taken.contains(
                    #[trigger] pool[i],
                ) by {
                    if i > 0 {
                        assert(taken.contains(rest[i - 1]));
                    }
                }
            },
        }
    } else if pool.len() > 0 {
        assert(pool[0] == pool.first());
    }
}

/// What the greedy matching of a list without duplicates gives.
pub(crate) proof fn matching_facts(a: IndexModel, b: IndexModel, list: Seq<Seq<char>>)
    requires
        list.no_duplicates(),
        ascending(list),
    ensures
        ({
            let matches = greedy(a, b, list);
            let moves = matched(list, matches);
            let copies = unmatched(list, matches);
            &&& moves.len() + copies.len() == list.len()
            &&& forall|i: int|
                0 <= i < moves.len() ==> list.contains((#[trigger] moves[i]).1) && b.pool(
                    path_key(moves[i].1, a.sizes[moves[i].1]),
                ).contains(moves[i].0) && !in_sync(a, b, moves[i].0)
            &&& forall|i: int, j: int|
                #![trigger moves[i], moves[j]]
                0 <= i < j < moves.len() ==> moves[i].0 != moves[j].0 && moves[i].1 != moves[j].1
            &&& copies.no_duplicates()
            &&& forall|path: Seq<char>|
                #![trigger copies.contains(path)]
                #![trigger moved_to(moves, path)]
                {
                    &&& list.contains(path) <==> copies.contains(path) || moved_to(moves, path)
                    &&& !(copies.contains(path) && moved_to(moves, path))
                }
            &&& forall|path: Seq<char>, q: Seq<char>|
                #![trigger copies.contains(path), moved_away(moves, q)]
                copies.contains(path) && b.pool(path_key(path, a.sizes[path])).contains(q)
                    && !in_sync(a, b, q) ==> moved_away(moves, q)
            &&& ascending(copies)
            &&& ascending(moves.map_values(|m: (Seq<char>, Seq<char>)| m.1))
        }),
    decreases list.len(),
{
    let matches = greedy(a, b, list);
    let moves = matched(list, matches);
    let copies = unmatched(list, matches);
    if list.len() > 0 {
        let l = list.drop_last();
        let m = greedy(a, b, l);
        let path = list.last();
        assert(l.no_duplicates());
        assert(ascending(l));
        matching_facts(a, b, l);
        greedy_len(a, b, l);
        assert(matches.drop_last() =~= m);
        matched_sources(l, m);
        matched_sources(list, matches);
        used_grows(m, matches.last());
        assert(matches =~= m.push(matches.last()));
        let pool = b.pool(path_key(path, a.sizes[path]));
        first_free_is_free(pool, used(m).union(synced(a, b)));
        let moves0 = matched(l, m);
        let copies0 = unmatched(l, m);
        assert forall|p: Seq<char>| list.contains(p) <==> l.contains(p) || p == path by {
            if l.contains(p) {
                let i = choose|i: int| 0 <= i < l.len() && l[i] == p;
                assert(list[i] == p);
            }
            if p == path {
                assert(list[l.len() as int] == p);
            }
            if list.contains(p) && p != path {
                let i = choose|i: int| 0 <= i < list.len() && list[i] == p;
                assert(l[i] == p);
            }
        }
        assert(!l.contains(path));
        assert forall|p: Seq<char>| #[trigger] moved_to(moves0, p) implies moved_to(moves, p) by {
            let i = choose|i: int| 0 <= i < moves0.len() && #[trigger] moves0[i].1 == p;
            assert(moves[i].1 == p);
        }
        let dests0 = moves0.map_values(|m: (Seq<char>, Seq<char>)| m.1);
        let dests = moves.map_values(|m: (Seq<char>, Seq<char>)| m.1);
        assert forall|p: Seq<char>| l.contains(p) implies text_le(p, path) by {
            let i = choose|i: int| 0 <= i < l.len() && l[i] == p;
            assert(text_le(list[i], list[list.len() - 1]));
        }
        text_le_reflexive(path);
        match matches.last() {
            Some(source) => {
                assert(moves =~= moves0.push((source, path)));
                assert(copies =~= copies0);
                assert forall|i: int| 0 <= i < moves0.len() implies (#[trigger] moves[i]).0 != source
                    && moves[i].1 != path by {
                    assert(moves0[i].0 == moves[i].0);
                    assert(moved_away(moves0, moves0[i].0));
                    assert(l.contains(moves0[i].1));
                }
                assert(moves[moves0.len() as int].1 == path);
                assert forall|p: Seq<char>|
                    #![trigger copies.contains(p)]
                    #![trigger moved_to(moves, p)]
                    {
                        &&& list.contains(p) <==> copies.contains(p) || moved_to(moves, p)
                        &&& !(copies.contains(p) && moved_to(moves, p))
                    } by {
                    assert(copies0.contains(p) ==> l.contains(p));
                    if moved_to(moves, p) {
                        let i = choose|i: int| 0 <= i < moves.len() && #[trigger] moves[i].1 == p;
                        if i < moves0.len() {
                            assert(moves0[i].1 == p);
                            assert(moved_to(moves0, p));
                        }
                    }
                    if list.contains(p) && p != path {
                        assert(copies0.contains(p) || moved_to(moves0, p));
                    }
                }
                assert forall|i: int, j: int| 0 <= i <= j < dests.len() implies
                    text_le(#[trigger] dests[i], #[trigger] dests[j]) by {
                    assert(dests[i] == moves[i].1 && dests[j] == moves[j].1);
                    if j < moves0.len() {
                        assert(dests0[i] == dests[i] && dests0[j] == dests[j]);
                        assert(text_le(dests0[i], dests0[j]));
                    } else if i < moves0.len() {
                        assert(l.contains(moves0[i].1));
                    }
                }
            },
            None => {
                assert(moves =~= moves0);
                assert(copies =~= copies0.push(path));
                assert forall|p: Seq<char>| copies.contains(p) <==> copies0.contains(p) || p
                    == path by {
                    if copies0.contains(p) {
                        let i = choose|i: int| 0 <= i < copies0.len() && copies0[i] == p;
                        assert(copies[i] == p);
                    }
                    if p == path {
                        assert(copies[copies0.len() as int] == p);
                    }
                }
                assert(!moved_to(moves0, path) && !copies0.contains(path));
                assert(copies.no_duplicates());
                assert forall|i: int, j: int| 0 <= i <= j < copies.len() implies
                    text_le(#[trigger] copies[i], #[trigger] copies[j]) by {
                    if j < copies0.len() {
                        assert(text_le(copies0[i], copies0[j]));
                    } else if i < copies0.len() {
                        assert(copies0.contains(copies0[i]));
                        assert(l.contains(copies0[i]));
                    }
                }
            },
        }
        assert forall|p: Seq<char>, q: Seq<char>|
            #![trigger copies.contains(p), moved_away(moves, q)]
            copies.contains(p) && b.pool(path_key(p, a.sizes[p])).contains(q) && !in_sync(
                a,
                b,
                q,
            ) implies moved_away(moves, q) by {
            if copies0.contains(p) {
                assert(moved_away(moves0, q));
                assert(used(m).contains(q));
                assert(used(matches).contains(q));
            } else {
                assert(matches.last() is None);
                assert(p == path);
                let i = choose|i: int| 0 <= i < pool.len() && pool[i] == q;
                assert(used(m).union(synced(a, b)).contains(pool[i]));
                assert(used(matches).contains(q));
            }
        }
    } else {
        assert(moves.len() == 0);
        assert(copies.len() == 0);
    }
}

/// Every file of the source is exactly one of three: in sync already, brought by a move
/// inside the target, or copied.
pub proof fn every_source_file_is_placed_once(
    a: IndexModel,
    b: IndexModel,
    plan: PlanModel,
    path: Seq<char>,
)
    requires
        a.valid(),
        is_plan(a, b, plan),
    ensures
        a.sizes.contains_key(path) <==> in_sync(a, b, path) || moved_to(plan.moves, path)
            || plan.copies.contains(path),
        !(in_sync(a, b, path) && moved_to(plan.moves, path)),
        !(in_sync(a, b, path) && plan.copies.contains(path)),
        !(moved_to(plan.moves, path) && plan.copies.contains(path)),
{
    let list = wanted_list(a, b);
    wanted_list_exists(a, b);
    matching_facts(a, b, list);
    assert(list.contains(path) <==> wanted(a, b, path));
}

/// The files skipped, moved and copied are together as many as the source has.
pub proof fn plan_counts_every_source_file(a: IndexModel, b: IndexModel, plan: PlanModel)
    requires
        a.valid(),
        is_plan(a, b, plan),
    ensures
        plan.skip_count + plan.moves.len() + plan.copies.len() == a.sizes.dom().len(),
{
    let list = wanted_list(a, b);
    wanted_list_exists(a, b);
    matching_facts(a, b, list);
    let all = a.sizes.dom();
    let synced = all.filter(|path: Seq<char>| in_sync(a, b, path));
    list.unique_seq_to_set();
    assert forall|path: Seq<char>| list.to_set().contains(path) <==> wanted(a, b, path) by {
        assert(list.to_set().contains(path) <==> list.contains(path));
    }
    vstd::set_lib::lemma_set_disjoint_lens(synced, list.to_set());
    assert(synced + list.to_set() =~= all);
}

/// A plan neither copies a path twice nor moves a file twice nor fills a path twice, and
/// goes through the paths in ascending order.
pub proof fn plan_repeats_nothing(a: IndexModel, b: IndexModel, plan: PlanModel)
    requires
        a.valid(),
        is_plan(a, b, plan),
    ensures
        plan.copies.no_duplicates(),
        ascending(plan.copies),
        forall|i: int, j: int|
            #![trigger plan.moves[i], plan.moves[j]]
            0 <= i < j < plan.moves.len() ==> plan.moves[i].0 != plan.moves[j].0 && plan.moves[i].1
                != plan.moves[j].1,
        ascending(plan.moves.map_values(|m: (Seq<char>, Seq<char>)| m.1)),
{
    wanted_list_exists(a, b);
    matching_facts(a, b, wanted_list(a, b));
}

/// A move takes a file that the target has to a path that the source has, and both files
/// have the same name and the same size; so no data crosses from folder to folder.
pub proof fn moves_keep_name_and_size(a: IndexModel, b: IndexModel, plan: PlanModel, i: int)
    requires
        a.valid(),
        b.valid(),
        b.consistent(),
        is_plan(a, b, plan),
        0 <= i < plan.moves.len(),
    ensures
        b.sizes.contains_key(plan.moves[i].0),
        a.sizes.contains_key(plan.moves[i].1),
        !in_sync(a, b, plan.moves[i].1),
        plan.moves[i].0 != plan.moves[i].1,
        base_name_of(plan.moves[i].0) == base_name_of(plan.moves[i].1),
        b.sizes[plan.moves[i].0] == a.sizes[plan.moves[i].1],
{
    let list = wanted_list(a, b);
    wanted_list_exists(a, b);
    matching_facts(a, b, list);
    let source = plan.moves[i].0;
    let path = plan.moves[i].1;
    assert(list.contains(path));
    assert(wanted(a, b, path));
    let key = path_key(path, a.sizes[path]);
    assert(b.pool(key).contains(source));
    let k = choose|k: int| 0 <= k < b.pool(key).len() && b.pool(key)[k] == source;
    assert(b.sizes.contains_key(b.pool(key)[k]));
    assert(key == path_key(b.pool(key)[k], b.sizes[b.pool(key)[k]]));
    keys_tell_name_and_size_apart(
        base_name_of(path),
        a.sizes[path],
        base_name_of(source),
        b.sizes[source],
    );
}

/// No move takes a file that is in sync: a file counted as skipped stays where it is.
pub proof fn files_in_sync_stay(a: IndexModel, b: IndexModel, plan: PlanModel)
    requires
        a.valid(),
        is_plan(a, b, plan),
    ensures
        forall|i: int|
            0 <= i < plan.moves.len() ==> !in_sync(a, b, (#[trigger] plan.moves[i]).0),
{
    wanted_list_exists(a, b);
    matching_facts(a, b, wanted_list(a, b));
}

/// A file is copied only where the moves use up every file of the target with its name
/// and size that is not in sync.
pub proof fn copies_only_what_no_move_can_bring(
    a: IndexModel,
    b: IndexModel,
    plan: PlanModel,
    path: Seq<char>,
    candidate: Seq<char>,
)
    requires
        a.valid(),
        b.valid(),
        is_plan(a, b, plan),
        plan.copies.contains(path),
        b.sizes.contains_key(candidate),
        base_name_of(candidate) == base_name_of(path),
        b.sizes[candidate] == a.sizes[path],
        !in_sync(a, b, candidate),
    ensures
        moved_away(plan.moves, candidate),
{
    wanted_list_exists(a, b);
    matching_facts(a, b, wanted_list(a, b));
    assert(b.pool(path_key(candidate, b.sizes[candidate])).contains(candidate));
}

/// Every file of the target is exactly one of three: in sync, moved or trashed.
pub proof fn every_target_file_is_accounted_for(
    a: IndexModel,
    b: IndexModel,
    plan: PlanModel,
    path: Seq<char>,
)
    requires
        a.valid(),
        is_plan(a, b, plan),
        b.sizes.contains_key(path),
    ensures
        in_sync(a, b, path) || moved_away(plan.moves, path) || plan.trashes.contains(path),
        !(in_sync(a, b, path) && moved_away(plan.moves, path)),
        !(in_sync(a, b, path) && plan.trashes.contains(path)),
        !(moved_away(plan.moves, path) && plan.trashes.contains(path)),
{
    files_in_sync_stay(a, b, plan);
    assert(plan.trashes.contains(path) <==> stale(a, b, path) && !moved_away(plan.moves, path));
}

/// A plan has nothing to do exactly if both folders hold the same paths with the same
/// sizes.
pub proof fn empty_plan_means_in_sync(a: IndexModel, b: IndexModel, plan: PlanModel)
    requires
        a.valid(),
        is_plan(a, b, plan),
    ensures
        plan.moves.len() == 0 && plan.copies.len() == 0 && plan.trashes.len() == 0 <==> a.sizes
            == b.sizes,
{
    let list = wanted_list(a, b);
    wanted_list_exists(a, b);
    matching_facts(a, b, list);
    if plan.moves.len() == 0 && plan.copies.len() == 0 && plan.trashes.len() == 0 {
        assert forall|path: Seq<char>| a.sizes.contains_key(path) implies in_sync(a, b, path) by {
            assert(!list.contains(path));
        }
        assert forall|path: Seq<char>| b.sizes.contains_key(path) implies in_sync(a, b, path) by {
            assert(!plan.trashes.contains(path));
            assert(!moved_away(plan.moves, path));
        }
        assert(a.sizes.dom() =~= b.sizes.dom()) by {
            assert forall|path: Seq<char>| a.sizes.dom().contains(path) <==> b.sizes.dom().contains(
                path,
            ) by {
                assert(a.sizes.contains_key(path) ==> in_sync(a, b, path));
                assert(b.sizes.contains_key(path) ==> in_sync(a, b, path));
            }
        }
        assert(a.sizes =~= b.sizes) by {
            assert forall|path: Seq<char>| a.sizes.dom().contains(path) implies a.sizes[path]
                == b.sizes[path] by {
                assert(in_sync(a, b, path));
            }
        }
    }
    if a.sizes == b.sizes {
        if list.len() > 0 {
            assert(list.contains(list[0]));
            assert(wanted(a, b, list[0]));
        }
        if plan.trashes.len() > 0 {
            assert(plan.trashes.contains(plan.trashes[0]));
        }
    }
}

/// The plan does not depend on the order in which the files of the source were indexed.
pub proof fn plan_ignores_source_order(
    a1: IndexModel,
    a2: IndexModel,
    b: IndexModel,
    plan: PlanModel,
)
    requires
        a1.valid(),
        a2.valid(),
        a1.sizes == a2.sizes,
        is_plan(a1, b, plan),
    ensures
        is_plan(a2, b, plan),
{
    wanted_list_exists(a1, b);
    wanted_list_exists(a2, b);
    let list = wanted_list(a1, b);
    assert forall|path: Seq<char>| in_sync(a1, b, path) == in_sync(a2, b, path) by {}
    assert(lists_wanted(a2, b, list));
    wanted_list_is_unique(a2, b, list, wanted_list(a2, b));
    same_greedy(a1, a2, b, list);
    same_bytes(a1, a2, planned_copies(a1, b));
    assert(planned_moves(a1, b) == planned_moves(a2, b));
    assert(a1.sizes.dom().filter(|path: Seq<char>| in_sync(a1, b, path)) =~= a2.sizes.dom().filter(
        |path: Seq<char>| in_sync(a2, b, path),
    ));
    assert forall|path: Seq<char>|
        plan.trashes.contains(path) <==> stale(a2, b, path) && !moved_away(plan.moves, path) by {
        assert(plan.trashes.contains(path) <==> stale(a1, b, path) && !moved_away(plan.moves, path));
    }
}

proof fn same_greedy(a1: IndexModel, a2: IndexModel, b: IndexModel, list: Seq<Seq<char>>)
    requires
        a1.sizes == a2.sizes,
    ensures
        greedy(a1, b, list) == greedy(a2, b, list),
    decreases list.len(),
{
    if list.len() > 0 {
        same_greedy(a1, a2, b, list.drop_last());
        assert(synced(a1, b) =~= synced(a2, b));
    }
}

proof fn same_bytes(a1: IndexModel, a2: IndexModel, list: Seq<Seq<char>>)
    requires
        a1.sizes == a2.sizes,
    ensures
        bytes_at(a1, list) == bytes_at(a2, list),
    decreases list.len(),
{
    if list.len() > 0 {
        same_bytes(a1, a2, list.drop_last());
    }
}

/// Two plans for the same folders differ at most in the order of the paths to trash.
pub proof fn plans_agree(a: IndexModel, b: IndexModel, p1: PlanModel, p2: PlanModel)
    requires
        is_plan(a, b, p1),
        is_plan(a, b, p2),
    ensures
        p2 == (PlanModel { trashes: p2.trashes, ..p1 }),
        p1.trashes.to_set() == p2.trashes.to_set(),
        p1.trashes.len() == p2.trashes.len(),
{
    assert forall|path: Seq<char>| p1.trashes.contains(path) <==> p2.trashes.contains(path) by {
        assert(p1.trashes.contains(path) <==> stale(a, b, path) && !moved_away(p1.moves, path));
    }
    assert(p1.trashes.to_set() =~= p2.trashes.to_set());
    p1.trashes.unique_seq_to_set();
    p2.trashes.unique_seq_to_set();
}

proof fn bytes_fold(a: IndexModel, list: Seq<Seq<char>>, f: spec_fn(int, Seq<char>) -> int)
    requires
        forall|sum: int, path: Seq<char>| #[trigger] f(sum, path) == sum + a.sizes[path],
    ensures
        bytes_at(a, list) == list.fold_left(0int, f),
    decreases list.len(),
{
    if list.len() > 0 {
        bytes_fold(a, list.drop_last(), f);
    }
}

/// The bytes of a list of paths count every entry: those of one path are the size of its
/// file, and those of two lists one after the other are those of both together.
pub proof fn bytes_count_every_entry(
    a: IndexModel,
    path: Seq<char>,
    xs: Seq<Seq<char>>,
    ys: Seq<Seq<char>>,
)
    ensures
        bytes_at(a, Seq::empty()) == 0,
        bytes_at(a, seq![path]) == a.sizes[path],
        bytes_at(a, xs + ys) == bytes_at(a, xs) + bytes_at(a, ys),
        bytes_at(a, xs) == xs.fold_left(0int, |sum: int, p: Seq<char>| sum + a.sizes[p]),
    decreases ys.len(),
{
    reveal_with_fuel(bytes_at, 2);
    assert(seq![path].drop_last() =~= Seq::empty());
    bytes_fold(a, xs, |sum: int, p: Seq<char>| sum + a.sizes[p]);
    if ys.len() > 0 {
        bytes_count_every_entry(a, path, xs, ys.drop_last());
        assert((xs + ys).drop_last() =~= xs + ys.drop_last());
    } else {
        assert(xs + ys =~= xs);
    }
}

/// The bytes to copy that a plan states are the sizes of all its copies, summed up.
pub proof fn plan_counts_every_copied_byte(a: IndexModel, b: IndexModel, plan: PlanModel)
    requires
        is_plan(a, b, plan),
    ensures
        plan.total_copy_bytes == plan.copies.fold_left(
            0int,
            |sum: int, p: Seq<char>| sum + a.sizes[p],
        ),
{
    bytes_fold(a, plan.copies, |sum: int, p: Seq<char>| sum + a.sizes[p]);
}

/// A plan fills the paths that the source has and the target lacks, or holds with another
/// size, and no others; it skips and counts those with the same size in both.
pub proof fn plan_fills_what_differs(
    a: IndexModel,
    b: IndexModel,
    plan: PlanModel,
    path: Seq<char>,
)
    requires
        a.valid(),
        is_plan(a, b, plan),
    ensures
        moved_to(plan.moves, path) || plan.copies.contains(path) <==> a.sizes.contains_key(path)
            && !(b.sizes.contains_key(path) && b.sizes[path] == a.sizes[path]),
        !(moved_to(plan.moves, path) && plan.copies.contains(path)),
        plan.skip_count == a.sizes.dom().filter(
            |p: Seq<char>| b.sizes.contains_key(p) && b.sizes[p] == a.sizes[p],
        ).len(),
{
    every_source_file_is_placed_once(a, b, plan, path);
    assert(a.sizes.dom().filter(|p: Seq<char>| in_sync(a, b, p)) =~= a.sizes.dom().filter(
        |p: Seq<char>| b.sizes.contains_key(p) && b.sizes[p] == a.sizes[p],
    ));
}

/// A plan trashes what the target has and the source lacks, or holds with another size,
/// unless a move uses it, and nothing else; and it trashes nothing twice.
pub proof fn plan_trashes_what_is_left(
    a: IndexModel,
    b: IndexModel,
    plan: PlanModel,
    path: Seq<char>,
)
    requires
        is_plan(a, b, plan),
    ensures
        plan.trashes.contains(path) <==> b.sizes.contains_key(path) && !(a.sizes.contains_key(path)
            && a.sizes[path] == b.sizes[path]) && forall|i: int|
            0 <= i < plan.moves.len() ==> (#[trigger] plan.moves[i]).0 != path,
        plan.trashes.no_duplicates(),
{
    assert(plan.trashes.contains(path) <==> stale(a, b, path) && !moved_away(plan.moves, path));
    if moved_away(plan.moves, path) {
        let i = choose|i: int| 0 <= i < plan.moves.len() && #[trigger] plan.moves[i].0 == path;
        assert(plan.moves[i].0 == path);
    } else {
        assert forall|i: int| 0 <= i < plan.moves.len() implies (#[trigger] plan.moves[i]).0
            != path by {
            if plan.moves[i].0 == path {
                assert(moved_away(plan.moves, path));
            }
        }
    }
}

/// Whether the file of the target at `path` is in sync, or taken by one of the first `k` moves.
spec fn is_spent(
    a: IndexModel,
    b: IndexModel,
    moves: Seq<(Seq<char>, Seq<char>)>,
    k: int,
    path: Seq<char>,
) -> bool {
    in_sync(a, b, path) || exists|j: int| 0 <= j < k && (#[trigger] moves[j]).0 == path
}

/// Whether `moves[i]` takes the `q`-th file of its name and size, and all before that one are
/// spent.
spec fn takes_first(
    a: IndexModel,
    b: IndexModel,
    moves: Seq<(Seq<char>, Seq<char>)>,
    i: int,
    q: int,
) -> bool {
    let pool = b.pool(path_key(moves[i].1, a.sizes[moves[i].1]));
    &&& 0 <= q < pool.len()
    &&& pool[q] == moves[i].0
    &&& forall|r: int| 0 <= r < q ==> is_spent(a, b, moves, i, #[trigger] pool[r])
}

/// Whether `moves[i]` takes the first file of its name and size that is not spent before it.
spec fn is_first_choice(
    a: IndexModel,
    b: IndexModel,
    moves: Seq<(Seq<char>, Seq<char>)>,
    i: int,
) -> bool {
    exists|q: int| takes_first(a, b, moves, i, q)
}

/// Whether every file of the name and size of `path` is spent after the first `k` moves, which
/// fill smaller paths.
spec fn finds_none(
    a: IndexModel,
    b: IndexModel,
    moves: Seq<(Seq<char>, Seq<char>)>,
    path: Seq<char>,
    k: int,
) -> bool {
    let pool = b.pool(path_key(path, a.sizes[path]));
    &&& 0 <= k <= moves.len()
    &&& forall|j: int|
        0 <= j < k ==> text_le((#[trigger] moves[j]).1, path) && moves[j].1 != path
    &&& forall|r: int| 0 <= r < pool.len() ==> is_spent(a, b, moves, k, #[trigger] pool[r])
}

proof fn first_free_is_first(pool: Seq<Seq<char>>, taken: Set<Seq<char>>) -> (q: int)
    requires
        first_free(pool, taken) is Some,
    ensures
        0 <= q < pool.len(),
        first_free(pool, taken) == Some(pool[q]),
        forall|r: int| 0 <= r < q ==> taken.contains(#[trigger] pool[r]),
    decreases pool.len(),
{
    if taken.contains(pool[0]) {
        let rest = pool.drop_first();
        let q = first_free_is_first(rest, taken);
        assert forall|r: int| 0 <= r < q + 1 implies taken.contains(#[trigger] pool[r]) by {
            if r > 0 {
                assert(taken.contains(rest[r - 1]));
            }
        }
        q + 1
    } else {
        0
    }
}

proof fn spent_stays(
    a: IndexModel,
    b: IndexModel,
    before: Seq<(Seq<char>, Seq<char>)>,
    after: Seq<(Seq<char>, Seq<char>)>,
    k: int,
    path: Seq<char>,
)
    requires
        before.is_prefix_of(after),
        0 <= k <= before.len(),
    ensures
        is_spent(a, b, before, k, path) <==> is_spent(a, b, after, k, path),
{
    assert forall|j: int| 0 <= j < k implies before[j] == #[trigger] after[j] by {}
    if exists|j: int| 0 <= j < k && (#[trigger] before[j]).0 == path {
        let j = choose|j: int| 0 <= j < k && (#[trigger] before[j]).0 == path;
        assert(after[j].0 == path);
    }
}

proof fn spent_is_used(
    a: IndexModel,
    b: IndexModel,
    list: Seq<Seq<char>>,
    matches: Seq<Option<Seq<char>>>,
    path: Seq<char>,
)
    requires
        list.len() == matches.len(),
    ensures
        ({
            let moves = matched(list, matches);
            is_spent(a, b, moves, moves.len() as int, path) <==> used(matches).union(
                synced(a, b),
            ).contains(path)
        }),
{
    matched_sources(list, matches);
    let moves = matched(list, matches);
    assert(moved_away(moves, path) <==> used(matches).contains(path));
    if moved_away(moves, path) {
        let j = choose|j: int| 0 <= j < moves.len() && #[trigger] moves[j].0 == path;
        assert(moves[j].0 == path);
    }
}

proof fn choices(a: IndexModel, b: IndexModel, list: Seq<Seq<char>>)
    requires
        list.no_duplicates(),
        ascending(list),
    ensures
        ({
            let moves = matched(list, greedy(a, b, list));
            let copies = unmatched(list, greedy(a, b, list));
            &&& forall|i: int|
                0 <= i < moves.len() ==> #[trigger] is_first_choice(a, b, moves, i)
            &&& forall|path: Seq<char>| #[trigger]
                copies.contains(path) ==> exists|k: int| finds_none(a, b, moves, path, k)
        }),
    decreases list.len(),
{
    if list.len() > 0 {
        let l = list.drop_last();
        let m = greedy(a, b, l);
        let path = list.last();
        let matches = greedy(a, b, list);
        let moves0 = matched(l, m);
        let copies0 = unmatched(l, m);
        let moves = matched(list, matches);
        let copies = unmatched(list, matches);
        choices(a, b, l);
        matching_facts(a, b, l);
        greedy_len(a, b, l);
        assert(matches.drop_last() =~= m);
        let pool = b.pool(path_key(path, a.sizes[path]));
        let taken = used(m).union(synced(a, b));
        let n = moves0.len() as int;
        assert(moves0.is_prefix_of(moves));
        assert forall|i: int| 0 <= i < moves.len() implies #[trigger] is_first_choice(
            a,
            b,
            moves,
            i,
        ) by {
            if i < n {
                assert(moves0[i] == moves[i]);
                assert(is_first_choice(a, b, moves0, i));
                let q = choose|q: int| takes_first(a, b, moves0, i, q);
                let p = b.pool(path_key(moves[i].1, a.sizes[moves[i].1]));
                assert forall|r: int| 0 <= r < q implies is_spent(
                    a,
                    b,
                    moves,
                    i,
                    #[trigger] p[r],
                ) by {
                    spent_stays(a, b, moves0, moves, i, p[r]);
                }
                assert(takes_first(a, b, moves, i, q));
            } else {
                let q = first_free_is_first(pool, taken);
                assert(moves[i] == (pool[q], path));
                assert forall|r: int| 0 <= r < q implies is_spent(
                    a,
                    b,
                    moves,
                    i,
                    #[trigger] pool[r],
                ) by {
                    spent_is_used(a, b, l, m, pool[r]);
                    spent_stays(a, b, moves0, moves, i, pool[r]);
                }
                assert(takes_first(a, b, moves, i, q));
            }
        }
        assert forall|p: Seq<char>| #[trigger] copies.contains(p) implies exists|k: int|
            finds_none(a, b, moves, p, k) by {
            let pp = b.pool(path_key(p, a.sizes[p]));
            if copies0.contains(p) {
                let k = choose|k: int| finds_none(a, b, moves0, p, k);
                assert forall|r: int| 0 <= r < pp.len() implies is_spent(
                    a,
                    b,
                    moves,
                    k,
                    #[trigger] pp[r],
                ) by {
                    spent_stays(a, b, moves0, moves, k, pp[r]);
                }
                assert forall|j: int| 0 <= j < k implies text_le((#[trigger] moves[j]).1, p)
                    && moves[j].1 != p by {
                    assert(moves0[j] == moves[j]);
                }
                assert(finds_none(a, b, moves, p, k));
            } else {
                let i = choose|i: int| 0 <= i < copies.len() && copies[i] == p;
                if i < copies0.len() {
                    assert(copies0[i] == p);
                }
                assert(matches.last() is None && p == path);
                first_free_is_free(pool, taken);
                assert(moves =~= moves0);
                assert forall|r: int| 0 <= r < pool.len() implies is_spent(
                    a,
                    b,
                    moves,
                    n,
                    #[trigger] pool[r],
                ) by {
                    assert(taken.contains(pool[r]));
                    spent_is_used(a, b, l, m, pool[r]);
                }
                assert forall|j: int| 0 <= j < n implies text_le((#[trigger] moves[j]).1, path)
                    && moves[j].1 != path by {
                    assert(l.contains(moves0[j].1));
                    let x = choose|x: int| 0 <= x < l.len() && l[x] == moves0[j].1;
                    assert(text_le(list[x], list[list.len() - 1]));
                    assert(list[x] != list[list.len() - 1]);
                }
                assert(finds_none(a, b, moves, path, n));
            }
        }
    } else {
        assert(matched(list, greedy(a, b, list)).len() == 0);
        assert(unmatched(list, greedy(a, b, list)).len() == 0);
    }
}

/// A move takes the first file of the target with the name and size of its new path, in the
/// order of the scan, that is neither in sync nor taken by an earlier move.
pub proof fn moves_take_the_first_free_file(
    a: IndexModel,
    b: IndexModel,
    plan: PlanModel,
    i: int,
) -> (q: int)
    requires
        a.valid(),
        is_plan(a, b, plan),
        0 <= i < plan.moves.len(),
    ensures
        ({
            let dest = plan.moves[i].1;
            let pool = b.pool(base_name_of(dest) + seq![':'] + decimal(a.sizes[dest] as nat));
            &&& 0 <= q < pool.len()
            &&& pool[q] == plan.moves[i].0
            &&& !(a.sizes.contains_key(pool[q]) && b.sizes.contains_key(pool[q])
                && a.sizes[pool[q]] == b.sizes[pool[q]])
            &&& forall|r: int|
                0 <= r < q ==> (a.sizes.contains_key(#[trigger] pool[r]) && b.sizes.contains_key(
                    pool[r],
                ) && a.sizes[pool[r]] == b.sizes[pool[r]]) || exists|j: int|
                    0 <= j < i && (#[trigger] plan.moves[j]).0 == pool[r]
        }),
{
    let list = wanted_list(a, b);
    wanted_list_exists(a, b);
    choices(a, b, list);
    files_in_sync_stay(a, b, plan);
    let dest = plan.moves[i].1;
    key_is_name_and_size(dest, a.sizes[dest]);
    assert(is_first_choice(a, b, plan.moves, i));
    let q = choose|q: int| takes_first(a, b, plan.moves, i, q);
    let pool = b.pool(path_key(dest, a.sizes[dest]));
    assert forall|r: int| 0 <= r < q implies (a.sizes.contains_key(#[trigger] pool[r])
        && b.sizes.contains_key(pool[r]) && a.sizes[pool[r]] == b.sizes[pool[r]]) || exists|j: int|
        0 <= j < i && (#[trigger] plan.moves[j]).0 == pool[r] by {
        assert(is_spent(a, b, plan.moves, i, pool[r]));
    }
    q
}

/// A path is copied only where every file of the target with its name and size is in sync, or
/// taken by a move to a smaller path.
pub proof fn copies_come_after_all_moves(
    a: IndexModel,
    b: IndexModel,
    plan: PlanModel,
    path: Seq<char>,
    r: int,
)
    requires
        a.valid(),
        is_plan(a, b, plan),
        plan.copies.contains(path),
        0 <= r < b.pool(base_name_of(path) + seq![':'] + decimal(a.sizes[path] as nat)).len(),
    ensures
        ({
            let file = b.pool(base_name_of(path) + seq![':'] + decimal(a.sizes[path] as nat))[r];
            (a.sizes.contains_key(file) && b.sizes.contains_key(file) && a.sizes[file]
                == b.sizes[file]) || exists|j: int|
                0 <= j < plan.moves.len() && (#[trigger] plan.moves[j]).0 == file && text_le(
                    plan.moves[j].1,
                    path,
                ) && plan.moves[j].1 != path
        }),
{
    wanted_list_exists(a, b);
    choices(a, b, wanted_list(a, b));
    key_is_name_and_size(path, a.sizes[path]);
    let pool = b.pool(path_key(path, a.sizes[path]));
    let k = choose|k: int| finds_none(a, b, plan.moves, path, k);
    assert(is_spent(a, b, plan.moves, k, pool[r]));
    if !in_sync(a, b, pool[r]) {
        let j = choose|j: int| 0 <= j < k && (#[trigger] plan.moves[j]).0 == pool[r];
        assert(plan.moves[j].0 == pool[r]);
    }
}

/// A plan holds what its lists and numbers say, entry by entry.
pub proof fn plan_holds_its_lists(plan: SyncPlan)
    ensures
        plan@.moves.len() == plan.moves@.len(),
        forall|i: int|
            0 <= i < plan.moves@.len() ==> #[trigger] plan@.moves[i] == (
                plan.moves@[i].0@,
                plan.moves@[i].1@,
            ),
        plan@.copies.len() == plan.copies@.len(),
        forall|i: int|
            0 <= i < plan.copies@.len() ==> #[trigger] plan@.copies[i] == plan.copies@[i]@,
        plan@.trashes.len() == plan.trashes@.len(),
        forall|i: int|
            0 <= i < plan.trashes@.len() ==> #[trigger] plan@.trashes[i] == plan.trashes@[i]@,
        plan@.skip_count == plan.skip_count,
        plan@.total_copy_bytes == plan.total_copy_bytes,
{
}

} // verus!
