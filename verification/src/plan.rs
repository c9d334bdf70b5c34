//! Comparing two folders: which files to move inside the target, to copy from the
//! source and to put into the trash.
use vstd::hash_set::StringHashSet;
use vstd::prelude::*;

use crate::index::{FileIndex, IndexModel, file_key, path_key};
use crate::text::{ascending, sort_strings, text_le, text_le_antisymmetric, texts};

verus! {

/// Whether `path` holds a file of the same size in both folders.
pub open spec fn in_sync(a: IndexModel, b: IndexModel, path: Seq<char>) -> bool {
    &&& a.sizes.contains_key(path)
    &&& b.sizes.contains_key(path)
    &&& a.sizes[path] == b.sizes[path]
}

/// Whether the file of the source at `path` is missing from the target, or differs
/// there in size.
pub open spec fn wanted(a: IndexModel, b: IndexModel, path: Seq<char>) -> bool {
    a.sizes.contains_key(path) && !in_sync(a, b, path)
}

/// Whether the file of the target at `path` is missing from the source, or differs
/// there in size.
pub open spec fn stale(a: IndexModel, b: IndexModel, path: Seq<char>) -> bool {
    b.sizes.contains_key(path) && !in_sync(a, b, path)
}

/// Whether `list` is the ascending list of all wanted paths.
pub open spec fn lists_wanted(a: IndexModel, b: IndexModel, list: Seq<Seq<char>>) -> bool {
    &&& ascending(list)
    &&& list.no_duplicates()
    &&& forall|path: Seq<char>| list.contains(path) <==> wanted(a, b, path)
}

/// The wanted paths, ascending.
pub open spec fn wanted_list(a: IndexModel, b: IndexModel) -> Seq<Seq<char>> {
    choose|list: Seq<Seq<char>>| lists_wanted(a, b, list)
}

/// The first path of `pool` that is not taken.
pub open spec fn first_free(pool: Seq<Seq<char>>, taken: Set<Seq<char>>) -> Option<Seq<char>>
    decreases pool.len(),
{
    if pool.len() == 0 {
        None
    } else if !taken.contains(pool[0]) {
        Some(pool[0])
    } else {
        first_free(pool.drop_first(), taken)
    }
}

/// The sources that a list of matches uses.
pub open spec fn used(matches: Seq<Option<Seq<char>>>) -> Set<Seq<char>> {
    Set::new(|path: Seq<char>| matches.contains(Some(path)))
}

/// The paths that hold a file of the same size in both folders.
pub open spec fn synced(a: IndexModel, b: IndexModel) -> Set<Seq<char>> {
    Set::new(|path: Seq<char>| in_sync(a, b, path))
}

/// The file of the target that each listed path is filled from: the first one with the
/// same name and size that is not in sync and that no earlier path took, if there is one.
pub open spec fn greedy(a: IndexModel, b: IndexModel, list: Seq<Seq<char>>) -> Seq<
    Option<Seq<char>>,
>
    decreases list.len(),
{
    if list.len() == 0 {
        Seq::empty()
    } else {
        let before = greedy(a, b, list.drop_last());
        let path = list.last();
        let taken = used(before).union(synced(a, b));
        before.push(first_free(b.pool(path_key(path, a.sizes[path])), taken))
    }
}

/// The matched paths of `list`, each behind its source.
pub open spec fn matched(list: Seq<Seq<char>>, matches: Seq<Option<Seq<char>>>) -> Seq<
    (Seq<char>, Seq<char>),
>
    decreases list.len(),
{
    if list.len() == 0 {
        Seq::empty()
    } else {
        let before = matched(list.drop_last(), matches.drop_last());
        match matches.last() {
            Some(source) => before.push((source, list.last())),
            None => before,
        }
    }
}

/// The paths of `list` without a match.
pub open spec fn unmatched(list: Seq<Seq<char>>, matches: Seq<Option<Seq<char>>>) -> Seq<Seq<char>>
    decreases list.len(),
{
    if list.len() == 0 {
        Seq::empty()
    } else {
        let before = unmatched(list.drop_last(), matches.drop_last());
        match matches.last() {
            Some(_) => before,
            None => before.push(list.last()),
        }
    }
}

/// The moves inside the target that a plan makes: old path and new path.
pub open spec fn planned_moves(a: IndexModel, b: IndexModel) -> Seq<(Seq<char>, Seq<char>)> {
    let list = wanted_list(a, b);
    matched(list, greedy(a, b, list))
}

/// The paths that a plan copies from the source.
pub open spec fn planned_copies(a: IndexModel, b: IndexModel) -> Seq<Seq<char>> {
    let list = wanted_list(a, b);
    unmatched(list, greedy(a, b, list))
}

/// Whether some planned move takes the file at `path` away.
pub open spec fn moved_away(moves: Seq<(Seq<char>, Seq<char>)>, path: Seq<char>) -> bool {
    exists|i: int| 0 <= i < moves.len() && #[trigger] moves[i].0 == path
}

/// The bytes that the files of the index at the listed paths hold.
pub open spec fn bytes_at(a: IndexModel, list: Seq<Seq<char>>) -> nat
    decreases list.len(),
{
    if list.len() == 0 {
        0
    } else {
        bytes_at(a, list.drop_last()) + a.sizes[list.last()] as nat
    }
}

/// What a plan holds.
#[verifier::ext_equal]
pub struct PlanModel {
    pub moves: Seq<(Seq<char>, Seq<char>)>,
    pub copies: Seq<Seq<char>>,
    pub trashes: Seq<Seq<char>>,
    pub skip_count: nat,
    pub total_copy_bytes: nat,
}

/// Whether `plan` is a plan that makes the target `b` like the source `a`. Only the
/// order of the paths to trash is left open.
pub open spec fn is_plan(a: IndexModel, b: IndexModel, plan: PlanModel) -> bool {
    &&& plan.moves == planned_moves(a, b)
    &&& plan.copies == planned_copies(a, b)
    &&& plan.trashes.no_duplicates()
    &&& forall|path: Seq<char>|
        plan.trashes.contains(path) <==> stale(a, b, path) && !moved_away(plan.moves, path)
    &&& plan.skip_count == a.sizes.dom().filter(|path: Seq<char>| in_sync(a, b, path)).len()
    &&& plan.total_copy_bytes == bytes_at(a, planned_copies(a, b))
}

/// What a run is going to do.
pub struct SyncPlan {
    /// Moves inside the target: old path and new path.
    pub moves: Vec<(String, String)>,
    /// Paths to copy from the source.
    pub copies: Vec<String>,
    /// Paths of the target to put into the trash.
    pub trashes: Vec<String>,
    /// How many files are in sync already.
    pub skip_count: usize,
    /// How many bytes the copies come to.
    pub total_copy_bytes: u64,
}

/// The characters of each pair of strings.
pub open spec fn text_pairs(list: Seq<(String, String)>) -> Seq<(Seq<char>, Seq<char>)> {
    list.map_values(|pair: (String, String)| (pair.0@, pair.1@))
}

impl View for SyncPlan {
    type V = PlanModel;

    open spec fn view(&self) -> PlanModel {
        PlanModel {
            moves: text_pairs(self.moves@),
            copies: texts(self.copies@),
            trashes: texts(self.trashes@),
            skip_count: self.skip_count as nat,
            total_copy_bytes: self.total_copy_bytes as nat,
        }
    }
}

/// There is only one ascending list of the wanted paths.
pub(crate) proof fn wanted_list_is_unique(
    a: IndexModel,
    b: IndexModel,
    l1: Seq<Seq<char>>,
    l2: Seq<Seq<char>>,
)
    requires
        lists_wanted(a, b, l1),
        lists_wanted(a, b, l2),
    ensures
        l1 == l2,
{
    same_ascending(l1, l2);
}

proof fn same_ascending(l1: Seq<Seq<char>>, l2: Seq<Seq<char>>)
    requires
        ascending(l1),
        ascending(l2),
        l1.no_duplicates(),
        l2.no_duplicates(),
        forall|path: Seq<char>| l1.contains(path) <==> l2.contains(path),
    ensures
        l1 == l2,
    decreases l1.len(),
{
    if l1.len() == 0 {
        if l2.len() > 0 {
            assert(l2.contains(l2[0]));
        }
        assert(l1 =~= l2);
    } else {
        let m1 = l1.last();
        assert(l1.contains(m1));
        assert(l2.contains(m1));
        let m2 = l2.last();
        assert(l2.contains(m2));
        assert(l1.contains(m2));
        let i2 = choose|i: int| 0 <= i < l2.len() && l2[i] == m1;
        assert(text_le(l2[i2], l2[l2.len() - 1]));
        let i1 = choose|i: int| 0 <= i < l1.len() && l1[i] == m2;
        assert(text_le(l1[i1], l1[l1.len() - 1]));
        text_le_antisymmetric(m1, m2);
        let r1 = l1.drop_last();
        let r2 = l2.drop_last();
        assert forall|path: Seq<char>| r1.contains(path) <==> r2.contains(path) by {
            if r1.contains(path) {
                let i = choose|i: int| 0 <= i < r1.len() && r1[i] == path;
                assert(l1[i] == path && path != m1);
                assert(l2.contains(path));
                let j = choose|j: int| 0 <= j < l2.len() && l2[j] == path;
                assert(r2[j] == path);
            }
            if r2.contains(path) {
                let i = choose|i: int| 0 <= i < r2.len() && r2[i] == path;
                assert(l2[i] == path && path != m2);
                assert(l1.contains(path));
                let j = choose|j: int| 0 <= j < l1.len() && l1[j] == path;
                assert(r1[j] == path);
            }
        }
        same_ascending(r1, r2);
        assert(l1 =~= r1.push(m1));
        assert(l2 =~= r2.push(m2));
    }
}

/// Whether `list` holds each of the first `count` paths of `order` that `keep` holds of,
/// once, and nothing else.
spec fn collects(
    order: Seq<Seq<char>>,
    count: int,
    keep: spec_fn(Seq<char>) -> bool,
    list: Seq<Seq<char>>,
) -> bool {
    &&& list.no_duplicates()
    &&& forall|path: Seq<char>|
        list.contains(path) <==> keep(path) && order.take(count).contains(path)
}

proof fn collects_next(
    order: Seq<Seq<char>>,
    count: int,
    keep: spec_fn(Seq<char>) -> bool,
    list: Seq<Seq<char>>,
)
    requires
        order.no_duplicates(),
        0 <= count < order.len(),
        collects(order, count, keep, list),
    ensures
        keep(order[count]) ==> collects(order, count + 1, keep, list.push(order[count])),
        !keep(order[count]) ==> collects(order, count + 1, keep, list),
{
    let path = order[count];
    let before = order.take(count);
    let after = order.take(count + 1);
    assert(after =~= before.push(path));
    assert(!before.contains(path));
    assert forall|p: Seq<char>| after.contains(p) <==> before.contains(p) || p == path by {
        if before.contains(p) {
            let i = choose|i: int| 0 <= i < before.len() && before[i] == p;
            assert(after[i] == p);
        }
        if p == path {
            assert(after[count] == p);
        }
    }
    if keep(path) {
        let longer = list.push(path);
        assert(!list.contains(path));
        assert forall|p: Seq<char>| longer.contains(p) <==> list.contains(p) || p == path by {
            if list.contains(p) {
                let i = choose|i: int| 0 <= i < list.len() && list[i] == p;
                assert(longer[i] == p);
            }
            if p == path {
                assert(longer[list.len() as int] == p);
            }
        }
        assert(longer.no_duplicates());
    }
}

/// Splits the files of the source into those in sync, which are counted, and those that
/// the target lacks or holds with another size; the latter are listed again by themselves.
fn compare_source(a_idx: &FileIndex, b_idx: &FileIndex) -> (out: (Vec<String>, Vec<String>, usize))
    requires
        a_idx.wf(),
        b_idx.wf(),
    ensures
        texts(out.0@).no_duplicates(),
        forall|path: Seq<char>| texts(out.0@).contains(path) <==> wanted(a_idx@, b_idx@, path),
        texts(out.1@).no_duplicates(),
        forall|path: Seq<char>|
            texts(out.1@).contains(path) <==> wanted(a_idx@, b_idx@, path)
                && b_idx@.sizes.contains_key(path),
        out.2 == a_idx@.sizes.dom().filter(|path: Seq<char>| in_sync(a_idx@, b_idx@, path)).len(),
{
    let ghost a = a_idx@;
    let ghost b = b_idx@;
    let ghost order = a_idx.order();
    let ghost is_wanted = |path: Seq<char>| wanted(a, b, path);
    let ghost is_changed = |path: Seq<char>| wanted(a, b, path) && b.sizes.contains_key(path);
    let ghost is_synced = |path: Seq<char>| in_sync(a, b, path);
    let ghost mut synced: Seq<Seq<char>> = Seq::empty();
    let mut copies: Vec<String> = Vec::new();
    let mut changed: Vec<String> = Vec::new();
    let mut skip_count: usize = 0;
    let count = a_idx.len();
    let mut i: usize = 0;
    assert(texts(copies@) =~= Seq::empty());
    assert(texts(changed@) =~= Seq::empty());
    while i < count
        invariant
            i <= count,
            count == order.len(),
            order == a_idx.order(),
            order.no_duplicates(),
            order.to_set() == a.sizes.dom(),
            a == a_idx@,
            b == b_idx@,
            a_idx.wf(),
            is_wanted == (|path: Seq<char>| wanted(a, b, path)),
            is_changed == (|path: Seq<char>| wanted(a, b, path) && b.sizes.contains_key(path)),
            is_synced == (|path: Seq<char>| in_sync(a, b, path)),
            collects(order, i as int, is_wanted, texts(copies@)),
            collects(order, i as int, is_changed, texts(changed@)),
            collects(order, i as int, is_synced, synced),
            skip_count == synced.len(),
            skip_count <= i,
        decreases count - i,
    {
        let ghost path = order[i as int];
        let ghost copies_before = texts(copies@);
        let ghost changed_before = texts(changed@);
        proof {
            collects_next(order, i as int, is_wanted, copies_before);
            collects_next(order, i as int, is_changed, changed_before);
            collects_next(order, i as int, is_synced, synced);
            assert(order.to_set().contains(path));
        }
        let rel = a_idx.path_at(i);
        match (a_idx.size_of(rel.as_str()), b_idx.size_of(rel.as_str())) {
            (Some(a_size), Some(b_size)) => {
                if a_size == b_size {
                    skip_count += 1;
                    proof {
                        synced = synced.push(path);
                    }
                } else {
                    copies.push(rel.clone());
                    changed.push(rel.clone());
                    assert(texts(copies@) =~= copies_before.push(path));
                    assert(texts(changed@) =~= changed_before.push(path));
                }
            },
            _ => {
                copies.push(rel.clone());
                assert(texts(copies@) =~= copies_before.push(path));
            },
        }
        i += 1;
    }
    proof {
        assert(order.take(count as int) =~= order);
        assert forall|p: Seq<char>| order.contains(p) <==> a.sizes.contains_key(p) by {
            assert(order.to_set().contains(p) <==> a.sizes.dom().contains(p));
        }
        synced.unique_seq_to_set();
        assert(synced.to_set() =~= a.sizes.dom().filter(is_synced)) by {
            assert forall|p: Seq<char>| synced.to_set().contains(p) <==> a.sizes.dom().filter(
                is_synced,
            ).contains(p) by {
                assert(synced.to_set().contains(p) <==> synced.contains(p));
            }
        }
    }
    (copies, changed, skip_count)
}

/// Appends the paths of the target that the source lacks.
fn add_extra(a_idx: &FileIndex, b_idx: &FileIndex, changed: Vec<String>) -> (out: Vec<String>)
    requires
        a_idx.wf(),
        b_idx.wf(),
        texts(changed@).no_duplicates(),
        forall|path: Seq<char>|
            texts(changed@).contains(path) <==> wanted(a_idx@, b_idx@, path)
                && b_idx@.sizes.contains_key(path),
    ensures
        texts(out@).no_duplicates(),
        forall|path: Seq<char>| texts(out@).contains(path) <==> stale(a_idx@, b_idx@, path),
{
    let ghost a = a_idx@;
    let ghost b = b_idx@;
    let ghost order = b_idx.order();
    let ghost first = texts(changed@);
    let ghost is_extra = |path: Seq<char>| !a.sizes.contains_key(path);
    let ghost mut extra: Seq<Seq<char>> = Seq::empty();
    let mut out = changed;
    let count = b_idx.len();
    let mut i: usize = 0;
    assert(texts(out@) =~= first + extra);
    while i < count
        invariant
            i <= count,
            count == order.len(),
            order == b_idx.order(),
            order.no_duplicates(),
            a == a_idx@,
            b_idx.wf(),
            is_extra == (|path: Seq<char>| !a.sizes.contains_key(path)),
            collects(order, i as int, is_extra, extra),
            texts(out@) == first + extra,
        decreases count - i,
    {
        let ghost path = order[i as int];
        proof {
            collects_next(order, i as int, is_extra, extra);
        }
        let rel = b_idx.path_at(i);
        if a_idx.size_of(rel.as_str()).is_none() {
            out.push(rel.clone());
            proof {
                assert(texts(out@) =~= (first + extra).push(path));
                assert((first + extra).push(path) =~= first + extra.push(path));
                extra = extra.push(path);
            }
        }
        i += 1;
    }
    proof {
        assert(order.take(count as int) =~= order);
        assert forall|p: Seq<char>| order.contains(p) <==> b.sizes.contains_key(p) by {
            assert(order.to_set().contains(p) <==> b.sizes.dom().contains(p));
        }
        let all = first + extra;
        assert forall|p: Seq<char>| all.contains(p) <==> first.contains(p) || extra.contains(p) by {
            if first.contains(p) {
                let k = choose|k: int| 0 <= k < first.len() && first[k] == p;
                assert(all[k] == p);
            }
            if extra.contains(p) {
                let k = choose|k: int| 0 <= k < extra.len() && extra[k] == p;
                assert(all[first.len() + k] == p);
            }
        }
        assert forall|x: int, y: int| 0 <= x < all.len() && 0 <= y < all.len() && x != y implies all[x]
            != all[y] by {
            if x < first.len() && y >= first.len() {
                assert(first.contains(all[x]) && extra.contains(all[y]));
            }
            if y < first.len() && x >= first.len() {
                assert(first.contains(all[y]) && extra.contains(all[x]));
            }
        }
    }
    out
}

/// Whether the target holds a file at `path` that is in sync.
fn is_in_sync(a_idx: &FileIndex, b_idx: &FileIndex, path: &str) -> (out: bool)
    ensures
        out == in_sync(a_idx@, b_idx@, path@),
{
    match (a_idx.size_of(path), b_idx.size_of(path)) {
        (Some(a_size), Some(b_size)) => a_size == b_size,
        _ => false,
    }
}

/// The first path of `pool` that is neither taken nor in sync.
fn first_movable<'a>(
    a_idx: &FileIndex,
    b_idx: &FileIndex,
    pool: &'a Vec<String>,
    taken: &StringHashSet,
) -> (out: Option<&'a String>)
    ensures
        ({
            let barred = taken@.union(synced(a_idx@, b_idx@));
            match out {
                Some(path) => first_free(texts(pool@), barred) == Some(path@),
                None => first_free(texts(pool@), barred) is None,
            }
        }),
{
    let ghost all = texts(pool@);
    let ghost barred = taken@.union(synced(a_idx@, b_idx@));
    let mut i: usize = 0;
    assert(all.skip(0) =~= all);
    while i < pool.len()
        invariant
            i <= pool.len(),
            all == texts(pool@),
            barred == taken@.union(synced(a_idx@, b_idx@)),
            first_free(all, barred) == first_free(all.skip(i as int), barred),
        decreases pool.len() - i,
    {
        assert(all.skip(i as int)[0] == pool@[i as int]@);
        if !taken.contains(pool[i].as_str()) && !is_in_sync(a_idx, b_idx, pool[i].as_str()) {
            return Some(&pool[i]);
        }
        assert(all.skip(i as int).drop_first() =~= all.skip(i + 1));
        i += 1;
    }
    assert(all.skip(i as int).len() == 0);
    None
}

pub(crate) proof fn greedy_len(a: IndexModel, b: IndexModel, list: Seq<Seq<char>>)
    ensures
        greedy(a, b, list).len() == list.len(),
    decreases list.len(),
{
    if list.len() > 0 {
        greedy_len(a, b, list.drop_last());
    }
}

pub(crate) proof fn used_grows(matches: Seq<Option<Seq<char>>>, next: Option<Seq<char>>)
    ensures
        used(matches.push(next)) == match next {
            Some(path) => used(matches).insert(path),
            None => used(matches),
        },
{
    let longer = matches.push(next);
    assert forall|p: Seq<char>| longer.contains(Some(p)) <==> matches.contains(Some(p)) || next
        == Some(p) by {
        if matches.contains(Some(p)) {
            let i = choose|i: int| 0 <= i < matches.len() && matches[i] == Some(p);
            assert(longer[i] == Some(p));
        }
        if next == Some(p) {
            assert(longer[matches.len() as int] == Some(p));
        }
    }
    assert(used(longer) =~= match next {
        Some(path) => used(matches).insert(path),
        None => used(matches),
    });
}

/// Finds, for each listed path in turn, a file of the target to move there.
fn match_moves(a_idx: &FileIndex, b_idx: &FileIndex, list: &Vec<String>) -> (out: (
    Vec<(String, String)>,
    Vec<String>,
    StringHashSet,
))
    requires
        a_idx.wf(),
        b_idx.wf(),
        forall|i: int| 0 <= i < list.len() ==> a_idx@.sizes.contains_key(#[trigger] list@[i]@),
    ensures
        ({
            let paths = texts(list@);
            let matches = greedy(a_idx@, b_idx@, paths);
            &&& text_pairs(out.0@) == matched(paths, matches)
            &&& texts(out.1@) == unmatched(paths, matches)
            &&& out.2@ == used(matches)
        }),
{
    let ghost a = a_idx@;
    let ghost b = b_idx@;
    let ghost paths = texts(list@);
    let mut moves: Vec<(String, String)> = Vec::new();
    let mut copies: Vec<String> = Vec::new();
    let mut consumed = StringHashSet::new();
    let mut i: usize = 0;
    assert(paths.take(0) =~= Seq::empty());
    assert(text_pairs(moves@) =~= Seq::empty());
    assert(texts(copies@) =~= Seq::empty());
    assert(used(Seq::empty()) =~= Set::empty());
    while i < list.len()
        invariant
            i <= list.len(),
            a == a_idx@,
            b == b_idx@,
            a_idx.wf(),
            b_idx.wf(),
            paths == texts(list@),
            forall|k: int| 0 <= k < list.len() ==> a_idx@.sizes.contains_key(#[trigger] list@[k]@),
            text_pairs(moves@) == matched(paths.take(i as int), greedy(a, b, paths.take(i as int))),
            texts(copies@) == unmatched(paths.take(i as int), greedy(a, b, paths.take(i as int))),
            consumed@ == used(greedy(a, b, paths.take(i as int))),
        decreases list.len() - i,
    {
        let ghost before = paths.take(i as int);
        let ghost after = paths.take(i + 1);
        let ghost path = list@[i as int]@;
        let ghost matches = greedy(a, b, before);
        let ghost next = first_free(
            b.pool(path_key(path, a.sizes[path])),
            used(matches).union(synced(a, b)),
        );
        let ghost moves_before = text_pairs(moves@);
        let ghost copies_before = texts(copies@);
        proof {
            assert(after.drop_last() =~= before);
            assert(after.last() == path);
            assert(greedy(a, b, after) =~= matches.push(next));
            assert(greedy(a, b, after).drop_last() =~= matches);
            used_grows(matches, next);
        }
        let copy_path = list[i].as_str();
        let size = match a_idx.size_of(copy_path) {
            Some(size) => size,
            None => 0,
        };
        let key = file_key(copy_path, size);
        let found = match b_idx.pool(key.as_str()) {
            Some(pool) => first_movable(a_idx, b_idx, pool, &consumed),
            None => None,
        };
        match found {
            Some(source) => {
                assert(next == Some(source@));
                consumed.insert(source.clone());
                moves.push((source.clone(), list[i].clone()));
                assert(text_pairs(moves@) =~= moves_before.push((source@, path)));
            },
            None => {
                assert(next is None);
                copies.push(list[i].clone());
                assert(texts(copies@) =~= copies_before.push(path));
            },
        }
        i += 1;
    }
    assert(paths.take(i as int) =~= paths);
    (moves, copies, consumed)
}

/// The moves of a list of matches take away exactly the sources that it uses.
pub(crate) proof fn matched_sources(list: Seq<Seq<char>>, matches: Seq<Option<Seq<char>>>)
    requires
        list.len() == matches.len(),
    ensures
        forall|path: Seq<char>| #[trigger]
            moved_away(matched(list, matches), path) <==> used(matches).contains(path),
    decreases list.len(),
{
    if list.len() > 0 {
        let l = list.drop_last();
        let m = matches.drop_last();
        matched_sources(l, m);
        used_grows(m, matches.last());
        assert(m.push(matches.last()) =~= matches);
        let before = matched(l, m);
        let after = matched(list, matches);
        assert forall|path: Seq<char>| #[trigger] moved_away(after, path) <==> used(
            matches,
        ).contains(path) by {
            if moved_away(after, path) {
                let i = choose|i: int| 0 <= i < after.len() && #[trigger] after[i].0 == path;
                if i < before.len() {
                    assert(before[i].0 == path);
                    assert(moved_away(before, path));
                }
            }
            if used(matches).contains(path) {
                if moved_away(before, path) {
                    let i = choose|i: int| 0 <= i < before.len() && #[trigger] before[i].0 == path;
                    assert(after[i].0 == path);
                } else {
                    assert(matches.last() == Some(path));
                    assert(after[before.len() as int].0 == path);
                }
            }
        }
    } else {
        assert(matched(list, matches).len() == 0);
        assert(used(matches) =~= Set::empty());
    }
}

/// The listed paths that are not taken, in their order.
fn without_taken(list: &Vec<String>, taken: &StringHashSet) -> (out: Vec<String>)
    requires
        texts(list@).no_duplicates(),
    ensures
        texts(out@).no_duplicates(),
        forall|path: Seq<char>|
            texts(out@).contains(path) <==> texts(list@).contains(path) && !taken@.contains(path),
{
    let ghost all = texts(list@);
    let ghost is_free = |path: Seq<char>| !taken@.contains(path);
    let mut out: Vec<String> = Vec::new();
    let mut i: usize = 0;
    assert(texts(out@) =~= Seq::empty());
    while i < list.len()
        invariant
            i <= list.len(),
            all == texts(list@),
            all.no_duplicates(),
            is_free == (|path: Seq<char>| !taken@.contains(path)),
            collects(all, i as int, is_free, texts(out@)),
        decreases list.len() - i,
    {
        let ghost before = texts(out@);
        proof {
            collects_next(all, i as int, is_free, before);
        }
        if !taken.contains(list[i].as_str()) {
            out.push(list[i].clone());
            assert(texts(out@) =~= before.push(all[i as int]));
        }
        i += 1;
    }
    assert(all.take(i as int) =~= all);
    out
}

proof fn bytes_at_prefix(a: IndexModel, list: Seq<Seq<char>>, count: int)
    requires
        0 <= count <= list.len(),
    ensures
        bytes_at(a, list.take(count)) <= bytes_at(a, list),
    decreases list.len(),
{
    if count < list.len() {
        bytes_at_prefix(a, list.drop_last(), count);
        assert(list.drop_last().take(count) =~= list.take(count));
    } else {
        assert(list.take(count) =~= list);
    }
}

/// How many bytes the files at the listed paths come to, unless that is too much for 64
/// bits.
fn sum_sizes(a_idx: &FileIndex, list: &Vec<String>) -> (out: Option<u64>)
    requires
        forall|i: int| 0 <= i < list.len() ==> a_idx@.sizes.contains_key(#[trigger] list@[i]@),
    ensures
        match out {
            Some(total) => total == bytes_at(a_idx@, texts(list@)),
            None => bytes_at(a_idx@, texts(list@)) > u64::MAX,
        },
{
    let ghost paths = texts(list@);
    let mut total: u64 = 0;
    let mut i: usize = 0;
    assert(paths.take(0).len() == 0);
    while i < list.len()
        invariant
            i <= list.len(),
            paths == texts(list@),
            forall|k: int| 0 <= k < list.len() ==> a_idx@.sizes.contains_key(#[trigger] list@[k]@),
            total == bytes_at(a_idx@, paths.take(i as int)),
        decreases list.len() - i,
    {
        let size = match a_idx.size_of(list[i].as_str()) {
            Some(size) => size,
            None => 0,
        };
        proof {
            assert(paths.take(i + 1).drop_last() =~= paths.take(i as int));
            assert(paths.take(i + 1).last() == list@[i as int]@);
            bytes_at_prefix(a_idx@, paths, i + 1);
        }
        if size > u64::MAX - total {
            return None;
        }
        total += size;
        i += 1;
    }
    assert(paths.take(i as int) =~= paths);
    Some(total)
}

proof fn unmatched_subset(list: Seq<Seq<char>>, matches: Seq<Option<Seq<char>>>)
    requires
        list.len() == matches.len(),
    ensures
        forall|i: int|
            0 <= i < unmatched(list, matches).len() ==> list.contains(
                #[trigger] unmatched(list, matches)[i],
            ),
    decreases list.len(),
{
    if list.len() > 0 {
        let before = unmatched(list.drop_last(), matches.drop_last());
        unmatched_subset(list.drop_last(), matches.drop_last());
        assert forall|i: int| 0 <= i < unmatched(list, matches).len() implies list.contains(
            #[trigger] unmatched(list, matches)[i],
        ) by {
            if i < before.len() {
                assert(list.drop_last().contains(before[i]));
                let k = choose|k: int| 0 <= k < list.drop_last().len() && list.drop_last()[k] == before[i];
                assert(list[k] == before[i]);
            } else {
                assert(list[list.len() - 1] == list.last());
            }
        }
    }
}

/// Sorts the wanted paths.
fn sort_wanted(a_idx: &FileIndex, b_idx: &FileIndex, list: &mut Vec<String>)
    requires
        texts(old(list)@).no_duplicates(),
        forall|path: Seq<char>|
            texts(old(list)@).contains(path) <==> wanted(a_idx@, b_idx@, path),
    ensures
        texts(final(list)@) == wanted_list(a_idx@, b_idx@),
        lists_wanted(a_idx@, b_idx@, texts(final(list)@)),
{
    let ghost before = texts(list@);
    sort_strings(list);
    proof {
        let after = texts(list@);
        before.lemma_multiset_has_no_duplicates();
        after.lemma_multiset_has_no_duplicates_conv();
        before.to_multiset_ensures();
        after.to_multiset_ensures();
        assert forall|path: Seq<char>| after.contains(path) <==> wanted(a_idx@, b_idx@, path) by {
            assert(after.contains(path) <==> after.to_multiset().count(path) > 0);
            assert(before.contains(path) <==> before.to_multiset().count(path) > 0);
        }
        assert(lists_wanted(a_idx@, b_idx@, after));
        wanted_list_is_unique(a_idx@, b_idx@, after, wanted_list(a_idx@, b_idx@));
    }
}

/// Compares the source `a_idx` with the target `b_idx` and plans the run that makes the
/// target like the source. There is no plan where the bytes to copy do not fit 64 bits.
pub fn try_build_plan(a_idx: &FileIndex, b_idx: &FileIndex) -> (out: Option<SyncPlan>)
    requires
        a_idx.wf(),
        b_idx.wf(),
    ensures
        match out {
            Some(plan) => is_plan(a_idx@, b_idx@, plan@),
            None => bytes_at(a_idx@, planned_copies(a_idx@, b_idx@)) > u64::MAX,
        },
{
    let (mut wanted_paths, changed, skip_count) = compare_source(a_idx, b_idx);
    let stale_paths = add_extra(a_idx, b_idx, changed);
    sort_wanted(a_idx, b_idx, &mut wanted_paths);
    let ghost list = texts(wanted_paths@);
    assert forall|i: int| 0 <= i < wanted_paths.len() implies a_idx@.sizes.contains_key(
        #[trigger] wanted_paths@[i]@,
    ) by {
        assert(list[i] == wanted_paths@[i]@);
        assert(list.contains(list[i]));
    }
    let (moves, copies, consumed) = match_moves(a_idx, b_idx, &wanted_paths);
    let ghost matches = greedy(a_idx@, b_idx@, list);
    proof {
        greedy_len(a_idx@, b_idx@, list);
        matched_sources(list, matches);
        unmatched_subset(list, matches);
        assert forall|i: int| 0 <= i < copies.len() implies a_idx@.sizes.contains_key(
            #[trigger] copies@[i]@,
        ) by {
            assert(texts(copies@)[i] == copies@[i]@);
            assert(list.contains(unmatched(list, matches)[i]));
        }
    }
    let trashes = without_taken(&stale_paths, &consumed);
    match sum_sizes(a_idx, &copies) {
        Some(total_copy_bytes) => {
            let plan = SyncPlan { moves, copies, trashes, skip_count, total_copy_bytes };
            assert forall|path: Seq<char>|
                plan@.trashes.contains(path) <==> stale(a_idx@, b_idx@, path) && !moved_away(
                    plan@.moves,
                    path,
                ) by {
                assert(moved_away(matched(list, matches), path) <==> used(matches).contains(path));
            }
            Some(plan)
        },
        None => None,
    }
}

/// Compares the source `a_idx` with the target `b_idx` and plans the run that makes the
/// target like the source.
pub fn build_plan(a_idx: &FileIndex, b_idx: &FileIndex) -> (plan: SyncPlan)
    requires
        a_idx.wf(),
        b_idx.wf(),
        bytes_at(a_idx@, planned_copies(a_idx@, b_idx@)) <= u64::MAX,
    ensures
        is_plan(a_idx@, b_idx@, plan@),
{
    try_build_plan(a_idx, b_idx).unwrap()
}

impl SyncPlan {
    /// Whether there is nothing to do.
    pub fn is_empty(&self) -> (out: bool)
        ensures
            out == (self@.moves.len() == 0 && self@.copies.len() == 0 && self@.trashes.len() == 0),
    {
        self.moves.len() == 0 && self.copies.len() == 0 && self.trashes.len() == 0
    }
}

} // verus!
