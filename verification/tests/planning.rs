use sync_folder::index::FileIndex;
use sync_folder::plan::{build_plan, try_build_plan, SyncPlan};

fn index(files: &[(&str, u64)]) -> FileIndex {
    let mut index = FileIndex::new();
    for (path, size) in files {
        index.insert(path.to_string(), *size);
    }
    index
}

fn sorted(list: &Vec<String>) -> Vec<String> {
    let mut list = list.clone();
    list.sort();
    list
}

fn strings(list: &[&str]) -> Vec<String> {
    list.iter().map(|s| s.to_string()).collect()
}

fn pairs(list: &[(&str, &str)]) -> Vec<(String, String)> {
    list.iter().map(|(s, d)| (s.to_string(), d.to_string())).collect()
}

fn plan(a: &[(&str, u64)], b: &[(&str, u64)]) -> SyncPlan {
    build_plan(&index(a), &index(b))
}

#[test]
fn new_files_are_copied_in_order() {
    let plan = plan(&[("z", 1), ("a", 2), ("m/n", 4)], &[]);
    assert_eq!(plan.copies, strings(&["a", "m/n", "z"]));
    assert_eq!(plan.total_copy_bytes, 7);
    assert!(plan.moves.is_empty());
    assert!(plan.trashes.is_empty());
    assert_eq!(plan.skip_count, 0);
    assert!(!plan.is_empty());
}

#[test]
fn copies_come_in_code_point_order() {
    let plan = plan(&[("é", 1), ("b", 1), ("B", 1), ("a/b", 1), ("a", 1), ("文", 1), ("😀", 1)], &[]);
    assert_eq!(plan.copies, strings(&["B", "a", "a/b", "b", "é", "文", "😀"]));
}

#[test]
fn equal_folders_need_nothing() {
    let files = [("a", 1), ("b/c", 2)];
    let plan = plan(&files, &files);
    assert!(plan.is_empty());
    assert_eq!(plan.skip_count, 2);
    assert_eq!(plan.total_copy_bytes, 0);
}

#[test]
fn extra_files_are_trashed() {
    let plan = plan(&[("a", 1)], &[("a", 1), ("old", 5), ("x/old2", 6)]);
    assert_eq!(sorted(&plan.trashes), strings(&["old", "x/old2"]));
    assert!(plan.moves.is_empty() && plan.copies.is_empty());
    assert_eq!(plan.skip_count, 1);
}

#[test]
fn changed_files_are_trashed_and_copied() {
    let plan = plan(&[("a", 2)], &[("a", 1)]);
    assert_eq!(plan.copies, strings(&["a"]));
    assert_eq!(plan.trashes, strings(&["a"]));
    assert_eq!(plan.total_copy_bytes, 2);
}

#[test]
fn moved_files_are_moved_inside_the_target() {
    let plan = plan(&[("new/movie.mp4", 100)], &[("old/movie.mp4", 100)]);
    assert_eq!(plan.moves, pairs(&[("old/movie.mp4", "new/movie.mp4")]));
    assert!(plan.copies.is_empty() && plan.trashes.is_empty());
    assert_eq!(plan.total_copy_bytes, 0);
}

#[test]
fn a_move_needs_the_same_name_and_size() {
    let plan = plan(&[("n/f", 10), ("n/g", 20)], &[("o/f", 11), ("o/h", 20)]);
    assert!(plan.moves.is_empty());
    assert_eq!(plan.copies, strings(&["n/f", "n/g"]));
    assert_eq!(sorted(&plan.trashes), strings(&["o/f", "o/h"]));
}

#[test]
fn each_file_is_moved_once_in_the_order_of_the_scan() {
    let plan = plan(&[("1/f", 5), ("2/f", 5), ("3/f", 5)], &[("y/f", 5), ("x/f", 5)]);
    assert_eq!(plan.moves, pairs(&[("y/f", "1/f"), ("x/f", "2/f")]));
    assert_eq!(plan.copies, strings(&["3/f"]));
    assert_eq!(plan.total_copy_bytes, 5);
}

#[test]
fn every_source_file_is_skipped_moved_or_copied() {
    let a = [("s", 1), ("m/f", 2), ("c", 3), ("u", 4)];
    let plan = plan(&a, &[("s", 1), ("o/f", 2), ("u", 5)]);
    assert_eq!(plan.skip_count, 1);
    assert_eq!(plan.moves, pairs(&[("o/f", "m/f")]));
    assert_eq!(plan.copies, strings(&["c", "u"]));
    assert_eq!(plan.skip_count + plan.moves.len() + plan.copies.len(), a.len());
    assert_eq!(plan.trashes, strings(&["u"]));
}

#[test]
fn a_file_in_sync_is_not_moved() {
    let alone = plan(&[("x/f", 10), ("y/f", 10)], &[("x/f", 10)]);
    assert!(alone.moves.is_empty() && alone.trashes.is_empty());
    assert_eq!(alone.copies, strings(&["y/f"]));
    assert_eq!(alone.skip_count, 1);
    assert_eq!(alone.total_copy_bytes, 10);
    let passed_over = plan(&[("x/f", 10), ("y/f", 10)], &[("x/f", 10), ("z/f", 10)]);
    assert_eq!(passed_over.moves, pairs(&[("z/f", "y/f")]));
    assert_eq!(passed_over.skip_count, 1);
    assert!(passed_over.copies.is_empty() && passed_over.trashes.is_empty());
}

#[test]
fn swapped_files_are_matched_crosswise() {
    let plan = plan(&[("p/f", 20), ("q/f", 10)], &[("p/f", 10), ("q/f", 20)]);
    assert_eq!(plan.moves, pairs(&[("q/f", "p/f"), ("p/f", "q/f")]));
    assert!(plan.copies.is_empty() && plan.trashes.is_empty());
}

#[test]
fn the_order_of_the_source_does_not_matter() {
    let b = [("o/f", 1), ("p/f", 1)];
    let one = plan(&[("1/f", 1), ("2/f", 1), ("3/f", 1)], &b);
    let two = plan(&[("3/f", 1), ("1/f", 1), ("2/f", 1)], &b);
    assert_eq!(one.moves, two.moves);
    assert_eq!(one.copies, two.copies);
    assert_eq!(sorted(&one.trashes), sorted(&two.trashes));
}

#[test]
fn there_is_no_plan_for_too_many_bytes() {
    let a = index(&[("a", u64::MAX), ("b", 1)]);
    assert!(try_build_plan(&a, &index(&[])).is_none());
    let plan = try_build_plan(&a, &index(&[("b", 1)])).unwrap();
    assert_eq!(plan.total_copy_bytes, u64::MAX);
}
