use std::collections::BTreeMap;
use sync_folder::display::Line;
use sync_folder::execute::{failure_line, Action, Execution, Stage};
use sync_folder::index::FileIndex;
use sync_folder::plan::build_plan;

struct Disk {
    source: BTreeMap<String, String>,
    target: BTreeMap<String, String>,
    trash: BTreeMap<String, String>,
}

fn text(line: &Line) -> String {
    let mut out = String::new();
    for span in &line.spans {
        out.push_str(&span.text);
    }
    out
}

fn index(files: &[(&str, u64)]) -> FileIndex {
    let mut index = FileIndex::new();
    for (path, size) in files {
        index.insert(path.to_string(), *size);
    }
    index
}

fn contents(side: &str, files: &[(&str, u64)]) -> BTreeMap<String, String> {
    files.iter().map(|(p, _)| (p.to_string(), format!("{}:{}", side, p))).collect()
}

fn run(a: &[(&str, u64)], b: &[(&str, u64)]) -> (Disk, Vec<String>) {
    let a_idx = index(a);
    let plan = build_plan(&a_idx, &index(b));
    let mut disk =
        Disk { source: contents("A", a), target: contents("B", b), trash: BTreeMap::new() };
    let mut log: Vec<String> = Vec::new();
    let mut execution = Execution::new();
    while execution.stage() != Stage::Done {
        let exists = match execution.probe(&plan) {
            Some(path) => disk.target.contains_key(&path),
            None => false,
        };
        for action in execution.advance(&plan, &a_idx, "T", exists) {
            match &action {
                Action::Say(line) => log.push(text(line)),
                Action::MakeTrashParent(_) => {}
                Action::MakeParent(_) => {}
                Action::MoveToTrash(path) => {
                    let file = disk.target.remove(path).unwrap();
                    assert!(disk.trash.insert(path.clone(), file).is_none());
                }
                Action::Move(source, dest) => {
                    let file = disk.target.remove(source).unwrap();
                    assert!(disk.target.insert(dest.clone(), file).is_none());
                }
                Action::TakeBack(source, dest) => {
                    let file = disk.trash.remove(source).unwrap();
                    assert!(disk.target.insert(dest.clone(), file).is_none());
                }
                Action::Copy(path) => {
                    let file = disk.source[path].clone();
                    assert!(disk.target.insert(path.clone(), file).is_none());
                }
            }
            execution.performed(&action);
            for (path, _) in b {
                let file = format!("B:{}", path);
                assert!(disk.target.values().chain(disk.trash.values()).any(|f| *f == file));
            }
        }
    }
    assert!(disk.target.keys().eq(disk.source.keys()));
    (disk, log)
}

fn entries(map: &BTreeMap<String, String>) -> Vec<(&str, &str)> {
    map.iter().map(|(p, f)| (p.as_str(), f.as_str())).collect()
}

#[test]
fn a_run_makes_the_target_like_the_source() {
    let (disk, log) = run(
        &[("same", 1), ("new/f", 2), ("add", 3), ("upd", 4)],
        &[("same", 1), ("old/f", 2), ("upd", 5), ("extra", 6)],
    );
    assert_eq!(
        entries(&disk.target),
        vec![("add", "A:add"), ("new/f", "B:old/f"), ("same", "B:same"), ("upd", "A:upd")]
    );
    assert_eq!(entries(&disk.trash), vec![("extra", "B:extra"), ("upd", "B:upd")]);
    assert_eq!(log[0], "正在执行 B 内部移动（1 个）...");
    assert_eq!(log[1], "  mv  old/f  →  new/f");
    assert_eq!(log[2], "正在移到回收站（2 个）→ _trash_T/");
    assert_eq!(log[5], "正在从 A 复制到 B（2 个文件）...");
    assert_eq!(log[6], "  cp  add  (3 B)");
    assert_eq!(log[7], "  cp  upd  (4 B)");
    assert_eq!(log.len(), 8);
}

#[test]
fn a_second_run_has_nothing_to_do() {
    let a = [("n/f", 2), ("c", 3)];
    let (disk, _) = run(&a, &[("o/f", 2), ("x", 9)]);
    assert_eq!(disk.target.keys().cloned().collect::<Vec<String>>(), vec!["c", "n/f"]);
    assert!(build_plan(&index(&a), &index(&a)).is_empty());
}

#[test]
fn a_file_in_the_way_of_a_move_is_trashed_once() {
    let (disk, log) = run(&[("d/f", 7)], &[("d/f", 1), ("o/f", 7)]);
    assert_eq!(entries(&disk.target), vec![("d/f", "B:o/f")]);
    assert_eq!(entries(&disk.trash), vec![("d/f", "B:d/f")]);
    assert_eq!(
        log,
        vec![
            "正在执行 B 内部移动（1 个）...",
            "  mv  o/f  →  d/f",
            "正在移到回收站（1 个）→ _trash_T/",
        ]
    );
}

#[test]
fn a_file_in_sync_stays_where_it_is() {
    let (disk, _) = run(&[("x/f", 10), ("y/f", 10)], &[("x/f", 10)]);
    assert_eq!(entries(&disk.target), vec![("x/f", "B:x/f"), ("y/f", "A:y/f")]);
    assert!(disk.trash.is_empty());
}

#[test]
fn two_files_can_be_swapped() {
    let (disk, log) = run(&[("p/f", 20), ("q/f", 10)], &[("p/f", 10), ("q/f", 20)]);
    assert_eq!(entries(&disk.target), vec![("p/f", "B:q/f"), ("q/f", "B:p/f")]);
    assert!(disk.trash.is_empty());
    assert_eq!(
        log,
        vec![
            "正在执行 B 内部移动（2 个）...",
            "  mv  q/f  →  p/f",
            "  mv  p/f  →  q/f",
        ]
    );
}

#[test]
fn a_chain_of_moves_that_fills_paths_first_works() {
    let (disk, _) = run(&[("a/f", 10), ("b/f", 20)], &[("a/f", 20), ("c/f", 10)]);
    assert_eq!(entries(&disk.target), vec![("a/f", "B:c/f"), ("b/f", "B:a/f")]);
    assert!(disk.trash.is_empty());
}

#[test]
fn three_files_can_change_places_in_a_circle() {
    let (disk, _) = run(
        &[("1/f", 10), ("2/f", 20), ("3/f", 30)],
        &[("1/f", 20), ("2/f", 30), ("3/f", 10)],
    );
    assert_eq!(
        entries(&disk.target),
        vec![("1/f", "B:3/f"), ("2/f", "B:1/f"), ("3/f", "B:2/f")]
    );
    assert!(disk.trash.is_empty());
}

#[test]
fn a_path_is_cleared_only_when_its_file_is_in_the_trash() {
    let a_idx = index(&[("d/f", 7)]);
    let plan = build_plan(&a_idx, &index(&[("d/f", 1), ("o/f", 7)]));
    for done in [false, true].iter() {
        let mut execution = Execution::new();
        let actions = execution.advance(&plan, &a_idx, "T", true);
        execution.performed(&actions[1]);
        if *done {
            assert!(matches!(&actions[2], Action::MoveToTrash(p) if p == "d/f"));
            execution.performed(&actions[2]);
        }
        assert!(execution.advance(&plan, &a_idx, "T", false).is_empty());
        assert_eq!(execution.stage(), Stage::Trashes);
        assert_eq!(execution.probe(&plan).is_none(), *done);
    }
}

#[test]
fn a_chain_of_moves_that_frees_paths_first_works() {
    let (disk, _) = run(&[("a/f", 2), ("b/f", 3)], &[("b/f", 2), ("c/f", 3)]);
    assert_eq!(entries(&disk.target), vec![("a/f", "B:b/f"), ("b/f", "B:c/f")]);
    assert!(disk.trash.is_empty());
}

#[test]
fn a_missing_path_is_not_trashed() {
    let a_idx = index(&[]);
    let plan = build_plan(&a_idx, &index(&[("gone", 1)]));
    let mut execution = Execution::new();
    assert!(execution.probe(&plan).is_none());
    assert!(execution.advance(&plan, &a_idx, "T", false).is_empty());
    assert_eq!(execution.stage(), Stage::Trashes);
    assert_eq!(execution.probe(&plan), Some("gone".to_string()));
    let actions = execution.advance(&plan, &a_idx, "T", false);
    assert_eq!(actions.len(), 1);
    assert!(matches!(&actions[0], Action::Say(_)));
}

#[test]
fn a_second_trash_pass_changes_nothing() {
    let a_idx = index(&[]);
    let plan = build_plan(&a_idx, &index(&[("x", 1), ("d/y", 2)]));
    let mut files: Vec<String> = vec!["x".to_string(), "d/y".to_string()];
    for pass in 0..2 {
        let mut moved = 0;
        let mut execution = Execution::new();
        while execution.stage() != Stage::Done {
            let exists = match execution.probe(&plan) {
                Some(path) => files.contains(&path),
                None => false,
            };
            for action in execution.advance(&plan, &a_idx, "T", exists) {
                if let Action::MoveToTrash(path) = &action {
                    let at = files.iter().position(|f| f == path).unwrap();
                    files[at] = format!("_trash_T/{}", path);
                    moved += 1;
                }
                execution.performed(&action);
            }
        }
        assert_eq!(moved, if pass == 0 { 2 } else { 0 });
        assert_eq!(files, vec!["_trash_T/x".to_string(), "_trash_T/d/y".to_string()]);
    }
}

#[test]
fn folders_are_made_before_files_are_put_there() {
    let a_idx = index(&[("d/f", 7)]);
    let plan = build_plan(&a_idx, &index(&[("d/f", 1), ("o/f", 7)]));
    let mut execution = Execution::new();
    let actions = execution.advance(&plan, &a_idx, "T", true);
    assert_eq!(actions.len(), 6);
    assert!(matches!(&actions[1], Action::MakeTrashParent(p) if p == "d/f"));
    assert!(matches!(&actions[2], Action::MoveToTrash(p) if p == "d/f"));
    assert!(matches!(&actions[3], Action::MakeParent(p) if p == "d/f"));
    assert!(matches!(&actions[4], Action::Move(s, d) if s == "o/f" && d == "d/f"));
}

#[test]
fn failures_name_their_stage() {
    assert_eq!(text(&failure_line(Stage::Moves, "e")), "移动操作失败：e");
    assert_eq!(text(&failure_line(Stage::Trashes, "e")), "Trash 操作失败：e");
    assert_eq!(text(&failure_line(Stage::Copies, "e")), "复制操作失败：e");
}
