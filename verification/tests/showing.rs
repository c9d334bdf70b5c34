use sync_folder::display::{closing_lines, display_plan, Line, Tone};
use sync_folder::index::FileIndex;
use sync_folder::paint::{paint, render};
use sync_folder::plan::build_plan;

fn index(files: &[(String, u64)]) -> FileIndex {
    let mut index = FileIndex::new();
    for (path, size) in files {
        index.insert(path.clone(), *size);
    }
    index
}

fn text(line: &Line) -> String {
    let mut out = String::new();
    for span in &line.spans {
        out.push_str(&span.text);
    }
    out
}

fn texts(lines: &Vec<Line>) -> Vec<String> {
    lines.iter().map(text).collect()
}

const RULE: &str = "══════════════════════════════════════════════════════";

#[test]
fn an_empty_plan_is_shown_in_full() {
    let a = index(&[("a".to_string(), 1)]);
    let plan = build_plan(&a, &index(&[("a".to_string(), 1)]));
    let lines = display_plan(&plan, &a, "/A", "/B", "T");
    assert_eq!(
        texts(&lines),
        vec![
            "",
            RULE,
            " 同步计划： /A  →  /B",
            RULE,
            "",
            "[移动] 无 B 内部移动",
            "",
            "[新增] 无需从 A 复制",
            "",
            "[删除] 无需移到回收站",
            "",
            "[跳过] 1 个文件已同步，无需操作",
            "",
            "── 统计 ────────────────────────────────────────────────",
            "  跨盘复制：0 个文件 / 0 B",
            "  B 内部移动：0 个文件",
            "  B 内部 trash：0 个文件",
            RULE,
        ]
    );
    assert_eq!(lines[1].spans[0].tone, Tone::Bold);
    assert_eq!(lines[2].spans[2].tone, Tone::Cyan);
    assert_eq!(lines[5].spans[0].tone, Tone::Dimmed);
}

#[test]
fn entries_are_shown_with_their_details() {
    let a = index(&[("n/f".to_string(), 5), ("c".to_string(), 2048)]);
    let plan = build_plan(&a, &index(&[("o/f".to_string(), 5), ("x".to_string(), 1)]));
    let lines = display_plan(&plan, &a, "/A", "/B", "20240101_000000");
    let shown = texts(&lines);
    assert_eq!(shown[5], "[移动] B 内部移动 1 个文件（零跨盘消耗）");
    assert_eq!(shown[6], "  mv  o/f  →  n/f");
    assert_eq!(shown[8], "[新增] 从 A 复制到 B：1 个文件，共 2 KB（跨盘操作）");
    assert_eq!(shown[9], "  cp  c  (2 KB)");
    assert_eq!(shown[11], "[删除] 移到回收站：1 个文件 → _trash_20240101_000000/");
    assert_eq!(shown[12], "  trash  x");
    assert_eq!(shown[17], "  跨盘复制：1 个文件 / 2 KB");
    assert_eq!(lines[5].spans[0].tone, Tone::GreenBold);
    assert_eq!(lines[6].spans[1].tone, Tone::Green);
    assert_eq!(lines[6].spans[3].tone, Tone::Dimmed);
    assert_eq!(lines[8].spans[0].tone, Tone::YellowBold);
    assert_eq!(lines[9].spans[1].tone, Tone::Yellow);
    assert_eq!(lines[11].spans[0].tone, Tone::RedBold);
    assert_eq!(lines[12].spans[1].tone, Tone::Red);
}

#[test]
fn long_lists_are_cut() {
    for count in [20usize, 21, 45].iter() {
        let files: Vec<(String, u64)> = (0..*count).map(|i| (format!("{:03}", i), 1)).collect();
        let a = index(&files);
        let plan = build_plan(&a, &index(&[]));
        let shown = texts(&display_plan(&plan, &a, "A", "B", "T"));
        assert_eq!(shown[8], format!("  cp  {:03}  (1 B)", 0));
        assert_eq!(shown[27], format!("  cp  {:03}  (1 B)", 19));
        if *count > 20 {
            assert_eq!(shown[28], format!("  ... 还有 {} 个", count - 20));
            assert_eq!(shown[29], "");
        } else {
            assert_eq!(shown[28], "");
        }
    }
}

#[test]
fn the_end_says_where_the_trash_is() {
    let a = index(&[]);
    let none = build_plan(&a, &index(&[]));
    assert_eq!(texts(&closing_lines(&none, "/B", "T")), vec!["", "同步完成！"]);
    let some = build_plan(&a, &index(&[("x".to_string(), 1)]));
    assert_eq!(
        texts(&closing_lines(&some, "/B", "T")),
        vec!["", "同步完成！", "已删除的文件移至：/B/_trash_T/"]
    );
}

#[test]
fn tones_have_their_codes_where_colours_are_on() {
    colored::control::set_override(true);
    assert_eq!(paint(Tone::Plain, "x"), "x");
    assert_eq!(paint(Tone::Bold, "x"), "\u{1b}[1mx\u{1b}[0m");
    assert_eq!(paint(Tone::Dimmed, "x"), "\u{1b}[2mx\u{1b}[0m");
    assert_eq!(paint(Tone::Cyan, "x"), "\u{1b}[36mx\u{1b}[0m");
    assert_eq!(paint(Tone::Green, "x"), "\u{1b}[32mx\u{1b}[0m");
    assert_eq!(paint(Tone::Yellow, "x"), "\u{1b}[33mx\u{1b}[0m");
    assert_eq!(paint(Tone::Red, "x"), "\u{1b}[31mx\u{1b}[0m");
    assert_eq!(paint(Tone::GreenBold, "x"), "\u{1b}[1;32mx\u{1b}[0m");
    assert_eq!(paint(Tone::YellowBold, "x"), "\u{1b}[1;33mx\u{1b}[0m");
    assert_eq!(paint(Tone::RedBold, "x"), "\u{1b}[1;31mx\u{1b}[0m");
    assert_eq!(paint(Tone::Red, ""), "\u{1b}[31m\u{1b}[0m");
    assert_eq!(
        paint(Tone::Red, "文\u{1b}[0m\u{1b}[0mb\u{1b}[0"),
        "\u{1b}[31m文\u{1b}[0m\u{1b}[31m\u{1b}[0m\u{1b}[31mb\u{1b}[0\u{1b}[0m"
    );
    let line = Line::new().with(Tone::Plain, "  ").with(Tone::Green, "mv").with(Tone::Plain, " a");
    assert_eq!(render(&line), "  \u{1b}[32mmv\u{1b}[0m a");
    colored::control::set_override(false);
    let tones = [
        Tone::Plain,
        Tone::Bold,
        Tone::Dimmed,
        Tone::Cyan,
        Tone::Green,
        Tone::Yellow,
        Tone::Red,
        Tone::GreenBold,
        Tone::YellowBold,
        Tone::RedBold,
    ];
    for tone in tones.iter() {
        assert_eq!(paint(*tone, "x\u{1b}[0my"), "x\u{1b}[0my");
    }
    assert_eq!(render(&line), "  mv a");
}
