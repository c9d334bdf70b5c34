//! What a run shows on the terminal: lines of text in colours.
use vstd::prelude::*;
use vstd::string::*;

use crate::index::{FileIndex, IndexModel};
use crate::paths::{trash_folder, trash_folder_name};
use crate::plan::{PlanModel, SyncPlan};
use crate::size::{format_bytes, size_text};
use crate::text::{decimal, push_decimal};

verus! {

/// How a piece of text looks.
#[derive(Clone, Copy, PartialEq, Eq, Structural, Debug)]
pub enum Tone {
    Plain,
    Bold,
    Dimmed,
    Cyan,
    Green,
    Yellow,
    Red,
    GreenBold,
    YellowBold,
    RedBold,
}

/// A piece of a line.
pub struct Span {
    pub tone: Tone,
    pub text: String,
}

/// A line, made of pieces that follow one another without gaps.
pub struct Line {
    pub spans: Vec<Span>,
}

impl View for Span {
    type V = (Tone, Seq<char>);

    open spec fn view(&self) -> (Tone, Seq<char>) {
        (self.tone, self.text@)
    }
}

impl View for Line {
    type V = Seq<(Tone, Seq<char>)>;

    open spec fn view(&self) -> Seq<(Tone, Seq<char>)> {
        self.spans@.map_values(|span: Span| span@)
    }
}

/// The pieces of each line of a list.
pub open spec fn shown(lines: Seq<Line>) -> Seq<Seq<(Tone, Seq<char>)>> {
    lines.map_values(|line: Line| line@)
}

impl Line {
    /// The empty line.
    pub fn new() -> (line: Line)
        ensures
            line@ == Seq::<(Tone, Seq<char>)>::empty(),
    {
        let line = Line { spans: Vec::new() };
        assert(line@ =~= Seq::empty());
        line
    }

    /// The line with a piece of text added.
    pub fn with(self, tone: Tone, text: &str) -> (line: Line)
        ensures
            line@ == self@.push((tone, text@)),
    {
        let mut spans = self.spans;
        spans.push(Span { tone, text: text.to_string() });
        let line = Line { spans };
        assert(line@ =~= self@.push((tone, text@)));
        line
    }
}

/// A line of one piece.
fn single(tone: Tone, text: &str) -> (line: Line)
    ensures
        line@ == seq![(tone, text@)],
{
    let line = Line::new().with(tone, text);
    assert(line@ =~= seq![(tone, text@)]);
    line
}

fn push_line(lines: &mut Vec<Line>, line: Line)
    ensures
        shown(final(lines)@) == shown(old(lines)@).push(line@),
{
    let ghost before = shown(lines@);
    lines.push(line);
    assert(shown(lines@) =~= before.push(line@));
}

/// A number between two texts.
fn around(before: &str, n: u64, after: &str) -> (out: String)
    ensures
        out@ == before@ + decimal(n as nat) + after@,
{
    let mut out = String::new();
    out.append(before);
    push_decimal(&mut out, n);
    out.append(after);
    assert(out@ =~= before@ + decimal(n as nat) + after@);
    out
}

/// How many entries of a list are shown at most.
pub const MAX_DISPLAY: usize = 20;

/// The size of the file at `path`, or 0 where the index has none.
pub open spec fn size_or_zero(index: IndexModel, path: Seq<char>) -> nat {
    if index.sizes.contains_key(path) {
        index.sizes[path] as nat
    } else {
        0
    }
}

/// The line for one move.
pub open spec fn move_line_text(source: Seq<char>, dest: Seq<char>) -> Seq<(Tone, Seq<char>)> {
    seq![
        (Tone::Plain, "  "@),
        (Tone::Green, "mv"@),
        (Tone::Plain, "  "@),
        (Tone::Dimmed, source),
        (Tone::Plain, "  →  "@),
        (Tone::Plain, dest),
    ]
}

/// The line for one copy.
pub open spec fn copy_line_text(path: Seq<char>, size: nat) -> Seq<(Tone, Seq<char>)> {
    seq![
        (Tone::Plain, "  "@),
        (Tone::Yellow, "cp"@),
        (Tone::Plain, "  "@),
        (Tone::Plain, path),
        (Tone::Plain, "  "@),
        (Tone::Dimmed, "("@ + size_text(size) + ")"@),
    ]
}

/// The line for one file put into the trash.
pub open spec fn trash_line_text(path: Seq<char>) -> Seq<(Tone, Seq<char>)> {
    seq![
        (Tone::Plain, "  "@),
        (Tone::Red, "trash"@),
        (Tone::Plain, "  "@),
        (Tone::Plain, path),
    ]
}

/// The line for the entries of a list that are not shown.
pub open spec fn more_line_text(count: nat) -> Seq<(Tone, Seq<char>)> {
    seq![(Tone::Plain, "  "@), (Tone::Dimmed, "... 还有 "@ + decimal(count) + " 个"@)]
}

/// The line for one move.
pub fn move_line(source: &str, dest: &str) -> (line: Line)
    ensures
        line@ == move_line_text(source@, dest@),
{
    let line = Line::new().with(Tone::Plain, "  ").with(Tone::Green, "mv").with(
        Tone::Plain,
        "  ",
    ).with(Tone::Dimmed, source).with(Tone::Plain, "  →  ").with(Tone::Plain, dest);
    assert(line@ =~= move_line_text(source@, dest@));
    line
}

/// The line for one copy.
pub fn copy_line(path: &str, size: u64) -> (line: Line)
    ensures
        line@ == copy_line_text(path@, size as nat),
{
    let mut note = String::new();
    note.append("(");
    note.append(format_bytes(size).as_str());
    note.append(")");
    assert(note@ =~= "("@ + size_text(size as nat) + ")"@);
    let line = Line::new().with(Tone::Plain, "  ").with(Tone::Yellow, "cp").with(
        Tone::Plain,
        "  ",
    ).with(Tone::Plain, path).with(Tone::Plain, "  ").with(Tone::Dimmed, note.as_str());
    assert(line@ =~= copy_line_text(path@, size as nat));
    line
}

/// The line for one file put into the trash.
pub fn trash_line(path: &str) -> (line: Line)
    ensures
        line@ == trash_line_text(path@),
{
    let line = Line::new().with(Tone::Plain, "  ").with(Tone::Red, "trash").with(
        Tone::Plain,
        "  ",
    ).with(Tone::Plain, path);
    assert(line@ =~= trash_line_text(path@));
    line
}

fn more_line(count: usize) -> (line: Line)
    ensures
        line@ == more_line_text(count as nat),
{
    let note = around("... 还有 ", count as u64, " 个");
    let line = Line::new().with(Tone::Plain, "  ").with(Tone::Dimmed, note.as_str());
    assert(line@ =~= more_line_text(count as nat));
    line
}

/// A section of the plan: a blank line, then either the line for an empty list, or a
/// headline, the first entries, and how many more there are.
pub open spec fn section(
    none: Seq<char>,
    tone: Tone,
    headline: Seq<char>,
    entries: Seq<Seq<(Tone, Seq<char>)>>,
) -> Seq<Seq<(Tone, Seq<char>)>> {
    if entries.len() == 0 {
        seq![seq![], seq![(Tone::Dimmed, none)]]
    } else if entries.len() <= MAX_DISPLAY {
        seq![seq![], seq![(tone, headline)]] + entries
    } else {
        (seq![seq![], seq![(tone, headline)]] + entries.take(MAX_DISPLAY as int)).push(
            more_line_text((entries.len() - MAX_DISPLAY) as nat),
        )
    }
}

/// The section for the moves of a plan.
pub open spec fn moves_section(plan: PlanModel) -> Seq<Seq<(Tone, Seq<char>)>> {
    section(
        "[移动] 无 B 内部移动"@,
        Tone::GreenBold,
        "[移动] B 内部移动 "@ + decimal(plan.moves.len()) + " 个文件（零跨盘消耗）"@,
        plan.moves.map_values(|m: (Seq<char>, Seq<char>)| move_line_text(m.0, m.1)),
    )
}

/// The section for the copies of a plan.
pub open spec fn copies_section(plan: PlanModel, a: IndexModel) -> Seq<Seq<(Tone, Seq<char>)>> {
    section(
        "[新增] 无需从 A 复制"@,
        Tone::YellowBold,
        "[新增] 从 A 复制到 B："@ + decimal(plan.copies.len()) + " 个文件，共 "@ + size_text(
            plan.total_copy_bytes,
        ) + "（跨盘操作）"@,
        plan.copies.map_values(|p: Seq<char>| copy_line_text(p, size_or_zero(a, p))),
    )
}

/// The section for the files that a plan puts into the trash.
pub open spec fn trashes_section(plan: PlanModel, timestamp: Seq<char>) -> Seq<
    Seq<(Tone, Seq<char>)>,
> {
    section(
        "[删除] 无需移到回收站"@,
        Tone::RedBold,
        "[删除] 移到回收站："@ + decimal(plan.trashes.len()) + " 个文件 → _trash_"@ + timestamp
            + "/"@,
        plan.trashes.map_values(|p: Seq<char>| trash_line_text(p)),
    )
}

/// The lines above the plan: the two folders between two rules.
pub open spec fn plan_head(a_root: Seq<char>, b_root: Seq<char>) -> Seq<Seq<(Tone, Seq<char>)>> {
    let rule = seq![(Tone::Bold, "══════════════════════════════════════════════════════"@)];
    seq![
        seq![],
        rule,
        seq![
            (Tone::Bold, " 同步计划："@),
            (Tone::Plain, " "@),
            (Tone::Cyan, a_root),
            (Tone::Plain, "  →  "@),
            (Tone::Cyan, b_root),
        ],
        rule,
    ]
}

/// The lines below the plan: what is in sync, and the totals.
pub open spec fn plan_foot(plan: PlanModel) -> Seq<Seq<(Tone, Seq<char>)>> {
    seq![
        seq![],
        seq![(Tone::Dimmed, "[跳过] "@ + decimal(plan.skip_count) + " 个文件已同步，无需操作"@)],
        seq![],
        seq![(Tone::Bold, "── 统计 ────────────────────────────────────────────────"@)],
        seq![
            (
                Tone::Plain,
                "  跨盘复制："@ + decimal(plan.copies.len()) + " 个文件 / "@ + size_text(
                    plan.total_copy_bytes,
                ),
            ),
        ],
        seq![(Tone::Plain, "  B 内部移动："@ + decimal(plan.moves.len()) + " 个文件"@)],
        seq![(Tone::Plain, "  B 内部 trash："@ + decimal(plan.trashes.len()) + " 个文件"@)],
        seq![(Tone::Bold, "══════════════════════════════════════════════════════"@)],
    ]
}

/// All lines that show a plan.
pub open spec fn plan_lines(
    plan: PlanModel,
    a: IndexModel,
    a_root: Seq<char>,
    b_root: Seq<char>,
    timestamp: Seq<char>,
) -> Seq<Seq<(Tone, Seq<char>)>> {
    plan_head(a_root, b_root) + moves_section(plan) + copies_section(plan, a) + trashes_section(
        plan,
        timestamp,
    ) + plan_foot(plan)
}

/// Appends a section, given the lines for its first entries and their number in all.
fn push_section(
    lines: &mut Vec<Line>,
    none: &str,
    tone: Tone,
    headline: &str,
    first: Vec<Line>,
    count: usize,
    entries: Ghost<Seq<Seq<(Tone, Seq<char>)>>>,
)
    requires
        count == entries@.len(),
        shown(first@) == entries@.take(
            if count <= MAX_DISPLAY {
                count as int
            } else {
                MAX_DISPLAY as int
            },
        ),
    ensures
        shown(final(lines)@) == shown(old(lines)@) + section(none@, tone, headline@, entries@),
{
    let ghost before = shown(lines@);
    push_line(lines, Line::new());
    if count == 0 {
        push_line(lines, single(Tone::Dimmed, none));
        assert(shown(lines@) =~= before + section(none@, tone, headline@, entries@));
        return ;
    }
    push_line(lines, single(tone, headline));
    let ghost head = shown(lines@);
    let ghost top = shown(first@);
    let mut first = first;
    lines.append(&mut first);
    assert(shown(lines@) =~= head + top);
    if count > MAX_DISPLAY {
        push_line(lines, more_line(count - MAX_DISPLAY));
        assert(shown(lines@) =~= before + section(none@, tone, headline@, entries@));
    } else {
        assert(top =~= entries@);
        assert(shown(lines@) =~= before + section(none@, tone, headline@, entries@));
    }
}

fn first_count(count: usize) -> (out: usize)
    ensures
        out == if count <= MAX_DISPLAY {
            count
        } else {
            MAX_DISPLAY
        },
{
    if count <= MAX_DISPLAY {
        count
    } else {
        MAX_DISPLAY
    }
}

fn push_moves(lines: &mut Vec<Line>, plan: &SyncPlan)
    ensures
        shown(final(lines)@) == shown(old(lines)@) + moves_section(plan@),
{
    let ghost entries = plan@.moves.map_values(
        |m: (Seq<char>, Seq<char>)| move_line_text(m.0, m.1),
    );
    let count = plan.moves.len();
    let top = first_count(count);
    let mut first: Vec<Line> = Vec::new();
    let mut i: usize = 0;
    assert(shown(first@) =~= entries.take(0));
    while i < top
        invariant
            i <= top <= count == plan.moves.len(),
            entries == plan@.moves.map_values(
                |m: (Seq<char>, Seq<char>)| move_line_text(m.0, m.1),
            ),
            shown(first@) == entries.take(i as int),
        decreases top - i,
    {
        push_line(&mut first, move_line(plan.moves[i].0.as_str(), plan.moves[i].1.as_str()));
        assert(plan@.moves[i as int] == (plan.moves@[i as int].0@, plan.moves@[i as int].1@));
        assert(shown(first@) =~= entries.take(i + 1));
        i += 1;
    }
    let headline = around("[移动] B 内部移动 ", count as u64, " 个文件（零跨盘消耗）");
    push_section(
        lines,
        "[移动] 无 B 内部移动",
        Tone::GreenBold,
        headline.as_str(),
        first,
        count,
        Ghost(entries),
    );
}

/// The size of the file at `path`, or 0 where the index has none.
pub fn size_of_or_zero(index: &FileIndex, path: &str) -> (size: u64)
    ensures
        size == size_or_zero(index@, path@),
{
    match index.size_of(path) {
        Some(size) => size,
        None => 0,
    }
}

fn push_copies(lines: &mut Vec<Line>, plan: &SyncPlan, a_idx: &FileIndex)
    ensures
        shown(final(lines)@) == shown(old(lines)@) + copies_section(plan@, a_idx@),
{
    let ghost entries = plan@.copies.map_values(
        |p: Seq<char>| copy_line_text(p, size_or_zero(a_idx@, p)),
    );
    let count = plan.copies.len();
    let top = first_count(count);
    let mut first: Vec<Line> = Vec::new();
    let mut i: usize = 0;
    assert(shown(first@) =~= entries.take(0));
    while i < top
        invariant
            i <= top <= count == plan.copies.len(),
            entries == plan@.copies.map_values(
                |p: Seq<char>| copy_line_text(p, size_or_zero(a_idx@, p)),
            ),
            shown(first@) == entries.take(i as int),
        decreases top - i,
    {
        let path = plan.copies[i].as_str();
        push_line(&mut first, copy_line(path, size_of_or_zero(a_idx, path)));
        assert(plan@.copies[i as int] == plan.copies@[i as int]@);
        assert(shown(first@) =~= entries.take(i + 1));
        i += 1;
    }
    let mut headline = around("[新增] 从 A 复制到 B：", count as u64, " 个文件，共 ");
    headline.append(format_bytes(plan.total_copy_bytes).as_str());
    headline.append("（跨盘操作）");
    push_section(
        lines,
        "[新增] 无需从 A 复制",
        Tone::YellowBold,
        headline.as_str(),
        first,
        count,
        Ghost(entries),
    );
}

fn push_trashes(lines: &mut Vec<Line>, plan: &SyncPlan, timestamp: &str)
    ensures
        shown(final(lines)@) == shown(old(lines)@) + trashes_section(plan@, timestamp@),
{
    let ghost entries = plan@.trashes.map_values(|p: Seq<char>| trash_line_text(p));
    let count = plan.trashes.len();
    let top = first_count(count);
    let mut first: Vec<Line> = Vec::new();
    let mut i: usize = 0;
    assert(shown(first@) =~= entries.take(0));
    while i < top
        invariant
            i <= top <= count == plan.trashes.len(),
            entries == plan@.trashes.map_values(|p: Seq<char>| trash_line_text(p)),
            shown(first@) == entries.take(i as int),
        decreases top - i,
    {
        push_line(&mut first, trash_line(plan.trashes[i].as_str()));
        assert(plan@.trashes[i as int] == plan.trashes@[i as int]@);
        assert(shown(first@) =~= entries.take(i + 1));
        i += 1;
    }
    let mut headline = around("[删除] 移到回收站：", count as u64, " 个文件 → _trash_");
    headline.append(timestamp);
    headline.append("/");
    push_section(
        lines,
        "[删除] 无需移到回收站",
        Tone::RedBold,
        headline.as_str(),
        first,
        count,
        Ghost(entries),
    );
}

fn push_head(lines: &mut Vec<Line>, a_root: &str, b_root: &str)
    ensures
        shown(final(lines)@) == shown(old(lines)@) + plan_head(a_root@, b_root@),
{
    let ghost before = shown(lines@);
    push_line(lines, Line::new());
    push_line(lines, single(Tone::Bold, "══════════════════════════════════════════════════════"));
    let title = Line::new().with(Tone::Bold, " 同步计划：").with(Tone::Plain, " ").with(
        Tone::Cyan,
        a_root,
    ).with(Tone::Plain, "  →  ").with(Tone::Cyan, b_root);
    assert(title@ =~= plan_head(a_root@, b_root@)[2]);
    push_line(lines, title);
    push_line(lines, single(Tone::Bold, "══════════════════════════════════════════════════════"));
    assert(shown(lines@) =~= before + plan_head(a_root@, b_root@));
}

fn push_foot(lines: &mut Vec<Line>, plan: &SyncPlan)
    ensures
        shown(final(lines)@) == shown(old(lines)@) + plan_foot(plan@),
{
    let ghost before = shown(lines@);
    push_line(lines, Line::new());
    let skipped = around("[跳过] ", plan.skip_count as u64, " 个文件已同步，无需操作");
    push_line(lines, single(Tone::Dimmed, skipped.as_str()));
    push_line(lines, Line::new());
    push_line(
        lines,
        single(Tone::Bold, "── 统计 ────────────────────────────────────────────────"),
    );
    let mut copied = around("  跨盘复制：", plan.copies.len() as u64, " 个文件 / ");
    copied.append(format_bytes(plan.total_copy_bytes).as_str());
    push_line(lines, single(Tone::Plain, copied.as_str()));
    let moved = around("  B 内部移动：", plan.moves.len() as u64, " 个文件");
    push_line(lines, single(Tone::Plain, moved.as_str()));
    let trashed = around("  B 内部 trash：", plan.trashes.len() as u64, " 个文件");
    push_line(lines, single(Tone::Plain, trashed.as_str()));
    push_line(lines, single(Tone::Bold, "══════════════════════════════════════════════════════"));
    assert(shown(lines@) =~= before + plan_foot(plan@));
}

/// The lines that show a plan.
pub fn display_plan(
    plan: &SyncPlan,
    a_idx: &FileIndex,
    a_root: &str,
    b_root: &str,
    timestamp: &str,
) -> (lines: Vec<Line>)
    ensures
        shown(lines@) == plan_lines(plan@, a_idx@, a_root@, b_root@, timestamp@),
{
    let mut lines: Vec<Line> = Vec::new();
    assert(shown(lines@) =~= Seq::empty());
    push_head(&mut lines, a_root, b_root);
    assert(shown(lines@) =~= plan_head(a_root@, b_root@));
    push_moves(&mut lines, plan);
    push_copies(&mut lines, plan, a_idx);
    push_trashes(&mut lines, plan, timestamp);
    push_foot(&mut lines, plan);
    lines
}

/// No section shows more than its headline, the first entries and one line for the rest.
pub proof fn sections_stay_short(
    none: Seq<char>,
    tone: Tone,
    headline: Seq<char>,
    entries: Seq<Seq<(Tone, Seq<char>)>>,
)
    ensures
        section(none, tone, headline, entries).len() <= MAX_DISPLAY + 3,
{
}

/// The lines at the end of a run; they say where the trashed files are, if there are any.
pub open spec fn closing_text(plan: PlanModel, b_root: Seq<char>, timestamp: Seq<char>) -> Seq<
    Seq<(Tone, Seq<char>)>,
> {
    let done = seq![seq![], seq![(Tone::GreenBold, "同步完成！"@)]];
    if plan.trashes.len() == 0 {
        done
    } else {
        done.push(
            seq![
                (
                    Tone::Cyan,
                    "已删除的文件移至："@ + b_root + "/"@ + trash_folder(timestamp) + "/"@,
                ),
            ],
        )
    }
}

/// The lines at the end of a run.
pub fn closing_lines(plan: &SyncPlan, b_root: &str, timestamp: &str) -> (lines: Vec<Line>)
    ensures
        shown(lines@) == closing_text(plan@, b_root@, timestamp@),
{
    let mut lines: Vec<Line> = Vec::new();
    push_line(&mut lines, Line::new());
    push_line(&mut lines, single(Tone::GreenBold, "同步完成！"));
    assert(shown(lines@) =~= seq![seq![], seq![(Tone::GreenBold, "同步完成！"@)]]);
    if plan.trashes.len() > 0 {
        let mut place = String::new();
        place.append("已删除的文件移至：");
        place.append(b_root);
        place.append("/");
        place.append(trash_folder_name(timestamp).as_str());
        place.append("/");
        assert(place@ =~= "已删除的文件移至："@ + b_root@ + "/"@ + trash_folder(timestamp@) + "/"@);
        push_line(&mut lines, single(Tone::Cyan, place.as_str()));
    }
    lines
}

} // verus!
