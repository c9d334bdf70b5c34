//! What holds of the lines that show a plan.
use vstd::prelude::*;
use vstd::string::*;

use crate::display::{
    Line, Tone, closing_text, copies_section, move_line_text, moves_section, plan_foot, plan_head, plan_lines,
    section, shown, trashes_section,
};
use crate::index::IndexModel;
use crate::plan::PlanModel;
use crate::size::size_text;
use crate::text::decimal;

verus! {

/// How many lines the section for a list of `count` entries takes: a blank one, the headline,
/// at most twenty entries, and one more where that is not all.
pub open spec fn section_height(count: nat) -> nat {
    if count <= 20 {
        if count == 0 {
            2
        } else {
            2 + count
        }
    } else {
        23
    }
}

/// The piece of a line that a number and the texts around it make up.
pub open spec fn counted(before: Seq<char>, count: nat, after: Seq<char>) -> Seq<char> {
    before + decimal(count) + after
}

/// A list of lines shows its lines, one for each and in their order, and a line its pieces.
pub proof fn lines_show_their_pieces(lines: Seq<Line>, line: Line)
    ensures
        shown(lines).len() == lines.len(),
        forall|i: int| 0 <= i < lines.len() ==> #[trigger] shown(lines)[i] == lines[i]@,
        line@.len() == line.spans@.len(),
        forall|i: int|
            0 <= i < line.spans@.len() ==> #[trigger] line@[i] == (
                line.spans@[i].tone,
                line.spans@[i].text@,
            ),
{
}

/// A section has a blank line and a headline or, for an empty list, a note; then come the
/// first twenty entries, each on its line and in their order, and how many more there are.
pub proof fn section_shows_its_list(
    none: Seq<char>,
    tone: Tone,
    headline: Seq<char>,
    entries: Seq<Seq<(Tone, Seq<char>)>>,
)
    ensures
        ({
            let lines = section(none, tone, headline, entries);
            let count = entries.len();
            &&& lines.len() == section_height(count)
            &&& lines[0] == Seq::<(Tone, Seq<char>)>::empty()
            &&& lines[1] == if count == 0 {
                seq![(Tone::Dimmed, none)]
            } else {
                seq![(tone, headline)]
            }
            &&& forall|i: int| 0 <= i < count && i < 20 ==> lines[2 + i] == #[trigger] entries[i]
            &&& count > 20 ==> lines[22] == seq![
                (Tone::Plain, "  "@),
                (Tone::Dimmed, counted("... 还有 "@, (count - 20) as nat, " 个"@)),
            ]
        }),
{
}

proof fn parts_stand_in_order(
    plan: PlanModel,
    a: IndexModel,
    a_root: Seq<char>,
    b_root: Seq<char>,
    timestamp: Seq<char>,
)
    ensures
        ({
            let lines = plan_lines(plan, a, a_root, b_root, timestamp);
            let m = section_height(plan.moves.len()) as int;
            let c = section_height(plan.copies.len()) as int;
            let t = section_height(plan.trashes.len()) as int;
            &&& lines.len() == 4 + m + c + t + 8
            &&& forall|i: int| 0 <= i < 4 ==> lines[i] == #[trigger] plan_head(a_root, b_root)[i]
            &&& moves_section(plan).len() == m
            &&& copies_section(plan, a).len() == c
            &&& trashes_section(plan, timestamp).len() == t
            &&& forall|i: int| 0 <= i < m ==> lines[4 + i] == #[trigger] moves_section(plan)[i]
            &&& forall|i: int|
                0 <= i < c ==> lines[4 + m + i] == #[trigger] copies_section(plan, a)[i]
            &&& forall|i: int|
                0 <= i < t ==> lines[4 + m + c + i] == #[trigger] trashes_section(
                    plan,
                    timestamp,
                )[i]
            &&& forall|i: int|
                0 <= i < 8 ==> lines[4 + m + c + t + i] == #[trigger] plan_foot(plan)[i]
        }),
{
}

/// The plan stands under the names of the two folders, source first, between two rules.
pub proof fn folders_are_shown(
    plan: PlanModel,
    a: IndexModel,
    a_root: Seq<char>,
    b_root: Seq<char>,
    timestamp: Seq<char>,
)
    ensures
        ({
            let lines = plan_lines(plan, a, a_root, b_root, timestamp);
            let rule = seq![(Tone::Bold, "══════════════════════════════════════════════════════"@)];
            &&& lines.len() >= 4
            &&& lines[0] == Seq::<(Tone, Seq<char>)>::empty()
            &&& lines[1] == rule
            &&& lines[2] == seq![
                (Tone::Bold, " 同步计划："@),
                (Tone::Plain, " "@),
                (Tone::Cyan, a_root),
                (Tone::Plain, "  →  "@),
                (Tone::Cyan, b_root),
            ]
            &&& lines[3] == rule
        }),
{
    parts_stand_in_order(plan, a, a_root, b_root, timestamp);
    let head = plan_head(a_root, b_root);
    assert(head[0] =~= Seq::empty());
    assert(head[1] =~= seq![(Tone::Bold, "══════════════════════════════════════════════════════"@)]);
    assert(head[2].len() == 5 && head[2][2] == (Tone::Cyan, a_root));
    assert(head[3] =~= seq![(Tone::Bold, "══════════════════════════════════════════════════════"@)]);
}

proof fn moves_section_shows(plan: PlanModel)
    ensures
        ({
            let lines = moves_section(plan);
            let count = plan.moves.len();
            let at: int = 0;
            &&& lines.len() == section_height(count)
            &&& lines[at] == Seq::<(Tone, Seq<char>)>::empty()
            &&& lines[at + 1] == if count == 0 {
                seq![(Tone::Dimmed, "[移动] 无 B 内部移动"@)]
            } else {
                seq![
                    (
                        Tone::GreenBold,
                        counted("[移动] B 内部移动 "@, count, " 个文件（零跨盘消耗）"@),
                    ),
                ]
            }
            &&& forall|i: int|
                0 <= i < count && i < 20 ==> lines[at + 2 + i] == seq![
                    (Tone::Plain, "  "@),
                    (Tone::Green, "mv"@),
                    (Tone::Plain, "  "@),
                    (Tone::Dimmed, (#[trigger] plan.moves[i]).0),
                    (Tone::Plain, "  →  "@),
                    (Tone::Plain, plan.moves[i].1),
                ]
            &&& count > 20 ==> lines[at + 22] == seq![
                (Tone::Plain, "  "@),
                (Tone::Dimmed, counted("... 还有 "@, (count - 20) as nat, " 个"@)),
            ]
        }),
{
    let entries = plan.moves.map_values(
        |m: (Seq<char>, Seq<char>)| move_line_text(m.0, m.1),
    );
    assert forall|i: int| 0 <= i < plan.moves.len() && i < 20 implies moves_section(plan)[2 + i]
        == seq![
        (Tone::Plain, "  "@),
        (Tone::Green, "mv"@),
        (Tone::Plain, "  "@),
        (Tone::Dimmed, (#[trigger] plan.moves[i]).0),
        (Tone::Plain, "  →  "@),
        (Tone::Plain, plan.moves[i].1),
    ] by {
        assert(moves_section(plan)[2 + i] == entries[i]);
    }
}

/// The moves come first: their number, the first twenty of them from old path to new path,
/// and how many more there are; so what is shown and what is said to be left out make up the
/// number in the headline.
pub proof fn moves_are_shown(
    plan: PlanModel,
    a: IndexModel,
    a_root: Seq<char>,
    b_root: Seq<char>,
    timestamp: Seq<char>,
)
    ensures
        ({
            let lines = plan_lines(plan, a, a_root, b_root, timestamp);
            let count = plan.moves.len();
            let at: int = 4;
            &&& lines[at] == Seq::<(Tone, Seq<char>)>::empty()
            &&& lines[at + 1] == if count == 0 {
                seq![(Tone::Dimmed, "[移动] 无 B 内部移动"@)]
            } else {
                seq![
                    (
                        Tone::GreenBold,
                        counted("[移动] B 内部移动 "@, count, " 个文件（零跨盘消耗）"@),
                    ),
                ]
            }
            &&& forall|i: int|
                0 <= i < count && i < 20 ==> lines[at + 2 + i] == seq![
                    (Tone::Plain, "  "@),
                    (Tone::Green, "mv"@),
                    (Tone::Plain, "  "@),
                    (Tone::Dimmed, (#[trigger] plan.moves[i]).0),
                    (Tone::Plain, "  →  "@),
                    (Tone::Plain, plan.moves[i].1),
                ]
            &&& count > 20 ==> lines[at + 22] == seq![
                (Tone::Plain, "  "@),
                (Tone::Dimmed, counted("... 还有 "@, (count - 20) as nat, " 个"@)),
            ]
        }),
{
    let lines = plan_lines(plan, a, a_root, b_root, timestamp);
    let part = moves_section(plan);
    let at: int = 4;
    moves_section_shows(plan);
    assert(part.len() >= 2 && forall|i: int|
        0 <= i < part.len() ==> lines[at + i] == #[trigger] part[i]) by {
        parts_stand_in_order(plan, a, a_root, b_root, timestamp);
    }
    assert(lines[at + 0] == part[0]);
    assert forall|i: int| 0 <= i < plan.moves.len() && i < 20 implies lines[at + 2 + i] == seq![
        (Tone::Plain, "  "@),
        (Tone::Green, "mv"@),
        (Tone::Plain, "  "@),
        (Tone::Dimmed, (#[trigger] plan.moves[i]).0),
        (Tone::Plain, "  →  "@),
        (Tone::Plain, plan.moves[i].1),
    ] by {
        assert(lines[at + (2 + i)] == part[2 + i]);
    }
}

proof fn copies_section_shows(plan: PlanModel, a: IndexModel)
    ensures
        ({
            let lines = copies_section(plan, a);
            let count = plan.copies.len();
            let at: int = 0;
            &&& lines.len() == section_height(count)
            &&& lines[at] == Seq::<(Tone, Seq<char>)>::empty()
            &&& lines[at + 1] == if count == 0 {
                seq![(Tone::Dimmed, "[新增] 无需从 A 复制"@)]
            } else {
                seq![
                    (
                        Tone::YellowBold,
                        counted("[新增] 从 A 复制到 B："@, count, " 个文件，共 "@) + size_text(
                            plan.total_copy_bytes,
                        ) + "（跨盘操作）"@,
                    ),
                ]
            }
            &&& forall|i: int|
                0 <= i < count && i < 20 ==> lines[at + 2 + i] == seq![
                    (Tone::Plain, "  "@),
                    (Tone::Yellow, "cp"@),
                    (Tone::Plain, "  "@),
                    (Tone::Plain, #[trigger] plan.copies[i]),
                    (Tone::Plain, "  "@),
                    (
                        Tone::Dimmed,
                        "("@ + size_text(
                            if a.sizes.contains_key(plan.copies[i]) {
                                a.sizes[plan.copies[i]] as nat
                            } else {
                                0
                            },
                        ) + ")"@,
                    ),
                ]
            &&& count > 20 ==> lines[at + 22] == seq![
                (Tone::Plain, "  "@),
                (Tone::Dimmed, counted("... 还有 "@, (count - 20) as nat, " 个"@)),
            ]
        }),
{
    let lines = copies_section(plan, a);
    let count = plan.copies.len();
    let at: int = 0;
    assert forall|i: int| 0 <= i < count && i < 20 implies lines[at + 2 + i] == seq![
        (Tone::Plain, "  "@),
        (Tone::Yellow, "cp"@),
        (Tone::Plain, "  "@),
        (Tone::Plain, #[trigger] plan.copies[i]),
        (Tone::Plain, "  "@),
        (
            Tone::Dimmed,
            "("@ + size_text(
                if a.sizes.contains_key(plan.copies[i]) {
                    a.sizes[plan.copies[i]] as nat
                } else {
                    0
                },
            ) + ")"@,
        ),
    ] by {
        assert(0 <= i < lines.len());
    }
}

/// The copies come next: their number and the bytes they come to, the first twenty of them
/// with the sizes of their files, and how many more there are.
pub proof fn copies_are_shown(
    plan: PlanModel,
    a: IndexModel,
    a_root: Seq<char>,
    b_root: Seq<char>,
    timestamp: Seq<char>,
)
    ensures
        ({
            let lines = plan_lines(plan, a, a_root, b_root, timestamp);
            let count = plan.copies.len();
            let at = 4 + section_height(plan.moves.len()) as int;
            &&& lines[at] == Seq::<(Tone, Seq<char>)>::empty()
            &&& lines[at + 1] == if count == 0 {
                seq![(Tone::Dimmed, "[新增] 无需从 A 复制"@)]
            } else {
                seq![
                    (
                        Tone::YellowBold,
                        counted("[新增] 从 A 复制到 B："@, count, " 个文件，共 "@) + size_text(
                            plan.total_copy_bytes,
                        ) + "（跨盘操作）"@,
                    ),
                ]
            }
            &&& forall|i: int|
                0 <= i < count && i < 20 ==> lines[at + 2 + i] == seq![
                    (Tone::Plain, "  "@),
                    (Tone::Yellow, "cp"@),
                    (Tone::Plain, "  "@),
                    (Tone::Plain, #[trigger] plan.copies[i]),
                    (Tone::Plain, "  "@),
                    (
                        Tone::Dimmed,
                        "("@ + size_text(
                            if a.sizes.contains_key(plan.copies[i]) {
                                a.sizes[plan.copies[i]] as nat
                            } else {
                                0
                            },
                        ) + ")"@,
                    ),
                ]
            &&& count > 20 ==> lines[at + 22] == seq![
                (Tone::Plain, "  "@),
                (Tone::Dimmed, counted("... 还有 "@, (count - 20) as nat, " 个"@)),
            ]
        }),
{
    let lines = plan_lines(plan, a, a_root, b_root, timestamp);
    let part = copies_section(plan, a);
    let count = plan.copies.len();
    let at = 4 + section_height(plan.moves.len()) as int;
    copies_section_shows(plan, a);
    assert(part.len() >= 2 && forall|i: int|
        0 <= i < part.len() ==> lines[at + i] == #[trigger] part[i]) by {
        parts_stand_in_order(plan, a, a_root, b_root, timestamp);
    }
    assert(lines[at + 0] == part[0] && lines[at + 1] == part[1]);
    assert forall|i: int| 0 <= i < count && i < 20 implies lines[at + 2 + i] == seq![
        (Tone::Plain, "  "@),
        (Tone::Yellow, "cp"@),
        (Tone::Plain, "  "@),
        (Tone::Plain, #[trigger] plan.copies[i]),
        (Tone::Plain, "  "@),
        (
            Tone::Dimmed,
            "("@ + size_text(
                if a.sizes.contains_key(plan.copies[i]) {
                    a.sizes[plan.copies[i]] as nat
                } else {
                    0
                },
            ) + ")"@,
        ),
    ] by {
        assert(lines[at + (2 + i)] == part[2 + i]);
    }
}

proof fn trashes_section_shows(plan: PlanModel, timestamp: Seq<char>)
    ensures
        ({
            let lines = trashes_section(plan, timestamp);
            let count = plan.trashes.len();
            let at: int = 0;
            &&& lines.len() == section_height(count)
            &&& lines[at] == Seq::<(Tone, Seq<char>)>::empty()
            &&& lines[at + 1] == if count == 0 {
                seq![(Tone::Dimmed, "[删除] 无需移到回收站"@)]
            } else {
                seq![
                    (
                        Tone::RedBold,
                        counted("[删除] 移到回收站："@, count, " 个文件 → _trash_"@) + timestamp
                            + "/"@,
                    ),
                ]
            }
            &&& forall|i: int|
                0 <= i < count && i < 20 ==> lines[at + 2 + i] == seq![
                    (Tone::Plain, "  "@),
                    (Tone::Red, "trash"@),
                    (Tone::Plain, "  "@),
                    (Tone::Plain, #[trigger] plan.trashes[i]),
                ]
            &&& count > 20 ==> lines[at + 22] == seq![
                (Tone::Plain, "  "@),
                (Tone::Dimmed, counted("... 还有 "@, (count - 20) as nat, " 个"@)),
            ]
        }),
{
    let lines = trashes_section(plan, timestamp);
    let count = plan.trashes.len();
    let at: int = 0;
    assert forall|i: int| 0 <= i < count && i < 20 implies lines[at + 2 + i] == seq![
        (Tone::Plain, "  "@),
        (Tone::Red, "trash"@),
        (Tone::Plain, "  "@),
        (Tone::Plain, #[trigger] plan.trashes[i]),
    ] by {
        assert(0 <= i < lines.len());
    }
}

/// The files to trash come last: their number and the folder they go to, the first twenty of
/// them, and how many more there are.
pub proof fn trashes_are_shown(
    plan: PlanModel,
    a: IndexModel,
    a_root: Seq<char>,
    b_root: Seq<char>,
    timestamp: Seq<char>,
)
    ensures
        ({
            let lines = plan_lines(plan, a, a_root, b_root, timestamp);
            let count = plan.trashes.len();
            let at = 4 + section_height(plan.moves.len()) as int + section_height(
                plan.copies.len(),
            ) as int;
            &&& lines[at] == Seq::<(Tone, Seq<char>)>::empty()
            &&& lines[at + 1] == if count == 0 {
                seq![(Tone::Dimmed, "[删除] 无需移到回收站"@)]
            } else {
                seq![
                    (
                        Tone::RedBold,
                        counted("[删除] 移到回收站："@, count, " 个文件 → _trash_"@) + timestamp
                            + "/"@,
                    ),
                ]
            }
            &&& forall|i: int|
                0 <= i < count && i < 20 ==> lines[at + 2 + i] == seq![
                    (Tone::Plain, "  "@),
                    (Tone::Red, "trash"@),
                    (Tone::Plain, "  "@),
                    (Tone::Plain, #[trigger] plan.trashes[i]),
                ]
            &&& count > 20 ==> lines[at + 22] == seq![
                (Tone::Plain, "  "@),
                (Tone::Dimmed, counted("... 还有 "@, (count - 20) as nat, " 个"@)),
            ]
        }),
{
    let lines = plan_lines(plan, a, a_root, b_root, timestamp);
    let part = trashes_section(plan, timestamp);
    let count = plan.trashes.len();
    let at = 4 + section_height(plan.moves.len()) as int + section_height(
        plan.copies.len(),
    ) as int;
    trashes_section_shows(plan, timestamp);
    assert(part.len() >= 2 && forall|i: int|
        0 <= i < part.len() ==> lines[at + i] == #[trigger] part[i]) by {
        parts_stand_in_order(plan, a, a_root, b_root, timestamp);
    }
    assert(lines[at + 0] == part[0] && lines[at + 1] == part[1]);
    assert forall|i: int| 0 <= i < count && i < 20 implies lines[at + 2 + i] == seq![
        (Tone::Plain, "  "@),
        (Tone::Red, "trash"@),
        (Tone::Plain, "  "@),
        (Tone::Plain, #[trigger] plan.trashes[i]),
    ] by {
        assert(lines[at + (2 + i)] == part[2 + i]);
    }
}

/// The totals at the end agree with the sections above them: the line for the copies, the one
/// for the moves and the one for the trash each give the number that the headline of their
/// section gives, and the bytes to copy are those of the headline too.
pub proof fn totals_agree_with_sections(
    plan: PlanModel,
    a: IndexModel,
    a_root: Seq<char>,
    b_root: Seq<char>,
    timestamp: Seq<char>,
)
    ensures
        ({
            let lines = plan_lines(plan, a, a_root, b_root, timestamp);
            let end = lines.len() as int;
            &&& end == 12 + section_height(plan.moves.len()) + section_height(plan.copies.len())
                + section_height(plan.trashes.len())
            &&& lines[end - 8] == Seq::<(Tone, Seq<char>)>::empty()
            &&& lines[end - 7] == seq![
                (Tone::Dimmed, counted("[跳过] "@, plan.skip_count, " 个文件已同步，无需操作"@)),
            ]
            &&& lines[end - 6] == Seq::<(Tone, Seq<char>)>::empty()
            &&& lines[end - 5] == seq![
                (Tone::Bold, "── 统计 ────────────────────────────────────────────────"@),
            ]
            &&& lines[end - 4] == seq![
                (
                    Tone::Plain,
                    counted("  跨盘复制："@, plan.copies.len(), " 个文件 / "@) + size_text(
                        plan.total_copy_bytes,
                    ),
                ),
            ]
            &&& lines[end - 3] == seq![
                (Tone::Plain, counted("  B 内部移动："@, plan.moves.len(), " 个文件"@)),
            ]
            &&& lines[end - 2] == seq![
                (Tone::Plain, counted("  B 内部 trash："@, plan.trashes.len(), " 个文件"@)),
            ]
            &&& lines[end - 1] == seq![(Tone::Bold, "══════════════════════════════════════════════════════"@)]
        }),
{
    parts_stand_in_order(plan, a, a_root, b_root, timestamp);
    let lines = plan_lines(plan, a, a_root, b_root, timestamp);
    let foot = plan_foot(plan);
    let at = lines.len() - 8;
    assert forall|i: int| 0 <= i < 8 implies lines[at + i] == #[trigger] foot[i] by {}
    assert(foot[0] =~= Seq::empty());
    assert(foot[2] =~= Seq::empty());
    assert(lines[at + 0] == foot[0] && lines[at + 1] == foot[1] && lines[at + 2] == foot[2]
        && lines[at + 3] == foot[3] && lines[at + 4] == foot[4] && lines[at + 5] == foot[5]
        && lines[at + 6] == foot[6] && lines[at + 7] == foot[7]);
}

/// A run ends with the same words, and says where the trash is exactly if the plan had files
/// to trash.
pub proof fn end_names_the_trash(plan: PlanModel, b_root: Seq<char>, timestamp: Seq<char>)
    ensures
        ({
            let lines = closing_text(plan, b_root, timestamp);
            &&& lines.len() == if plan.trashes.len() == 0 {
                2int
            } else {
                3int
            }
            &&& lines[0] == Seq::<(Tone, Seq<char>)>::empty()
            &&& lines[1] == seq![(Tone::GreenBold, "同步完成！"@)]
            &&& plan.trashes.len() > 0 ==> lines[2] == seq![
                (
                    Tone::Cyan,
                    "已删除的文件移至："@ + b_root + "/"@ + ("_trash_"@ + timestamp) + "/"@,
                ),
            ]
        }),
{
}

} // verus!
