//! What is drawn where.
use crate::entry::{label_of, EntryView, GitStatus};
use crate::file_tree::{display_width, TreeView};
use crate::laws::keys::follows;
use crate::path::parts;
use crate::render::{
    border_drawn, bottom_drawn, box_area, box_drawn, box_lines, entry_drawn, entry_line, laid_out,
    lines_fitting, lines_omitted, lines_shown, row_area, rows_drawn, status_style, title_of,
    tree_drawn, visible_count, widest_line, DrawView, Rect, SpanView,
};
use crate::text::decimal;
use vstd::prelude::*;

verus! {

// ── Entries ──────────────────────────────────────────────────────────────
/// The letter and the style that each status is shown with.
pub proof fn law_status_shown()
    ensures
        label_of(GitStatus::Untracked) == "?"@ && status_style(GitStatus::Untracked)
            == "diff.plus"@,
        label_of(GitStatus::Modified) == "M"@ && status_style(GitStatus::Modified)
            == "diff.delta"@,
        label_of(GitStatus::Added) == "A"@ && status_style(GitStatus::Added) == "diff.plus"@,
        label_of(GitStatus::Deleted) == "D"@ && status_style(GitStatus::Deleted) == "diff.minus"@,
        label_of(GitStatus::Renamed) == "R"@ && status_style(GitStatus::Renamed)
            == "diff.delta.moved"@,
        label_of(GitStatus::Conflict) == "C"@ && status_style(GitStatus::Conflict) == "error"@,
{
}

/// The line of an entry, piece by piece: two spaces for each level, the icon
/// that tells directories and whether they are expanded, the mark, the name,
/// and the letter of the status.
pub proof fn law_entry_line(e: EntryView, marked: bool)
    ensures
        ({
            let line = entry_line(e, marked);
            let indented = if e.depth > 0 {
                1int
            } else {
                0
            };
            let at = if marked {
                indented + 2
            } else {
                indented + 1
            };
            let style = if e.is_dir {
                "ui.text.directory"@
            } else {
                "ui.text"@
            };
            let icon = if !e.is_dir {
                "  "@
            } else if e.expanded {
                "▾ "@
            } else {
                "▸ "@
            };
            &&& line.len() == at + 1 + (if e.git_status is Some {
                1int
            } else {
                0
            })
            &&& e.depth > 0 ==> line[0].style is None && line[0].text.len() == 2 * e.depth && (
            forall|i: int| 0 <= i < 2 * e.depth ==> #[trigger] line[0].text[i] == ' ')
            &&& line[indented] == (SpanView { text: icon, style: Some(style) })
            &&& marked ==> line[indented + 1] == (SpanView {
                text: "● "@,
                style: Some("ui.text.focus"@),
            })
            &&& line[at] == (SpanView {
                text: e.name,
                style: Some(
                    if marked {
                        "ui.text.focus"@
                    } else {
                        style
                    },
                ),
            })
            &&& e.git_status matches Some(status) ==> line[at + 1] == (SpanView {
                text: " "@ + label_of(status),
                style: Some(status_style(status)),
            })
        }),
{
}

/// Whether an entry is marked.
pub open spec fn is_marked(v: TreeView, e: EntryView) -> bool {
    exists|k: int| 0 <= k < v.marked.len() && parts(#[trigger] v.marked[k]) == parts(e.path)
}

/// The rows are the entries from the scroll position on, one below the other
/// under the title and left of the border; the row of the selected entry, and
/// no other, is highlighted.
pub proof fn law_row(v: TreeView, area: Rect, n: int)
    requires
        n >= 0,
        area.y + 1 + n <= 0xffff,
        area.width > 0,
    ensures
        rows_drawn(v, area, 0).len() == 0,
        ({
            let e = v.entries[v.scroll + n];
            let line = DrawView::Line {
                x: area.x as int,
                y: area.y + 1 + n,
                spans: entry_line(e, is_marked(v, e)),
                width: area.width - 1,
            };
            let row = Rect {
                x: area.x,
                y: (area.y + 1 + n) as u16,
                width: (area.width - 1) as u16,
                height: 1,
            };
            let before = rows_drawn(v, area, n);
            let r = rows_drawn(v, area, n + 1);
            &&& v.selected != v.scroll + n ==> r == before.push(line)
            &&& v.selected == v.scroll + n ==> r == before.push(
                DrawView::Style { area: row, style: "ui.selection"@ },
            ).push(line)
        }),
{
    let e = v.entries[v.scroll + n];
    let before = rows_drawn(v, area, n);
    let drawn = entry_drawn(
        e,
        is_marked(v, e),
        v.selected == v.scroll + n,
        row_area(area, n),
    );
    if v.selected == v.scroll + n {
        assert(drawn.len() == 2);
        assert(before + drawn =~= before.push(drawn[0]).push(drawn[1]));
    } else {
        assert(drawn.len() == 1);
        assert(before + drawn =~= before.push(drawn[0]));
    }
}

/// As many entries are visible as there are from the scroll position on, and
/// as there are rows under the title.
pub proof fn law_visible(v: TreeView, area: Rect)
    requires
        area.height > 0,
    ensures
        v.scroll >= v.entries.len() ==> visible_count(v, area) == 0,
        v.scroll < v.entries.len() && v.entries.len() - v.scroll <= area.height - 1
            ==> visible_count(v, area) == v.entries.len() - v.scroll,
        v.scroll < v.entries.len() && v.entries.len() - v.scroll > area.height - 1
            ==> visible_count(v, area) == area.height - 1,
{
}

/// What is drawn of the tree, one over the other: the background, the border,
/// the title, the rows and the bottom line.
pub proof fn law_tree_drawn(v: TreeView, area: Rect, i: int)
    requires
        area.width > 0,
        area.height > 0,
    ensures
        ({
            let d = tree_drawn(v, area);
            let rows = rows_drawn(v, area, visible_count(v, area));
            let h = area.height as int;
            let title = if v.marked.len() == 0 {
                " File Tree "@
            } else {
                " File Tree ("@ + decimal(v.marked.len()) + " selected) "@
            };
            &&& d.len() == h + 2 + rows.len() + bottom_drawn(v, area).len()
            &&& d[0] == (DrawView::Style { area, style: "ui.background"@ })
            &&& 0 <= i < h ==> d[1 + i] == (DrawView::Text {
                x: area.x + area.width - 1,
                y: area.y + i,
                text: "│"@,
                style: "ui.separator"@,
            })
            &&& d[1 + h] == (DrawView::Text {
                x: area.x + 1,
                y: area.y as int,
                text: title,
                style: "ui.text.focus"@,
            })
            &&& d.subrange(2 + h, 2 + h + rows.len()) == rows
            &&& d.skip(2 + h + rows.len()) == bottom_drawn(v, area)
        }),
{
    let rows = rows_drawn(v, area, visible_count(v, area));
    let h = area.height as int;
    let front = seq![DrawView::Style { area, style: "ui.background"@ }] + border_drawn(area)
        + seq![
        DrawView::Text {
            x: area.x + 1,
            y: area.y as int,
            text: title_of(v.marked.len()),
            style: "ui.text.focus"@,
        },
    ];
    let bottom = bottom_drawn(v, area);
    let d = tree_drawn(v, area);
    assert(d == front + rows + bottom);
    assert(front.len() == h + 2);
    assert(d.subrange(2 + h, 2 + h + rows.len()) =~= rows);
    assert(d.skip(2 + h + rows.len()) =~= bottom);
}

/// The bottom line: the filter while it is typed, else what keys do where that
/// fits.
pub proof fn law_bottom_line(v: TreeView, area: Rect)
    ensures
        ({
            let help = "Enter:open v:sel d:del a:new A:dir p:up q:quit"@;
            let line = |text: Seq<char>|
                DrawView::Text {
                    x: area.x + 1,
                    y: area.y + area.height - 1,
                    text,
                    style: "ui.text"@,
                };
            &&& v.filter_mode ==> bottom_drawn(v, area) == seq![line("/"@ + v.filter_query)]
            &&& !v.filter_mode && area.height > 3 && area.width > help.len() ==> bottom_drawn(
                v,
                area,
            ) == seq![line(help)]
            &&& !v.filter_mode && (area.height <= 3 || area.width <= help.len()) ==> bottom_drawn(
                v,
                area,
            ).len() == 0
        }),
{
}

/// Drawing a tree takes down its height and scrolls to the selection; nothing
/// else of it changes.
pub proof fn law_laid_out(v: TreeView, area: Rect)
    ensures
        ({
            let r = laid_out(v, area);
            &&& r == (TreeView { cached_height: area.height, scroll: r.scroll, ..v })
            &&& follows(v.scroll, r)
        }),
{
}

// ── The box ──────────────────────────────────────────────────────────────
/// The number of lines that a screen has room for: all rows but eight, and at
/// least one.
pub open spec fn room(area: Rect) -> int {
    if area.height > 9 {
        area.height - 8
    } else {
        1
    }
}

/// The lines of the box that are shown are the first ones, as many as there is
/// room for; the others are counted.
pub proof fn law_lines_shown(lines: Seq<Seq<char>>, area: Rect)
    ensures
        lines.len() <= room(area) ==> lines_shown(lines, area) == lines && lines_omitted(
            lines,
            area,
        ) == 0,
        lines.len() > room(area) ==> lines_shown(lines, area) == lines.take(room(area))
            && lines_omitted(lines, area) == lines.len() - room(area),
{
    if lines.len() <= room(area) {
        assert(lines.take(lines.len() as int) =~= lines);
    }
}

/// The width of the widest of some lines: none is wider, and one is as wide.
pub proof fn law_widest_line(s: Seq<Seq<char>>, i: int)
    ensures
        0 <= i < s.len() ==> display_width(s[i]) <= widest_line(s),
        s.len() > 0 ==> exists|j: int|
            0 <= j < s.len() && widest_line(s) == display_width(#[trigger] s[j]),
        s.len() == 0 ==> widest_line(s) == 0,
    decreases s.len(),
{
    if s.len() > 0 {
        let d = s.drop_last();
        law_widest_line(d, i);
        if 0 <= i < d.len() {
            assert(d[i] == s[i]);
        }
        let last = s.len() - 1;
        if d.len() > 0 {
            let j = choose|j: int|
                0 <= j < d.len() && widest_line(d) == display_width(#[trigger] d[j]);
            assert(d[j] == s[j]);
        }
        assert(s[last] == s.last());
        assert(widest_line(s) == display_width(s[last]) || d.len() > 0);
    }
}

/// The box is as wide as its title, its lines and its keys need, with a margin
/// of four columns, between 24 and 80 columns and four less than the screen;
/// it has five rows besides its lines, and lies in the middle.
pub proof fn law_box_area(title: Seq<char>, lines: Seq<Seq<char>>, area: Rect)
    requires
        area.x + area.width <= 0xffff,
        area.y + area.height <= 0xffff,
        display_width(title) + 4 < 0x10000,
        widest_line(lines_shown(lines, area)) + 4 < 0x10000,
    ensures
        ({
            let r = box_area(title, lines, area);
            let widest = widest_line(lines_shown(lines, area));
            let most = if area.width <= 28 {
                24int
            } else if area.width >= 84 {
                80int
            } else {
                area.width - 4
            };
            let need = if widest >= display_width(title) && widest >= 23 {
                widest + 4
            } else if display_width(title) >= 23 {
                display_width(title) + 4int
            } else {
                27int
            };
            let width = if need <= most {
                need
            } else {
                most
            };
            let rows = lines_shown(lines, area).len() + 5 + (if lines.len() > room(area) {
                1int
            } else {
                0
            });
            let height = if rows <= area.height {
                rows
            } else {
                area.height as int
            };
            &&& r.width == if width <= area.width {
                width
            } else {
                area.width as int
            }
            &&& r.height == height
            &&& r.x == if width < area.width {
                area.x + (area.width - width) / 2
            } else {
                area.x as int
            }
            &&& r.y == area.y + (area.height - height) / 2
        }),
{
    reveal_strlit("[y] confirm  [n] cancel");
    law_lines_shown(lines, area);
}

/// What is drawn of the box: a cleared area with a border, the title, below it
/// the lines as far as they fit, how many more there are, and what keys do.
pub proof fn law_box_drawn(
    title: Seq<char>,
    lines: Seq<Seq<char>>,
    area: Rect,
    frame: Rect,
    inner: Rect,
    i: int,
)
    requires
        2 <= frame.y + frame.height,
    ensures
        ({
            let d = box_drawn(title, lines, area, frame, inner);
            let shown = lines_shown(lines, area);
            let last = frame.y + frame.height - 2;
            let top = inner.y + 2;
            let fit = if top >= last {
                0
            } else if shown.len() <= last - top {
                shown.len() as int
            } else {
                last - top
            };
            let more = lines.len() > shown.len() && top + fit < last;
            let at = |y: int, text: Seq<char>, style: Seq<char>|
                DrawView::Clipped {
                    x: inner.x + 1,
                    y,
                    text,
                    width: inner.width as int,
                    style,
                };
            &&& d.len() == 4 + fit + (if more {
                1int
            } else {
                0
            })
            &&& d[0] == (DrawView::Clear { area: frame, styles: ("ui.background"@, "ui.text"@) })
            &&& d[1] == (DrawView::Border { area: frame })
            &&& d[2] == at(inner.y as int, title, "ui.text.focus"@)
            &&& 0 <= i < fit ==> d[3 + i] == at(top + i, shown[i], "ui.text"@)
            &&& more ==> d[3 + fit] == at(
                top + fit,
                "… and "@ + decimal((lines.len() - shown.len()) as nat) + " more"@,
                "ui.text"@,
            )
            &&& d.last() == at(last, "[y] confirm  [n] cancel"@, "ui.text.focus"@)
        }),
{
    let shown = lines_shown(lines, area);
    law_lines_shown(lines, area);
    lemma_box_lines(shown, frame, inner, shown.len() as int);
}

proof fn lemma_box_lines(lines: Seq<Seq<char>>, frame: Rect, inner: Rect, n: int)
    requires
        0 <= n <= lines.len(),
    ensures
        ({
            let fit = lines_fitting(n, frame, inner);
            box_lines(lines, frame, inner, n) == Seq::new(
                fit as nat,
                |i: int|
                    DrawView::Clipped {
                        x: inner.x + 1,
                        y: inner.y + 2 + i,
                        text: lines[i],
                        width: inner.width as int,
                        style: "ui.text"@,
                    },
            )
        }),
    decreases n,
{
    let drawn = |i: int|
        DrawView::Clipped {
            x: inner.x + 1,
            y: inner.y + 2 + i,
            text: lines[i],
            width: inner.width as int,
            style: "ui.text"@,
        };
    let fit = lines_fitting(n, frame, inner);
    if n > 0 {
        lemma_box_lines(lines, frame, inner, n - 1);
        if inner.y + 2 + n - 1 < frame.y + frame.height - 2 {
            assert(fit == n);
            assert(box_lines(lines, frame, inner, n) =~= Seq::new(fit as nat, drawn));
        } else {
            assert(lines_fitting(n - 1, frame, inner) == fit);
        }
    } else {
        assert(box_lines(lines, frame, inner, n) =~= Seq::new(fit as nat, drawn));
    }
}

} // verus!
