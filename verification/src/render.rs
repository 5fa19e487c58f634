//! What the file tree and the confirmation box look like: lists of things to
//! draw, in their order. Styles are named as in a theme.
use crate::entry::{label_of, EntryView, FileEntry, GitStatus};
use crate::file_tree::{display_width, width_of, FileTree, TreeView};
use crate::navigate::{less_by, scrolled};
use crate::path_set::holds;
use crate::prompt::ConfirmBox;
use crate::text::{concat, decimal, texts, to_decimal};
use vstd::prelude::*;

verus! {

/// A rectangle on the screen.
#[derive(Debug, Clone, Copy, PartialEq, Eq, Structural)]
pub struct Rect {
    pub x: u16,
    pub y: u16,
    pub width: u16,
    pub height: u16,
}

/// A piece of a line, as a mathematical value.
pub struct SpanView {
    pub text: Seq<char>,
    pub style: Option<Seq<char>>,
}

/// A piece of a line, with a style or without.
#[derive(Debug)]
pub struct Span {
    pub text: String,
    pub style: Option<&'static str>,
}

impl View for Span {
    type V = SpanView;

    open spec fn view(&self) -> SpanView {
        SpanView {
            text: self.text@,
            style: match self.style {
                Some(s) => Some(s@),
                None => None,
            },
        }
    }
}

/// The pieces that a list of values stands for.
pub open spec fn span_views(s: Seq<Span>) -> Seq<SpanView> {
    Seq::new(s.len(), |i: int| s[i]@)
}

/// Something to draw, as a mathematical value.
pub enum DrawView {
    Style { area: Rect, style: Seq<char> },
    Text { x: int, y: int, text: Seq<char>, style: Seq<char> },
    Line { x: int, y: int, spans: Seq<SpanView>, width: int },
    Clear { area: Rect, styles: (Seq<char>, Seq<char>) },
    Border { area: Rect },
    Clipped { x: int, y: int, text: Seq<char>, width: int, style: Seq<char> },
}

/// Something to draw.
#[derive(Debug)]
pub enum Draw {
    /// Set the style of an area.
    Style { area: Rect, style: &'static str },
    /// Write a text.
    Text { x: u16, y: u16, text: String, style: &'static str },
    /// Write pieces of a line, up to a width.
    Line { x: u16, y: u16, spans: Vec<Span>, width: u16 },
    /// Clear an area, to the first style patched by the second.
    Clear { area: Rect, styles: (&'static str, &'static str) },
    /// Draw a border around an area.
    Border { area: Rect },
    /// Write a text, up to a width.
    Clipped { x: u16, y: u16, text: String, width: u16, style: &'static str },
}

impl View for Draw {
    type V = DrawView;

    open spec fn view(&self) -> DrawView {
        match self {
            Draw::Style { area, style } => DrawView::Style { area: *area, style: style@ },
            Draw::Text { x, y, text, style } => DrawView::Text {
                x: *x as int,
                y: *y as int,
                text: text@,
                style: style@,
            },
            Draw::Line { x, y, spans, width } => DrawView::Line {
                x: *x as int,
                y: *y as int,
                spans: span_views(spans@),
                width: *width as int,
            },
            Draw::Clear { area, styles } => DrawView::Clear {
                area: *area,
                styles: (styles.0@, styles.1@),
            },
            Draw::Border { area } => DrawView::Border { area: *area },
            Draw::Clipped { x, y, text, width, style } => DrawView::Clipped {
                x: *x as int,
                y: *y as int,
                text: text@,
                width: *width as int,
                style: style@,
            },
        }
    }
}

/// What a list of things to draw stands for.
pub open spec fn draw_views(s: Seq<Draw>) -> Seq<DrawView> {
    Seq::new(s.len(), |i: int| s[i]@)
}

/// Adds something to draw.
fn draw(out: &mut Vec<Draw>, d: Draw)
    ensures
        draw_views(final(out)@) == draw_views(old(out)@).push(d@),
{
    let ghost before = out@;
    out.push(d);
    assert(draw_views(out@) =~= draw_views(before).push(d@));
}

// ── One entry ────────────────────────────────────────────────────────────
/// So many spaces.
pub open spec fn spaces(n: nat) -> Seq<char> {
    Seq::new(n, |i: int| ' ')
}

/// The icon of an entry.
pub open spec fn icon_of(e: EntryView) -> Seq<char> {
    if e.is_dir {
        if e.expanded {
            "▾ "@
        } else {
            "▸ "@
        }
    } else {
        "  "@
    }
}

/// The style of an entry that is not marked.
pub open spec fn plain_style(e: EntryView) -> Seq<char> {
    if e.is_dir {
        "ui.text.directory"@
    } else {
        "ui.text"@
    }
}

/// The style of a status.
pub open spec fn status_style(status: GitStatus) -> Seq<char> {
    match status {
        GitStatus::Untracked => "diff.plus"@,
        GitStatus::Modified => "diff.delta"@,
        GitStatus::Added => "diff.plus"@,
        GitStatus::Deleted => "diff.minus"@,
        GitStatus::Renamed => "diff.delta.moved"@,
        GitStatus::Conflict => "error"@,
    }
}

/// A piece with a style.
pub open spec fn styled(text: Seq<char>, style: Seq<char>) -> SpanView {
    SpanView { text, style: Some(style) }
}

/// The line of an entry: indentation, icon, mark, name and status.
pub open spec fn entry_line(e: EntryView, marked: bool) -> Seq<SpanView> {
    (if e.depth > 0 {
        seq![SpanView { text: spaces(2 * e.depth), style: None }]
    } else {
        Seq::empty()
    }) + seq![styled(icon_of(e), plain_style(e))] + (if marked {
        seq![styled("● "@, "ui.text.focus"@), styled(e.name, "ui.text.focus"@)]
    } else {
        seq![styled(e.name, plain_style(e))]
    }) + (match e.git_status {
        Some(status) => seq![styled(" "@ + label_of(status), status_style(status))],
        None => Seq::empty(),
    })
}

/// What is drawn for an entry in a row.
pub open spec fn entry_drawn(e: EntryView, marked: bool, selected: bool, area: Rect) -> Seq<
    DrawView,
> {
    (if selected {
        seq![DrawView::Style { area, style: "ui.selection"@ }]
    } else {
        Seq::empty()
    }) + seq![
        DrawView::Line {
            x: area.x as int,
            y: area.y as int,
            spans: entry_line(e, marked),
            width: area.width as int,
        },
    ]
}

/// Adds a piece.
fn push_span(out: &mut Vec<Span>, text: String, style: Option<&'static str>)
    ensures
        span_views(final(out)@) == span_views(old(out)@).push(
            SpanView {
                text: text@,
                style: match style {
                    Some(s) => Some(s@),
                    None => None,
                },
            },
        ),
{
    let ghost before = out@;
    let span = Span { text, style };
    let ghost v = span@;
    out.push(span);
    assert(span_views(out@) =~= span_views(before).push(v));
}

/// Writes so many spaces.
fn make_spaces(n: usize) -> (r: String)
    ensures
        r@ == spaces(n as nat),
{
    let mut out = String::new();
    let mut i: usize = 0;
    assert(out@ =~= spaces(0));
    while i < n
        invariant
            i <= n,
            out@ == spaces(i as nat),
        decreases n - i,
    {
        out.push(' ');
        assert(out@ =~= spaces(i as nat + 1));
        i += 1;
    }
    out
}

/// Whether the indentation of every entry can be counted.
pub open spec fn indents_fit(s: Seq<EntryView>) -> bool {
    forall|i: int| 0 <= i < s.len() ==> 2 * (#[trigger] s[i]).depth <= usize::MAX
}

impl FileTree {
    /// Render a single entry
    fn render_entry(&self, entry: &FileEntry, selected: bool, area: Rect, out: &mut Vec<Draw>)
        requires
            2 * entry@.depth <= usize::MAX,
        ensures
            draw_views(final(out)@) == draw_views(old(out)@) + entry_drawn(
                entry@,
                holds(self@.marked, entry@.path),
                selected,
                area,
            ),
    {
        let ghost before = draw_views(out@);
        let ghost e = entry@;
        // Background for selected item
        if selected {
            draw(out, Draw::Style { area, style: "ui.selection" });
        }
        let ghost with_style = draw_views(out@);
        // Build the display line
        let mut spans: Vec<Span> = Vec::new();
        assert(span_views(spans@) =~= Seq::empty());
        // Indentation
        if entry.depth > 0 {
            push_span(&mut spans, make_spaces(entry.depth * 2), None);
        }
        // Icon
        let icon = if entry.is_dir {
            if entry.expanded {
                "▾ "
            } else {
                "▸ "
            }
        } else {
            "  "
        };
        let plain = if entry.is_dir {
            "ui.text.directory"
        } else {
            "ui.text"
        };
        push_span(&mut spans, icon.to_owned(), Some(plain));
        let marked = self.marked.contains(&entry.path);
        if marked {
            // Selection mark
            push_span(&mut spans, "● ".to_owned(), Some("ui.text.focus"));
            push_span(&mut spans, entry.name.clone(), Some("ui.text.focus"));
        } else {
            push_span(&mut spans, entry.name.clone(), Some(plain));
        }
        // Git status
        if let Some(status) = entry.git_status {
            let style = match status {
                GitStatus::Untracked => "diff.plus",
                GitStatus::Modified => "diff.delta",
                GitStatus::Added => "diff.plus",
                GitStatus::Deleted => "diff.minus",
                GitStatus::Renamed => "diff.delta.moved",
                GitStatus::Conflict => "error",
            };
            push_span(&mut spans, concat(" ", status.label()), Some(style));
        }
        assert(span_views(spans@) =~= entry_line(e, marked));
        draw(out, Draw::Line { x: area.x, y: area.y, spans, width: area.width });
        assert(draw_views(out@) =~= before + entry_drawn(e, marked, selected, area));
    }
}

// ── The tree ─────────────────────────────────────────────────────────────
/// Whether an area lies on a screen and has room for something.
pub open spec fn area_fits(area: Rect) -> bool {
    area.width >= 1 && area.height >= 1 && area.x + area.width <= 0xffff && area.y + area.height
        <= 0xffff
}

/// The border on the right, row by row.
pub open spec fn border_drawn(area: Rect) -> Seq<DrawView> {
    Seq::new(
        area.height as nat,
        |i: int|
            DrawView::Text {
                x: area.x + area.width - 1,
                y: area.y + i,
                text: "│"@,
                style: "ui.separator"@,
            },
    )
}

/// The title, with the number of marked entries.
pub open spec fn title_of(marked: nat) -> Seq<char> {
    if marked == 0 {
        " File Tree "@
    } else {
        " File Tree ("@ + decimal(marked) + " selected) "@
    }
}

/// The area of the row for the `i`th visible entry.
pub open spec fn row_area(area: Rect, i: int) -> Rect {
    Rect {
        x: area.x,
        y: (area.y + 1 + i) as u16,
        width: (area.width - 1) as u16,
        height: 1,
    }
}

/// The number of entries that are visible.
pub open spec fn visible_count(v: TreeView, area: Rect) -> int {
    let below = less_by(v.entries.len() as int, v.scroll as int);
    if below < area.height - 1 {
        below
    } else {
        area.height - 1
    }
}

/// The first `n` of the visible entries.
pub open spec fn rows_drawn(v: TreeView, area: Rect, n: int) -> Seq<DrawView>
    decreases n,
{
    if n <= 0 {
        Seq::empty()
    } else {
        let k = v.scroll + n - 1;
        rows_drawn(v, area, n - 1) + entry_drawn(
            v.entries[k],
            holds(v.marked, v.entries[k].path),
            k == v.selected,
            row_area(area, n - 1),
        )
    }
}

/// The line at the bottom: the filter while it is typed, else what keys do,
/// if there is room.
pub open spec fn bottom_drawn(v: TreeView, area: Rect) -> Seq<DrawView> {
    let help = "Enter:open v:sel d:del a:new A:dir p:up q:quit"@;
    if v.filter_mode {
        seq![
            DrawView::Text {
                x: area.x + 1,
                y: area.y + area.height - 1,
                text: "/"@ + v.filter_query,
                style: "ui.text"@,
            },
        ]
    } else if area.height > 3 && help.len() < area.width {
        seq![
            DrawView::Text {
                x: area.x + 1,
                y: area.y + area.height - 1,
                text: help,
                style: "ui.text"@,
            },
        ]
    } else {
        Seq::empty()
    }
}

/// The tree after it was drawn: it knows its height and is scrolled so that
/// the selection is visible.
pub open spec fn laid_out(v: TreeView, area: Rect) -> TreeView {
    scrolled(TreeView { cached_height: area.height, ..v })
}

/// What is drawn for the tree, once it is laid out.
pub open spec fn tree_drawn(v: TreeView, area: Rect) -> Seq<DrawView> {
    seq![DrawView::Style { area, style: "ui.background"@ }] + border_drawn(area) + seq![
        DrawView::Text {
            x: area.x + 1,
            y: area.y as int,
            text: title_of(v.marked.len()),
            style: "ui.text.focus"@,
        },
    ] + rows_drawn(v, area, visible_count(v, area)) + bottom_drawn(v, area)
}

impl FileTree {
    /// Lays the tree out in an area, and says what to draw.
    #[verifier::spinoff_prover]
    #[verifier::rlimit(30)]
    pub fn render(&mut self, area: Rect) -> (r: Vec<Draw>)
        requires
            area_fits(area),
            indents_fit(old(self)@.entries),
        ensures
            final(self)@ == laid_out(old(self)@, area),
            final(self).marked == old(self).marked,
            draw_views(r@) == tree_drawn(laid_out(old(self)@, area), area),
    {
        // Cache height for scroll calculations
        self.cached_height = area.height;
        // Update scroll position
        self.update_scroll();
        let ghost v = self@;
        assert(v.entries.len() == self.entries@.len());
        assert(v.marked.len() == self.marked.paths@.len());
        let mut out: Vec<Draw> = Vec::new();
        // Background
        assert(draw_views(out@) =~= Seq::empty());
        draw(&mut out, Draw::Style { area, style: "ui.background" });
        let ghost back = seq![DrawView::Style { area, style: "ui.background"@ }];
        assert(draw_views(out@) =~= back);
        // Border on the right
        let ghost border = border_drawn(area);
        let mut i: u16 = 0;
        assert(draw_views(out@) =~= back + border.take(0));
        while i < area.height
            invariant
                i <= area.height,
                area_fits(area),
                border == border_drawn(area),
                draw_views(out@) == back + border.take(i as int),
            decreases area.height - i,
        {
            let ghost before = draw_views(out@);
            draw(
                &mut out,
                Draw::Text {
                    x: area.x + area.width - 1,
                    y: area.y + i,
                    text: "│".to_owned(),
                    style: "ui.separator",
                },
            );
            assert(border.take(i + 1) =~= border.take(i as int).push(border[i as int]));
            assert(draw_views(out@) =~= back + border.take(i + 1));
            i += 1;
        }
        assert(border.take(i as int) =~= border);
        // Title
        let title = if self.marked.is_empty() {
            " File Tree ".to_owned()
        } else {
            concat(
                concat(" File Tree (", to_decimal(self.marked.len()).as_str()).as_str(),
                " selected) ",
            )
        };
        draw(
            &mut out,
            Draw::Text { x: area.x + 1, y: area.y, text: title, style: "ui.text.focus" },
        );
        let ghost front = draw_views(out@);
        // Render entries
        let len = self.entries.len();
        let below: usize = if len > self.scroll {
            len - self.scroll
        } else {
            0
        };
        let rows: usize = area.height as usize - 1;
        let count: usize = if below < rows {
            below
        } else {
            rows
        };
        let mut n: usize = 0;
        assert(draw_views(out@) =~= front + rows_drawn(v, area, 0));
        while n < count
            invariant
                n <= count,
                count == visible_count(v, area),
                count <= area.height - 1,
                area_fits(area),
                v == self@,
                v.entries.len() == self.entries@.len(),
                len == self.entries@.len(),
                v.scroll + count <= v.entries.len() || count == 0,
                indents_fit(v.entries),
                draw_views(out@) == front + rows_drawn(v, area, n as int),
            decreases count - n,
        {
            let ghost before = draw_views(out@);
            let k = self.scroll + n;
            let row = Rect {
                x: area.x,
                y: area.y + 1 + n as u16,
                width: area.width - 1,
                height: 1,
            };
            assert(row == row_area(area, n as int));
            assert(v.entries[k as int] == self.entries@[k as int]@);
            assert(2 * v.entries[k as int].depth <= usize::MAX);
            self.render_entry(&self.entries[k], k == self.selected, row, &mut out);
            assert(draw_views(out@) =~= front + rows_drawn(v, area, n + 1));
            n += 1;
        }
        let ghost before = draw_views(out@);
        let help = "Enter:open v:sel d:del a:new A:dir p:up q:quit";
        if self.filter_mode {
            // Filter mode indicator
            draw(
                &mut out,
                Draw::Text {
                    x: area.x + 1,
                    y: area.y + area.height - 1,
                    text: concat("/", self.filter_query.as_str()),
                    style: "ui.text",
                },
            );
        } else if area.height > 3 && help.unicode_len() < area.width as usize {
            // Show help hint at bottom if space allows
            draw(
                &mut out,
                Draw::Text {
                    x: area.x + 1,
                    y: area.y + area.height - 1,
                    text: help.to_owned(),
                    style: "ui.text",
                },
            );
        }
        assert(draw_views(out@) =~= before + bottom_drawn(v, area));
        out
    }
}

// ── The confirmation box ─────────────────────────────────────────────────
/// What keys do in the confirmation box.
pub open spec fn hint() -> Seq<char> {
    "[y] confirm  [n] cancel"@
}

/// The larger of two numbers.
pub open spec fn larger(a: int, b: int) -> int {
    if a > b {
        a
    } else {
        b
    }
}

/// The smaller of two numbers.
pub open spec fn smaller(a: int, b: int) -> int {
    if a < b {
        a
    } else {
        b
    }
}

/// The number of lines for which a screen has room.
pub open spec fn most_lines(area: Rect) -> int {
    larger(less_by(area.height as int, 8), 1)
}

/// The width of the widest of some lines.
pub open spec fn widest_line(s: Seq<Seq<char>>) -> int
    decreases s.len(),
{
    if s.len() == 0 {
        0
    } else {
        larger(widest_line(s.drop_last()), display_width(s.last()) as int)
    }
}

/// The lines that are shown.
pub open spec fn lines_shown(lines: Seq<Seq<char>>, area: Rect) -> Seq<Seq<char>> {
    lines.take(smaller(lines.len() as int, most_lines(area)))
}

/// The number of lines that are left out.
pub open spec fn lines_omitted(lines: Seq<Seq<char>>, area: Rect) -> int {
    less_by(lines.len() as int, most_lines(area))
}

/// The width of the box: that of its contents with a margin, but no less than
/// 24 columns and no more than fits on the screen, and at most 80. Widths wrap
/// around at 2^16.
pub open spec fn box_width(title: Seq<char>, lines: Seq<Seq<char>>, area: Rect) -> int {
    let content = larger(
        larger(widest_line(lines_shown(lines, area)), display_width(title) as int),
        hint().len() as int,
    );
    let wanted = (content + 4) % 0x10000;
    let most = larger(smaller(80, less_by(area.width as int, 4)), 24);
    larger(24, smaller(wanted, most))
}

/// The height of the box.
pub open spec fn box_height(lines: Seq<Seq<char>>, area: Rect) -> int {
    let shown = lines_shown(lines, area).len() + (if lines_omitted(lines, area) > 0 {
        1nat
    } else {
        0
    });
    smaller(shown as int + 5, area.height as int)
}

/// Where the box lies: in the center.
pub open spec fn box_area(title: Seq<char>, lines: Seq<Seq<char>>, area: Rect) -> Rect {
    let width = box_width(title, lines, area);
    let height = box_height(lines, area);
    Rect {
        x: (area.x + less_by(area.width as int, width) / 2) as u16,
        y: (area.y + less_by(area.height as int, height) / 2) as u16,
        width: smaller(width, area.width as int) as u16,
        height: height as u16,
    }
}

/// The first `n` lines of the box, as far as there is room.
pub open spec fn box_lines(lines: Seq<Seq<char>>, frame: Rect, inner: Rect, n: int) -> Seq<DrawView>
    decreases n,
{
    if n <= 0 {
        Seq::empty()
    } else {
        let before = box_lines(lines, frame, inner, n - 1);
        let y = inner.y + 2 + n - 1;
        if y < frame.y + frame.height - 2 {
            before.push(
                DrawView::Clipped {
                    x: inner.x + 1,
                    y,
                    text: lines[n - 1],
                    width: inner.width as int,
                    style: "ui.text"@,
                },
            )
        } else {
            before
        }
    }
}

/// The number of lines of the box that there is room for.
pub open spec fn lines_fitting(n: int, frame: Rect, inner: Rect) -> int {
    smaller(n, less_by(frame.y + frame.height - 2, inner.y + 2))
}

/// What is drawn for the box: `frame` is where it lies, `inner` what the
/// border leaves of it, and `area` the screen.
pub open spec fn box_drawn(
    title: Seq<char>,
    lines: Seq<Seq<char>>,
    area: Rect,
    frame: Rect,
    inner: Rect,
) -> Seq<DrawView> {
    let shown = lines_shown(lines, area);
    let omitted = lines_omitted(lines, area);
    let fitting = lines_fitting(shown.len() as int, frame, inner);
    let last = frame.y + frame.height - 2;
    seq![
        DrawView::Clear { area: frame, styles: ("ui.background"@, "ui.text"@) },
        DrawView::Border { area: frame },
        DrawView::Clipped {
            x: inner.x + 1,
            y: inner.y as int,
            text: title,
            width: inner.width as int,
            style: "ui.text.focus"@,
        },
    ] + box_lines(shown, frame, inner, shown.len() as int) + (if omitted > 0 && inner.y + 2
        + fitting < last {
        seq![
            DrawView::Clipped {
                x: inner.x + 1,
                y: inner.y + 2 + fitting,
                text: "… and "@ + decimal(omitted as nat) + " more"@,
                width: inner.width as int,
                style: "ui.text"@,
            },
        ]
    } else {
        Seq::empty()
    }) + seq![
        DrawView::Clipped {
            x: inner.x + 1,
            y: last,
            text: hint(),
            width: inner.width as int,
            style: "ui.text.focus"@,
        },
    ]
}

proof fn lemma_box_lines(lines: Seq<Seq<char>>, frame: Rect, inner: Rect, n: int)
    requires
        0 <= n <= lines.len(),
    ensures
        box_lines(lines, frame, inner, n) == box_lines(
            lines,
            frame,
            inner,
            lines_fitting(n, frame, inner),
        ),
    decreases n,
{
    if n > lines_fitting(n, frame, inner) {
        lemma_box_lines(lines, frame, inner, n - 1);
    }
}

impl ConfirmBox {
    /// The number of lines for which a screen has room.
    fn room_for(area: Rect) -> (r: usize)
        ensures
            r == most_lines(area),
    {
        if area.height > 9 {
            area.height as usize - 8
        } else {
            1
        }
    }

    /// Where the box lies on a screen.
    pub fn frame(&self, area: Rect) -> (r: Rect)
        requires
            area.x + area.width <= 0xffff,
            area.y + area.height <= 0xffff,
        ensures
            r == box_area(self.title@, texts(self.lines@), area),
    {
        let ghost all = texts(self.lines@);
        proof {
            reveal_strlit("[y] confirm  [n] cancel");
            assert(hint().len() == 23);
        }
        let max_lines = Self::room_for(area);
        let len = self.lines.len();
        let shown: usize = if len < max_lines {
            len
        } else {
            max_lines
        };
        let mut content: u128 = 0;
        let mut i: usize = 0;
        assert(all.take(0) =~= Seq::empty());
        while i < shown
            invariant
                i <= shown <= self.lines@.len(),
                all == texts(self.lines@),
                content == widest_line(all.take(i as int)),
                content <= usize::MAX,
            decreases shown - i,
        {
            let width = width_of(self.lines[i].as_str()) as u128;
            assert(all.take(i + 1).drop_last() =~= all.take(i as int));
            assert(all.take(i + 1).last() == self.lines@[i as int]@);
            if width > content {
                content = width;
            }
            i += 1;
        }
        let title = width_of(self.title.as_str()) as u128;
        if title > content {
            content = title;
        }
        if content < 23 {
            content = 23;
        }
        let wanted = ((content + 4) % 0x10000) as u16;
        let available: u16 = if area.width > 4 {
            area.width - 4
        } else {
            0
        };
        let most: u16 = if available < 80 {
            available
        } else {
            80
        };
        let most: u16 = if most > 24 {
            most
        } else {
            24
        };
        let width: u16 = if wanted < 24 {
            24
        } else if wanted > most {
            most
        } else {
            wanted
        };
        let extra: usize = if len > max_lines {
            1
        } else {
            0
        };
        let lines: usize = shown + extra + 5;
        let height: u16 = if lines < area.height as usize {
            lines as u16
        } else {
            area.height
        };
        Rect {
            x: area.x + (if area.width > width {
                area.width - width
            } else {
                0
            }) / 2,
            y: area.y + (area.height - height) / 2,
            width: if width < area.width {
                width
            } else {
                area.width
            },
            height,
        }
    }

    /// Says what to draw: `frame` is where the box lies (see
    /// [`ConfirmBox::frame`]), `inner` what its border leaves of it, and `area`
    /// the screen.
    pub fn render(&self, area: Rect, frame: Rect, inner: Rect) -> (r: Vec<Draw>)
        requires
            2 <= frame.y + frame.height <= 0xffff,
            inner.x < 0xffff,
            inner.y <= 0xfffd,
        ensures
            draw_views(r@) == box_drawn(self.title@, texts(self.lines@), area, frame, inner),
    {
        let ghost all = texts(self.lines@);
        let ghost lines = lines_shown(all, area);
        let max_lines = Self::room_for(area);
        let len = self.lines.len();
        let shown: usize = if len < max_lines {
            len
        } else {
            max_lines
        };
        assert(lines.len() == shown);
        let omitted: usize = len - shown;
        let last: u16 = frame.y + frame.height - 2;
        let text_width = inner.width;
        let mut out: Vec<Draw> = Vec::new();
        assert(draw_views(out@) =~= Seq::empty());
        draw(&mut out, Draw::Clear { area: frame, styles: ("ui.background", "ui.text") });
        draw(&mut out, Draw::Border { area: frame });
        draw(
            &mut out,
            Draw::Clipped {
                x: inner.x + 1,
                y: inner.y,
                text: self.title.clone(),
                width: text_width,
                style: "ui.text.focus",
            },
        );
        let ghost front = draw_views(out@);
        assert(front =~= seq![
            DrawView::Clear { area: frame, styles: ("ui.background"@, "ui.text"@) },
            DrawView::Border { area: frame },
            DrawView::Clipped {
                x: inner.x + 1,
                y: inner.y as int,
                text: self.title@,
                width: inner.width as int,
                style: "ui.text.focus"@,
            },
        ]);
        let mut y: u16 = inner.y + 2;
        let mut i: usize = 0;
        assert(draw_views(out@) =~= front + box_lines(lines, frame, inner, 0));
        while i < shown && y < last
            invariant
                i <= shown <= self.lines@.len(),
                lines == all.take(shown as int),
                all == texts(self.lines@),
                inner.x < 0xffff,
                text_width == inner.width,
                last == frame.y + frame.height - 2,
                y == inner.y + 2 + i,
                i > 0 ==> y <= last,
                draw_views(out@) == front + box_lines(lines, frame, inner, i as int),
            decreases shown - i,
        {
            let ghost before = draw_views(out@);
            draw(
                &mut out,
                Draw::Clipped {
                    x: inner.x + 1,
                    y,
                    text: self.lines[i].clone(),
                    width: text_width,
                    style: "ui.text",
                },
            );
            assert(lines[i as int] == self.lines@[i as int]@);
            assert(draw_views(out@) =~= front + box_lines(lines, frame, inner, i + 1));
            y += 1;
            i += 1;
        }
        proof {
            assert(i == lines_fitting(shown as int, frame, inner));
            lemma_box_lines(lines, frame, inner, shown as int);
        }
        let ghost with_lines = draw_views(out@);
        if omitted > 0 && y < last {
            let text = concat(concat("… and ", to_decimal(omitted).as_str()).as_str(), " more");
            draw(
                &mut out,
                Draw::Clipped { x: inner.x + 1, y, text, width: text_width, style: "ui.text" },
            );
        }
        draw(
            &mut out,
            Draw::Clipped {
                x: inner.x + 1,
                y: last,
                text: "[y] confirm  [n] cancel".to_owned(),
                width: text_width,
                style: "ui.text.focus",
            },
        );
        assert(draw_views(out@) =~= box_drawn(self.title@, all, area, frame, inner));
        out
    }
}

/// The confirmation box lies on the screen.
pub proof fn law_box_on_screen(title: Seq<char>, lines: Seq<Seq<char>>, area: Rect)
    requires
        area.x + area.width <= 0xffff,
        area.y + area.height <= 0xffff,
    ensures
        ({
            let r = box_area(title, lines, area);
            &&& area.x <= r.x && r.x + r.width <= area.x + area.width
            &&& area.y <= r.y && r.y + r.height <= area.y + area.height
        }),
{
    reveal_strlit("[y] confirm  [n] cancel");
}

} // verus!
