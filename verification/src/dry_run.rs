//! Dry-run support for the configuration system.
//!
//! When dry-run mode is enabled, operations that would mutate the file system
//! or touch the network are *recorded* instead of executed. At the end of a
//! dry run the record is rendered as a report of
//!
//! * which directories were searched,
//! * which config files were found, read or skipped, layer by layer,
//! * which directories *would have been* created,
//! * the merged editor and language configuration,
//! * which actions *would have been* performed.
use crate::disk::Disk;
use crate::path::{parts, path_texts, PathBuf};
use crate::text::{concat, decimal, lines, split_lines, texts, to_decimal};
use vstd::prelude::*;

verus! {

/// Outcome of probing/reading a config file layer.
#[derive(Debug)]
pub enum ReadOutcome {
    /// File existed and parsed successfully.
    Loaded,
    /// File does not exist (layer skipped).
    NotFound,
    /// File exists but could not be read or parsed.
    Error(String),
}

/// How an outcome reads.
pub open spec fn outcome_text(o: ReadOutcome) -> Seq<char> {
    match o {
        ReadOutcome::Loaded => "loaded"@,
        ReadOutcome::NotFound => "not found"@,
        ReadOutcome::Error(err) => "ERROR: "@ + err@,
    }
}

impl ReadOutcome {
    /// How the outcome reads.
    pub fn text(&self) -> (r: String)
        ensures
            r@ == outcome_text(*self),
    {
        match self {
            ReadOutcome::Loaded => "loaded".to_owned(),
            ReadOutcome::NotFound => "not found".to_owned(),
            ReadOutcome::Error(err) => concat("ERROR: ", err.as_str()),
        }
    }
}

impl Clone for ReadOutcome {
    fn clone(&self) -> (r: ReadOutcome)
        ensures
            r == *self,
    {
        match self {
            ReadOutcome::Loaded => ReadOutcome::Loaded,
            ReadOutcome::NotFound => ReadOutcome::NotFound,
            ReadOutcome::Error(err) => ReadOutcome::Error(err.clone()),
        }
    }
}

/// Summary of the merged language configuration.
#[derive(Debug)]
pub struct LanguagesSummary {
    pub language_count: usize,
    pub grammar_count: usize,
    /// The `use-grammars` selection, if any: `only: [...]` / `except: [...]`.
    pub grammar_selection: Option<String>,
}

/// Everything that was recorded.
#[derive(Debug)]
pub struct Report {
    pub created_dirs: Vec<PathBuf>,
    pub read_configs: Vec<(PathBuf, ReadOutcome)>,
    pub actions: Vec<(String, String)>,
    /// Rendered TOML of the merged `editor` configuration.
    pub synthesized_editor: Option<String>,
    /// Theme selected by the merged config.
    pub synthesized_theme: Option<String>,
    pub synthesized_languages: Option<LanguagesSummary>,
}

/// A report, as a mathematical value.
pub struct ReportView {
    pub created_dirs: Seq<Seq<char>>,
    pub read_configs: Seq<(PathBuf, ReadOutcome)>,
    pub actions: Seq<(String, String)>,
    pub synthesized_editor: Option<String>,
    pub synthesized_theme: Option<String>,
    pub synthesized_languages: Option<LanguagesSummary>,
}

impl View for Report {
    type V = ReportView;

    open spec fn view(&self) -> ReportView {
        ReportView {
            created_dirs: path_texts(self.created_dirs@),
            read_configs: self.read_configs@,
            actions: self.actions@,
            synthesized_editor: self.synthesized_editor,
            synthesized_theme: self.synthesized_theme,
            synthesized_languages: self.synthesized_languages,
        }
    }
}

/// A report of nothing.
pub open spec fn empty_report() -> ReportView {
    ReportView {
        created_dirs: Seq::empty(),
        read_configs: Seq::empty(),
        actions: Seq::empty(),
        synthesized_editor: None,
        synthesized_theme: None,
        synthesized_languages: None,
    }
}

impl Report {
    /// A report of nothing.
    pub fn new() -> (r: Report)
        ensures
            r@ == empty_report(),
    {
        let r = Report {
            created_dirs: Vec::new(),
            read_configs: Vec::new(),
            actions: Vec::new(),
            synthesized_editor: None,
            synthesized_theme: None,
            synthesized_languages: None,
        };
        assert(path_texts(r.created_dirs@) =~= Seq::empty());
        r
    }
}

/// Whether this is a dry run, and what was recorded so far.
#[derive(Debug)]
pub struct DryRun {
    pub enabled: bool,
    pub report: Option<Report>,
}

/// The state of a dry run, as a mathematical value.
pub struct DryRunView {
    pub enabled: bool,
    pub report: Option<ReportView>,
}

impl View for DryRun {
    type V = DryRunView;

    open spec fn view(&self) -> DryRunView {
        DryRunView {
            enabled: self.enabled,
            report: match self.report {
                Some(r) => Some(r@),
                None => None,
            },
        }
    }
}

impl DryRun {
    /// No dry run.
    pub fn new() -> (r: DryRun)
        ensures
            r@ == (DryRunView { enabled: false, report: None }),
    {
        DryRun { enabled: false, report: None }
    }
}

// ── Recording ────────────────────────────────────────────────────────────
/// Enable dry-run mode. Must be called before any of the `initialize_*`
/// functions so their side effects are intercepted.
pub fn enable(state: &mut DryRun)
    ensures
        final(state)@ == (DryRunView { enabled: true, report: Some(empty_report()) }),
{
    state.enabled = true;
    state.report = Some(Report::new());
}

/// Whether dry-run mode is active.
pub fn is_enabled(state: &DryRun) -> (r: bool)
    ensures
        r == state@.enabled,
{
    state.enabled
}

/// `v` with a change made to its report, if it has one.
pub open spec fn reporting(v: DryRunView, f: spec_fn(ReportView) -> ReportView) -> DryRunView {
    match v.report {
        Some(r) => DryRunView { report: Some(f(r)), ..v },
        None => v,
    }
}

/// Whether a path is among others.
pub open spec fn listed(s: Seq<Seq<char>>, t: Seq<char>) -> bool {
    exists|i: int| 0 <= i < s.len() && parts(#[trigger] s[i]) == parts(t)
}

/// `r` with a directory that would be created; one that is in it already
/// stays alone.
pub open spec fn with_created_dir(r: ReportView, t: Seq<char>) -> ReportView {
    if listed(r.created_dirs, t) {
        r
    } else {
        ReportView { created_dirs: r.created_dirs.push(t), ..r }
    }
}

/// Whether a path is among others.
fn lists(dirs: &Vec<PathBuf>, path: &PathBuf) -> (r: bool)
    ensures
        r == listed(path_texts(dirs@), path@),
{
    let mut i: usize = 0;
    while i < dirs.len()
        invariant
            i <= dirs@.len(),
            forall|k: int| 0 <= k < i ==> parts((#[trigger] dirs@[k])@) != parts(path@),
        decreases dirs@.len() - i,
    {
        if dirs[i].same_as(path) {
            assert(parts(path_texts(dirs@)[i as int]) == parts(path@));
            return true;
        }
        i += 1;
    }
    assert forall|k: int| 0 <= k < dirs@.len() implies parts(#[trigger] path_texts(dirs@)[k])
        != parts(path@) by {
        assert(parts(dirs@[k]@) != parts(path@));
    }
    false
}

/// Record that the directory `path` would have been created.
fn record_create_dir(state: &mut DryRun, path: PathBuf)
    ensures
        final(state)@ == reporting(old(state)@, |r: ReportView| with_created_dir(r, path@)),
{
    if let Some(mut report) = state.report.take() {
        if !lists(&report.created_dirs, &path) {
            let ghost before = report.created_dirs@;
            let ghost t = path@;
            report.created_dirs.push(path);
            assert(path_texts(report.created_dirs@) =~= path_texts(before).push(t));
        }
        state.report = Some(report);
    }
}

/// Record the outcome of reading a config file layer.
pub fn record_read_config(state: &mut DryRun, path: PathBuf, outcome: ReadOutcome)
    ensures
        final(state)@ == reporting(
            old(state)@,
            |r: ReportView| ReportView { read_configs: r.read_configs.push((path, outcome)), ..r },
        ),
{
    if let Some(mut report) = state.report.take() {
        report.read_configs.push((path, outcome));
        state.report = Some(report);
    }
}

/// Record an action that would have been performed (network, compiler, ...).
pub fn record_action(state: &mut DryRun, context: String, detail: String)
    ensures
        final(state)@ == reporting(
            old(state)@,
            |r: ReportView| ReportView { actions: r.actions.push((context, detail)), ..r },
        ),
{
    if let Some(mut report) = state.report.take() {
        report.actions.push((context, detail));
        state.report = Some(report);
    }
}

/// Record the merged editor configuration, as pretty TOML.
pub fn record_synthesized_editor(state: &mut DryRun, rendered_toml: String)
    ensures
        final(state)@ == reporting(
            old(state)@,
            |r: ReportView| ReportView { synthesized_editor: Some(rendered_toml), ..r },
        ),
{
    if let Some(mut report) = state.report.take() {
        report.synthesized_editor = Some(rendered_toml);
        state.report = Some(report);
    }
}

/// Record the theme selected by the merged configuration.
pub fn record_synthesized_theme(state: &mut DryRun, theme: String)
    ensures
        final(state)@ == reporting(
            old(state)@,
            |r: ReportView| ReportView { synthesized_theme: Some(theme), ..r },
        ),
{
    if let Some(mut report) = state.report.take() {
        report.synthesized_theme = Some(theme);
        state.report = Some(report);
    }
}

/// Record a summary of the merged language configuration.
pub fn record_synthesized_languages(state: &mut DryRun, summary: LanguagesSummary)
    ensures
        final(state)@ == reporting(
            old(state)@,
            |r: ReportView| ReportView { synthesized_languages: Some(summary), ..r },
        ),
{
    if let Some(mut report) = state.report.take() {
        report.synthesized_languages = Some(summary);
        state.report = Some(report);
    }
}

/// The state after a directory was to be created: a dry run records it,
/// unless it is there.
pub open spec fn dir_created(v: DryRunView, t: Seq<char>, disk: Disk) -> DryRunView {
    if v.enabled && !disk.present(t) {
        reporting(v, |r: ReportView| with_created_dir(r, t))
    } else {
        v
    }
}

/// Decides on creating a directory with its parents: whether it is to be
/// made now.
///
/// In dry-run mode it is *not* made; the attempt is recorded and reported at
/// the end.
pub fn create_dir_all(state: &mut DryRun, path: &PathBuf, disk: &Disk) -> (r: bool)
    ensures
        r == !old(state)@.enabled,
        final(state)@ == dir_created(old(state)@, path@, *disk),
{
    if is_enabled(state) {
        if !disk.is_present(path) {
            record_create_dir(state, path.clone());
        }
        return false;
    }
    true
}

/// A dry run lists what it would have made, once, and nothing that is there.
pub proof fn law_missing_dirs_recorded_once(v: DryRunView, t: Seq<char>, disk: Disk)
    requires
        v.enabled,
    ensures
        dir_created(v, t, disk).enabled,
        v.report is Some && !disk.present(t) ==> listed(
            dir_created(v, t, disk).report->0.created_dirs,
            t,
        ),
        disk.present(t) ==> dir_created(v, t, disk) == v,
        dir_created(dir_created(v, t, disk), t, disk) == dir_created(v, t, disk),
{
    if let Some(r) = v.report {
        let s = with_created_dir(r, t).created_dirs;
        if !listed(r.created_dirs, t) {
            assert(parts(s[s.len() - 1]) == parts(t));
        }
    }
}

// ── The report ───────────────────────────────────────────────────────────
/// How a directory that was searched is shown.
pub open spec fn dir_line(dir: PathBuf, disk: Disk) -> Seq<char> {
    "    ["@ + (if disk.dir_at(dir@) {
        "exists "@
    } else {
        "missing"@
    }) + "] "@ + dir@
}

/// How the groups of directories that were searched are shown.
pub open spec fn searched_lines(s: Seq<(String, Vec<PathBuf>)>, disk: Disk) -> Seq<Seq<char>>
    decreases s.len(),
{
    if s.len() == 0 {
        Seq::empty()
    } else {
        let (label, dirs) = s.last();
        searched_lines(s.drop_last(), disk).push("  "@ + label@ + ":"@) + Seq::new(
            dirs@.len(),
            |i: int| dir_line(dirs@[i], disk),
        )
    }
}

/// A list that says so if it is empty.
pub open spec fn or_none(s: Seq<Seq<char>>) -> Seq<Seq<char>> {
    if s.len() == 0 {
        seq!["    (none)"@]
    } else {
        s
    }
}

/// How the config files that were read are shown.
pub open spec fn read_lines(s: Seq<(PathBuf, ReadOutcome)>) -> Seq<Seq<char>> {
    Seq::new(s.len(), |i: int| "    ["@ + outcome_text(s[i].1) + "] "@ + s[i].0@)
}

/// How the directories that would be created are shown.
pub open spec fn created_lines(s: Seq<Seq<char>>) -> Seq<Seq<char>> {
    Seq::new(s.len(), |i: int| "    "@ + s[i])
}

/// How the actions that would be performed are shown.
pub open spec fn action_lines(s: Seq<(String, String)>) -> Seq<Seq<char>> {
    Seq::new(s.len(), |i: int| "    ["@ + s[i].0@ + "] "@ + s[i].1@)
}

/// How the editor configuration is shown.
pub open spec fn editor_lines(theme: Option<String>, editor: Option<String>) -> Seq<Seq<char>> {
    let first = "  theme: "@ + match theme {
        Some(t) => t@,
        None => "(default)"@,
    };
    seq![first] + match editor {
        Some(toml) => indented(lines(toml@), "  "@),
        None => seq!["  (default editor config)"@],
    }
}

/// `s` with `lead` before each line.
pub open spec fn indented(s: Seq<Seq<char>>, lead: Seq<char>) -> Seq<Seq<char>> {
    Seq::new(s.len(), |i: int| lead + s[i])
}

/// How the choice of grammars is shown.
pub open spec fn selection_lines(s: Seq<Seq<char>>) -> Seq<Seq<char>> {
    Seq::new(
        s.len(),
        |i: int|
            if i == 0 {
                "  use-grammars: "@ + s[i]
            } else {
                "    "@ + s[i]
            },
    )
}

/// How the language configuration is shown.
pub open spec fn language_lines(languages: Option<LanguagesSummary>) -> Seq<Seq<char>> {
    match languages {
        Some(l) => seq![
            "  languages: "@ + decimal(l.language_count as nat),
            "  grammars:  "@ + decimal(l.grammar_count as nat),
        ] + match l.grammar_selection {
            Some(sel) => selection_lines(lines(sel@)),
            None => seq!["  use-grammars: (all grammars selected)"@],
        },
        None => seq!["  (not loaded)"@],
    }
}

/// The report, line by line.
pub open spec fn report_text(
    r: ReportView,
    searched: Seq<(String, Vec<PathBuf>)>,
    disk: Disk,
) -> Seq<Seq<char>> {
    seq![
        ""@,
        "================ dry-run report ================"@,
        ""@,
        "-- searched directories --"@,
    ] + searched_lines(searched, disk) + seq![
        ""@,
        "-- config files read (in merge order, lowest to highest priority) --"@,
    ] + or_none(read_lines(r.read_configs)) + seq![
        ""@,
        "-- directories that would be created --"@,
    ] + or_none(created_lines(r.created_dirs)) + seq![
        ""@,
        "-- synthesized editor config (merged result) --"@,
    ] + editor_lines(r.synthesized_theme, r.synthesized_editor) + seq![
        ""@,
        "-- synthesized language config (merged result) --"@,
    ] + language_lines(r.synthesized_languages) + seq![
        ""@,
        "-- actions that would be performed --"@,
    ] + or_none(action_lines(r.actions)) + seq![
        ""@,
        "================================================="@,
    ]
}

/// Adds a line.
fn add_line(out: &mut Vec<String>, line: String)
    ensures
        texts(final(out)@) == texts(old(out)@).push(line@),
{
    let ghost before = out@;
    out.push(line);
    assert(texts(out@) =~= texts(before).push(line@));
}

/// Adds a blank line and a heading.
fn add_heading(out: &mut Vec<String>, heading: &str)
    ensures
        texts(final(out)@) == texts(old(out)@) + seq![""@, heading@],
{
    add_line(out, "".to_owned());
    add_line(out, heading.to_owned());
    assert(texts(out@) =~= texts(old(out)@) + seq![""@, heading@]);
}

fn add_searched(out: &mut Vec<String>, searched: &Vec<(String, Vec<PathBuf>)>, disk: &Disk)
    ensures
        texts(final(out)@) == texts(old(out)@) + searched_lines(searched@, *disk),
{
    let ghost before = texts(out@);
    let ghost s = searched@;
    let mut i: usize = 0;
    assert(texts(out@) =~= before + searched_lines(s.take(0), *disk));
    while i < searched.len()
        invariant
            i <= searched@.len(),
            s == searched@,
            texts(out@) == before + searched_lines(s.take(i as int), *disk),
        decreases searched@.len() - i,
    {
        let ghost so_far = texts(out@);
        let label = &searched[i].0;
        let dirs = &searched[i].1;
        let ghost head = "  "@ + label@ + ":"@;
        add_line(out, concat(concat("  ", label.as_str()).as_str(), ":"));
        let ghost all = Seq::new(dirs@.len(), |k: int| dir_line(dirs@[k], *disk));
        let mut k: usize = 0;
        assert(texts(out@) =~= so_far.push(head) + all.take(0));
        while k < dirs.len()
            invariant
                k <= dirs@.len(),
                all == Seq::new(dirs@.len(), |k: int| dir_line(dirs@[k], *disk)),
                texts(out@) == so_far.push(head) + all.take(k as int),
            decreases dirs@.len() - k,
        {
            let marker = if disk.is_dir(&dirs[k]) {
                "exists "
            } else {
                "missing"
            };
            let lead = concat(concat("    [", marker).as_str(), "] ");
            add_line(out, concat(lead.as_str(), dirs[k].text.as_str()));
            assert(texts(out@) =~= so_far.push(head) + all.take(k + 1));
            k += 1;
        }
        assert(all.take(k as int) =~= all);
        assert(s.take(i + 1).drop_last() =~= s.take(i as int));
        assert(s.take(i + 1).last() == s[i as int]);
        assert(texts(out@) =~= before + searched_lines(s.take(i + 1), *disk));
        i += 1;
    }
    assert(s.take(i as int) =~= s);
}

fn add_read(out: &mut Vec<String>, read: &Vec<(PathBuf, ReadOutcome)>)
    ensures
        texts(final(out)@) == texts(old(out)@) + or_none(read_lines(read@)),
{
    let ghost before = texts(out@);
    let ghost all = read_lines(read@);
    if read.len() == 0 {
        add_line(out, "    (none)".to_owned());
        assert(texts(out@) =~= before + or_none(all));
        return;
    }
    let mut i: usize = 0;
    assert(texts(out@) =~= before + all.take(0));
    while i < read.len()
        invariant
            i <= read@.len(),
            all == read_lines(read@),
            texts(out@) == before + all.take(i as int),
        decreases read@.len() - i,
    {
        let lead = concat(concat("    [", read[i].1.text().as_str()).as_str(), "] ");
        add_line(out, concat(lead.as_str(), read[i].0.text.as_str()));
        assert(texts(out@) =~= before + all.take(i + 1));
        i += 1;
    }
    assert(all.take(i as int) =~= all);
}

fn add_created(out: &mut Vec<String>, dirs: &Vec<PathBuf>)
    ensures
        texts(final(out)@) == texts(old(out)@) + or_none(created_lines(path_texts(dirs@))),
{
    let ghost before = texts(out@);
    let ghost all = created_lines(path_texts(dirs@));
    if dirs.len() == 0 {
        add_line(out, "    (none)".to_owned());
        assert(texts(out@) =~= before + or_none(all));
        return;
    }
    let mut i: usize = 0;
    assert(texts(out@) =~= before + all.take(0));
    while i < dirs.len()
        invariant
            i <= dirs@.len(),
            all == created_lines(path_texts(dirs@)),
            texts(out@) == before + all.take(i as int),
        decreases dirs@.len() - i,
    {
        add_line(out, concat("    ", dirs[i].text.as_str()));
        assert(texts(out@) =~= before + all.take(i + 1));
        i += 1;
    }
    assert(all.take(i as int) =~= all);
}

fn add_actions(out: &mut Vec<String>, actions: &Vec<(String, String)>)
    ensures
        texts(final(out)@) == texts(old(out)@) + or_none(action_lines(actions@)),
{
    let ghost before = texts(out@);
    let ghost all = action_lines(actions@);
    if actions.len() == 0 {
        add_line(out, "    (none)".to_owned());
        assert(texts(out@) =~= before + or_none(all));
        return;
    }
    let mut i: usize = 0;
    assert(texts(out@) =~= before + all.take(0));
    while i < actions.len()
        invariant
            i <= actions@.len(),
            all == action_lines(actions@),
            texts(out@) == before + all.take(i as int),
        decreases actions@.len() - i,
    {
        let lead = concat(concat("    [", actions[i].0.as_str()).as_str(), "] ");
        add_line(out, concat(lead.as_str(), actions[i].1.as_str()));
        assert(texts(out@) =~= before + all.take(i + 1));
        i += 1;
    }
    assert(all.take(i as int) =~= all);
}

/// Adds the lines of a text, each behind `lead`.
fn add_indented(out: &mut Vec<String>, text: &str, lead: &str)
    ensures
        texts(final(out)@) == texts(old(out)@) + indented(lines(text@), lead@),
{
    let ghost before = texts(out@);
    let ghost all = indented(lines(text@), lead@);
    let parts = split_lines(text);
    assert(parts@.len() == all.len());
    let mut i: usize = 0;
    assert(texts(out@) =~= before + all.take(0));
    while i < parts.len()
        invariant
            i <= parts@.len(),
            parts@.len() == all.len(),
            texts(parts@) == lines(text@),
            all == indented(lines(text@), lead@),
            texts(out@) == before + all.take(i as int),
        decreases parts@.len() - i,
    {
        add_line(out, concat(lead, parts[i].as_str()));
        assert(texts(parts@)[i as int] == parts@[i as int]@);
        assert(texts(out@) =~= before + all.take(i + 1));
        i += 1;
    }
    assert(all.take(i as int) =~= all);
}

fn add_selection(out: &mut Vec<String>, text: &str)
    ensures
        texts(final(out)@) == texts(old(out)@) + selection_lines(lines(text@)),
{
    let ghost before = texts(out@);
    let ghost all = selection_lines(lines(text@));
    let parts = split_lines(text);
    assert(parts@.len() == all.len());
    let mut i: usize = 0;
    assert(texts(out@) =~= before + all.take(0));
    while i < parts.len()
        invariant
            i <= parts@.len(),
            parts@.len() == all.len(),
            texts(parts@) == lines(text@),
            all == selection_lines(lines(text@)),
            texts(out@) == before + all.take(i as int),
        decreases parts@.len() - i,
    {
        let lead = if i == 0 {
            "  use-grammars: "
        } else {
            "    "
        };
        add_line(out, concat(lead, parts[i].as_str()));
        assert(texts(parts@)[i as int] == parts@[i as int]@);
        assert(texts(out@) =~= before + all.take(i + 1));
        i += 1;
    }
    assert(all.take(i as int) =~= all);
}

fn add_editor(out: &mut Vec<String>, theme: &Option<String>, editor: &Option<String>)
    ensures
        texts(final(out)@) == texts(old(out)@) + editor_lines(*theme, *editor),
{
    let ghost before = texts(out@);
    let name = match theme {
        Some(t) => t.clone(),
        None => "(default)".to_owned(),
    };
    add_line(out, concat("  theme: ", name.as_str()));
    match editor {
        Some(toml) => {
            add_indented(out, toml.as_str(), "  ");
        },
        None => {
            add_line(out, "  (default editor config)".to_owned());
        },
    }
    assert(texts(out@) =~= before + editor_lines(*theme, *editor));
}

fn add_languages(out: &mut Vec<String>, languages: &Option<LanguagesSummary>)
    ensures
        texts(final(out)@) == texts(old(out)@) + language_lines(*languages),
{
    let ghost before = texts(out@);
    match languages {
        Some(summary) => {
            add_line(out, concat("  languages: ", to_decimal(summary.language_count).as_str()));
            add_line(out, concat("  grammars:  ", to_decimal(summary.grammar_count).as_str()));
            match &summary.grammar_selection {
                Some(sel) => {
                    add_selection(out, sel.as_str());
                },
                None => {
                    add_line(out, "  use-grammars: (all grammars selected)".to_owned());
                },
            }
        },
        None => {
            add_line(out, "  (not loaded)".to_owned());
        },
    }
    assert(texts(out@) =~= before + language_lines(*languages));
}

/// Renders everything recorded so far, line by line, and forgets it.
///
/// `searched_dirs` lists groups of directories that were searched (config
/// dirs, runtime dirs, ...), each under a label; they are shown with an
/// exists/missing marker.
pub fn report_lines(
    state: &mut DryRun,
    searched_dirs: &Vec<(String, Vec<PathBuf>)>,
    disk: &Disk,
) -> (r: Vec<String>)
    ensures
        final(state)@ == (DryRunView { report: None, ..old(state)@ }),
        texts(r@) == report_text(
            match old(state)@.report {
                Some(report) => report,
                None => empty_report(),
            },
            searched_dirs@,
            *disk,
        ),
{
    let report = match state.report.take() {
        Some(report) => report,
        None => Report::new(),
    };
    let mut out: Vec<String> = Vec::new();
    assert(texts(out@) =~= Seq::empty());
    add_heading(&mut out, "================ dry-run report ================");
    add_heading(&mut out, "-- searched directories --");
    assert(texts(out@) =~= seq![
        ""@,
        "================ dry-run report ================"@,
        ""@,
        "-- searched directories --"@,
    ]);
    add_searched(&mut out, searched_dirs, disk);
    add_heading(&mut out, "-- config files read (in merge order, lowest to highest priority) --");
    add_read(&mut out, &report.read_configs);
    add_heading(&mut out, "-- directories that would be created --");
    add_created(&mut out, &report.created_dirs);
    add_heading(&mut out, "-- synthesized editor config (merged result) --");
    add_editor(&mut out, &report.synthesized_theme, &report.synthesized_editor);
    add_heading(&mut out, "-- synthesized language config (merged result) --");
    add_languages(&mut out, &report.synthesized_languages);
    add_heading(&mut out, "-- actions that would be performed --");
    add_actions(&mut out, &report.actions);
    add_heading(&mut out, "=================================================");
    out
}

} // verus!
