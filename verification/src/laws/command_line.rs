//! What a command line says: each option for itself, and the files.
use crate::args::{
    arg_step, begins, command_line, file_arg, files_at, law_position_read_back, no_args, parsed,
    path_row, path_row_col, short_options, value_of, with_files, with_line_number, with_value,
    ArgsView, Layout, ParsedView, SessionArgView,
};
use crate::disk::Disk;
use crate::laws::texts::law_trim_end_of;
use crate::text::{
    decimal, is_digit, last_index, lemma_decimal, lemma_last_index, number, trim_end_of,
};
use vstd::prelude::*;

verus! {

/// Whether an argument is neither an option nor a line number.
pub open spec fn names_file(a: Seq<char>) -> bool {
    a.len() == 0 || (a[0] != '-' && a[0] != '+')
}

/// Whether an argument looks like an option.
pub open spec fn dashed(a: Seq<char>) -> bool {
    a.len() > 0 && a[0] == '-'
}

/// Whether `--` is not among some arguments.
pub open spec fn without_end(s: Seq<Seq<char>>) -> bool {
    forall|i: int| 0 <= i < s.len() ==> #[trigger] s[i] != "--"@
}

/// Whether the last of some arguments could take up one that follows.
pub open spec fn open_ended(s: Seq<Seq<char>>) -> bool {
    s.len() > 0 && (s.last() == "--health"@ || s.last() == "--session"@)
}

/// What option names hold.
proof fn lemma_dashes(a: Seq<char>)
    ensures
        begins(a, "-"@) == dashed(a),
        begins(a, "+"@) == (a.len() > 0 && a[0] == '+'),
        begins(a, "--"@) == (a.len() > 1 && a[0] == '-' && a[1] == '-'),
        a == "+"@ <==> a.len() == 1 && a[0] == '+',
        a == "--"@ ==> a.len() == 2 && a[0] == '-' && a[1] == '-',
{
    reveal_strlit("-");
    reveal_strlit("--");
    reveal_strlit("+");
    if a.len() == 1 && a[0] == '+' {
        assert(a =~= "+"@);
    }
    if a.len() > 0 {
        let one = a.subrange(0, 1);
        assert(one[0] == a[0]);
        if a[0] == '-' {
            assert(one =~= "-"@);
        }
        if a[0] == '+' {
            assert(one =~= "+"@);
        }
    }
    if a.len() > 1 {
        let two = a.subrange(0, 2);
        assert(two[0] == a[0] && two[1] == a[1]);
        if a[0] == '-' && a[1] == '-' {
            assert(two =~= "--"@);
        }
    }
}

/// The names of options that have a meaning of their own start with a dash.
proof fn lemma_names(a: Seq<char>)
    requires
        !dashed(a),
    ensures
        a != "--version"@ && a != "--help"@ && a != "--strict"@ && a != "--dry-run"@,
        a != "--tutor"@ && a != "--no-session"@ && a != "--vsplit"@ && a != "--hsplit"@,
        a != "--health"@ && a != "--session"@ && a != "-g"@ && a != "--grammar"@ && a != "-c"@,
        a != "--config"@ && a != "--config-dir"@ && a != "--languages"@ && a != "--runtime-dir"@,
        a != "--log"@ && a != "-w"@ && a != "--working-dir"@ && a != "--session-dir"@,
        a != "--"@,
{
    reveal_names();
}

/// What the names of options are made up of.
proof fn reveal_names()
    ensures
        "--version"@.len() == 9 && "--version"@[0] == '-' && "--version"@[2] == 'v',
        "--help"@.len() == 6 && "--help"@[0] == '-',
        "--strict"@.len() == 8 && "--strict"@[0] == '-' && "--strict"@[2] == 's',
        "--dry-run"@.len() == 9 && "--dry-run"@[0] == '-' && "--dry-run"@[2] == 'd',
        "--tutor"@.len() == 7 && "--tutor"@[0] == '-',
        "--no-session"@.len() == 12 && "--no-session"@[0] == '-',
        "--vsplit"@.len() == 8 && "--vsplit"@[0] == '-' && "--vsplit"@[2] == 'v',
        "--hsplit"@.len() == 8 && "--hsplit"@[0] == '-' && "--hsplit"@[2] == 'h' && "--hsplit"@[3]
            == 's',
        "--health"@.len() == 8 && "--health"@[0] == '-' && "--health"@[2] == 'h' && "--health"@[3]
            == 'e',
        "--session"@.len() == 9 && "--session"@[0] == '-' && "--session"@[2] == 's',
        "-g"@.len() == 2 && "-g"@[0] == '-' && "-g"@[1] == 'g',
        "--grammar"@.len() == 9 && "--grammar"@[0] == '-' && "--grammar"@[2] == 'g',
        "-c"@.len() == 2 && "-c"@[0] == '-' && "-c"@[1] == 'c',
        "--config"@.len() == 8 && "--config"@[0] == '-' && "--config"@[2] == 'c',
        "--config-dir"@.len() == 12 && "--config-dir"@[0] == '-' && "--config-dir"@[2] == 'c',
        "--no-session"@[2] == 'n',
        "--languages"@.len() == 11 && "--languages"@[0] == '-',
        "--runtime-dir"@.len() == 13 && "--runtime-dir"@[0] == '-' && "--runtime-dir"@[2] == 'r',
        "--log"@.len() == 5 && "--log"@[0] == '-',
        "-w"@.len() == 2 && "-w"@[0] == '-' && "-w"@[1] == 'w',
        "--working-dir"@.len() == 13 && "--working-dir"@[0] == '-' && "--working-dir"@[2] == 'w',
        "--session-dir"@.len() == 13 && "--session-dir"@[0] == '-' && "--session-dir"@[2] == 's',
        "--"@.len() == 2 && "--"@[0] == '-' && "--"@[1] == '-',
{
    reveal_strlit("--version");
    reveal_strlit("--help");
    reveal_strlit("--strict");
    reveal_strlit("--dry-run");
    reveal_strlit("--tutor");
    reveal_strlit("--no-session");
    reveal_strlit("--vsplit");
    reveal_strlit("--hsplit");
    reveal_strlit("--health");
    reveal_strlit("--session");
    reveal_strlit("-g");
    reveal_strlit("--grammar");
    reveal_strlit("-c");
    reveal_strlit("--config");
    reveal_strlit("--config-dir");
    reveal_strlit("--languages");
    reveal_strlit("--runtime-dir");
    reveal_strlit("--log");
    reveal_strlit("-w");
    reveal_strlit("--working-dir");
    reveal_strlit("--session-dir");
    reveal_strlit("--");
}

// ── One argument ─────────────────────────────────────────────────────────
/// An argument that names a file adds the file, and changes nothing else.
pub proof fn law_file_step(v: ParsedView, rest: Seq<Seq<char>>, disk: Disk)
    requires
        rest.len() > 0,
        names_file(rest[0]) || (rest[0][0] == '+' && rest[0].len() > 1 && number(rest[0].skip(1))
            is None),
    ensures
        arg_step(v, rest, disk) matches Ok((w, n)) && {
            &&& n == 1
            &&& w.args == v.args
            &&& w.line_number == v.line_number
            &&& w.file_args == v.file_args.push(file_arg(rest[0], disk))
        },
{
    lemma_names(rest[0]);
    lemma_dashes(rest[0]);
}

/// `+N` asks for the `N`th line, `+` for the last one.
pub proof fn law_line_step(v: ParsedView, rest: Seq<Seq<char>>, disk: Disk)
    requires
        rest.len() > 0,
        rest[0].len() > 0,
        rest[0][0] == '+',
        rest[0].len() == 1 || number(rest[0].skip(1)) is Some,
    ensures
        arg_step(v, rest, disk) matches Ok((w, n)) && {
            &&& n == 1
            &&& w.args == v.args
            &&& w.file_args == v.file_args
            &&& rest[0].len() == 1 ==> w.line_number == usize::MAX
            &&& rest[0].len() > 1 ==> (number(rest[0].skip(1)) matches Some(m) && (m > 0
                ==> w.line_number == m - 1) && (m == 0 ==> w.line_number == 0))
        },
{
    lemma_names(rest[0]);
    lemma_dashes(rest[0]);
}

/// An option that stands alone sets what it stands for, and changes nothing
/// else.
pub proof fn law_lone_step(v: ParsedView, rest: Seq<Seq<char>>, disk: Disk)
    requires
        rest.len() > 0,
    ensures
        ({
            let a = rest[0];
            let r = arg_step(v, rest, disk);
            let args = v.args;
            &&& a == "--version"@ ==> r == Ok::<_, Seq<char>>(
                (ParsedView { args: ArgsView { display_version: true, ..args }, ..v }, 1nat),
            )
            &&& a == "--help"@ ==> r == Ok::<_, Seq<char>>(
                (ParsedView { args: ArgsView { display_help: true, ..args }, ..v }, 1nat),
            )
            &&& a == "--strict"@ ==> r == Ok::<_, Seq<char>>(
                (ParsedView { args: ArgsView { strict: true, ..args }, ..v }, 1nat),
            )
            &&& a == "--dry-run"@ ==> r == Ok::<_, Seq<char>>(
                (ParsedView { args: ArgsView { dry_run: true, ..args }, ..v }, 1nat),
            )
            &&& a == "--tutor"@ ==> r == Ok::<_, Seq<char>>(
                (ParsedView { args: ArgsView { load_tutor: true, ..args }, ..v }, 1nat),
            )
            &&& a == "--no-session"@ ==> r == Ok::<_, Seq<char>>(
                (
                    ParsedView { args: ArgsView { session: SessionArgView::Disabled, ..args }, ..v },
                    1nat,
                ),
            )
            &&& a == "--vsplit"@ && args.split is None ==> r == Ok::<_, Seq<char>>(
                (ParsedView { args: ArgsView { split: Some(Layout::Vertical), ..args }, ..v }, 1nat),
            )
            &&& a == "--hsplit"@ && args.split is None ==> r == Ok::<_, Seq<char>>(
                (
                    ParsedView { args: ArgsView { split: Some(Layout::Horizontal), ..args }, ..v },
                    1nat,
                ),
            )
            &&& (a == "--vsplit"@ || a == "--hsplit"@) && args.split is Some ==> r is Err
        }),
{
    reveal_names();
}

/// `--health` and `--session` take the next argument as their value, unless it
/// looks like an option.
pub proof fn law_optional_value_step(v: ParsedView, rest: Seq<Seq<char>>, disk: Disk)
    requires
        rest.len() > 0,
        rest[0] == "--health"@ || rest[0] == "--session"@,
    ensures
        ({
            let value = if rest.len() > 1 && !dashed(rest[1]) {
                Some(rest[1])
            } else {
                None
            };
            let n = if value is Some {
                2nat
            } else {
                1
            };
            &&& rest[0] == "--health"@ ==> arg_step(v, rest, disk) == Ok::<_, Seq<char>>(
                (
                    ParsedView { args: ArgsView { health: true, health_arg: value, ..v.args }, ..v },
                    n,
                ),
            )
            &&& rest[0] == "--session"@ ==> arg_step(v, rest, disk) == Ok::<_, Seq<char>>(
                (
                    ParsedView {
                        args: ArgsView { session: SessionArgView::Enabled(value), ..v.args },
                        ..v
                    },
                    n,
                ),
            )
        }),
{
    reveal_names();
    if rest.len() > 1 {
        lemma_dashes(rest[1]);
    }
}

/// An option with a value takes the next argument, whatever it looks like, and
/// sets what it stands for. Files that are to be read have to be there, and
/// what should be a directory must be nothing else.
pub proof fn law_valued_step(v: ParsedView, rest: Seq<Seq<char>>, disk: Disk)
    requires
        rest.len() > 1,
    ensures
        ({
            let a = rest[0];
            let t = rest[1];
            let r = arg_step(v, rest, disk);
            let args = v.args;
            &&& (a == "-g"@ || a == "--grammar"@) ==> {
                &&& t == "fetch"@ ==> r == Ok::<_, Seq<char>>(
                    (ParsedView { args: ArgsView { fetch_grammars: true, ..args }, ..v }, 2nat),
                )
                &&& t == "build"@ ==> r == Ok::<_, Seq<char>>(
                    (ParsedView { args: ArgsView { build_grammars: true, ..args }, ..v }, 2nat),
                )
                &&& t != "fetch"@ && t != "build"@ ==> r is Err
            }
            &&& (a == "-c"@ || a == "--config"@) ==> {
                &&& disk.file_at(t) ==> r == Ok::<_, Seq<char>>(
                    (ParsedView { args: ArgsView { config_file: Some(t), ..args }, ..v }, 2nat),
                )
                &&& !disk.file_at(t) ==> r == Err::<(ParsedView, nat), _>(
                    "config file does not exist: "@ + t,
                )
            }
            &&& a == "--languages"@ ==> {
                &&& disk.file_at(t) ==> r == Ok::<_, Seq<char>>(
                    (ParsedView { args: ArgsView { languages_file: Some(t), ..args }, ..v }, 2nat),
                )
                &&& !disk.file_at(t) ==> r == Err::<(ParsedView, nat), _>(
                    "languages file does not exist: "@ + t,
                )
            }
            &&& a == "--config-dir"@ ==> {
                &&& !disk.present(t) || disk.dir_at(t) ==> r == Ok::<_, Seq<char>>(
                    (ParsedView { args: ArgsView { config_dir: Some(t), ..args }, ..v }, 2nat),
                )
                &&& disk.present(t) && !disk.dir_at(t) ==> r is Err
            }
            &&& a == "--runtime-dir"@ ==> {
                &&& !disk.present(t) || disk.dir_at(t) ==> r == Ok::<_, Seq<char>>(
                    (ParsedView { args: ArgsView { runtime_dir: Some(t), ..args }, ..v }, 2nat),
                )
                &&& disk.present(t) && !disk.dir_at(t) ==> r is Err
            }
            &&& a == "--log"@ ==> r == Ok::<_, Seq<char>>(
                (ParsedView { args: ArgsView { log_file: Some(t), ..args }, ..v }, 2nat),
            )
            &&& a == "--session-dir"@ ==> r == Ok::<_, Seq<char>>(
                (ParsedView { args: ArgsView { session_dir: Some(t), ..args }, ..v }, 2nat),
            )
            &&& (a == "-w"@ || a == "--working-dir"@) ==> {
                &&& disk.dir_at(t) ==> r == Ok::<_, Seq<char>>(
                    (ParsedView { args: ArgsView { working_directory: Some(t), ..args }, ..v }, 2nat),
                )
                &&& !disk.dir_at(t) ==> r is Err
            }
        }),
{
    reveal_names();
    reveal_strlit("fetch");
    reveal_strlit("build");
    assert("fetch"@[0] != "build"@[0]);
}

/// Whether an option needs a value.
pub open spec fn needs_value(a: Seq<char>) -> bool {
    ||| a == "-g"@ || a == "--grammar"@ || a == "-c"@ || a == "--config"@
    ||| a == "--config-dir"@ || a == "--languages"@ || a == "--runtime-dir"@
    ||| a == "--log"@ || a == "-w"@ || a == "--working-dir"@ || a == "--session-dir"@
}

/// An option without the value that it needs is refused.
pub proof fn law_missing_value(v: ParsedView, a: Seq<char>, disk: Disk)
    requires
        needs_value(a),
    ensures
        arg_step(v, seq![a], disk) is Err,
{
    reveal_names();
}

/// Whether an option is known by its whole name.
pub open spec fn known(a: Seq<char>) -> bool {
    ||| needs_value(a)
    ||| a == "--health"@ || a == "--session"@ || a == "--vsplit"@ || a == "--hsplit"@
    ||| a == "--version"@ || a == "--help"@ || a == "--strict"@ || a == "--dry-run"@
    ||| a == "--tutor"@ || a == "--no-session"@
}

/// Letters behind one dash are options each: they ask for more messages, the
/// version and help, and other letters are refused. So are long options that
/// are not known.
pub proof fn law_letters_step(v: ParsedView, rest: Seq<Seq<char>>, disk: Disk, i: int)
    requires
        rest.len() > 0,
        dashed(rest[0]),
        !known(rest[0]),
    ensures
        ({
            let a = rest[0];
            let r = arg_step(v, rest, disk);
            &&& a.len() > 1 && a[1] == '-' ==> r == Err::<(ParsedView, nat), _>(
                "unexpected double dash argument: "@ + a,
            )
            &&& !(a.len() > 1 && a[1] == '-') && 1 <= i < a.len() && a[i] != 'v' && a[i] != 'V'
                && a[i] != 'h' ==> r is Err
            &&& !(a.len() > 1 && a[1] == '-') && (forall|j: int|
                1 <= j < a.len() ==> #[trigger] a[j] == 'v' || a[j] == 'V' || a[j] == 'h') ==> (r
                matches Ok((w, n)) && {
                &&& n == 1
                &&& w == (ParsedView {
                    args: ArgsView {
                        verbosity: w.args.verbosity,
                        display_version: w.args.display_version,
                        display_help: w.args.display_help,
                        ..v.args
                    },
                    ..v
                })
                &&& w.args.verbosity == v.args.verbosity + a.skip(1).filter(|c: char| c == 'v').len()
                &&& w.args.display_version == (v.args.display_version || a.skip(1).contains('V'))
                &&& w.args.display_help == (v.args.display_help || a.skip(1).contains('h'))
            })
        }),
{
    let a = rest[0];
    lemma_dashes(a);
    let s = a.skip(1);
    assert forall|j: int| 0 <= j < s.len() implies #[trigger] s[j] == a[j + 1] by {}
    if (forall|j: int| 1 <= j < a.len() ==> #[trigger] a[j] == 'v' || a[j] == 'V' || a[j] == 'h') {
        assert forall|j: int| 0 <= j < s.len() implies #[trigger] s[j] == 'v' || s[j] == 'V' || s[j]
            == 'h' by {
            assert(s[j] == a[j + 1]);
        }
        lemma_letters(v.args, s);
    }
    if 1 <= i < a.len() && a[i] != 'v' && a[i] != 'V' && a[i] != 'h' {
        assert(s[i - 1] == a[i]);
        lemma_bad_letter(v.args, s, i - 1);
    }
}

proof fn lemma_bad_letter(v: ArgsView, s: Seq<char>, i: int)
    requires
        0 <= i < s.len(),
        s[i] != 'v' && s[i] != 'V' && s[i] != 'h',
    ensures
        short_options(v, s) is Err,
    decreases s.len(),
{
    if i > 0 {
        assert(s.skip(1)[i - 1] == s[i]);
        lemma_bad_letter(ArgsView { verbosity: v.verbosity + 1, ..v }, s.skip(1), i - 1);
        lemma_bad_letter(ArgsView { display_version: true, ..v }, s.skip(1), i - 1);
        lemma_bad_letter(ArgsView { display_help: true, ..v }, s.skip(1), i - 1);
    }
}

proof fn lemma_letters(v: ArgsView, s: Seq<char>)
    requires
        forall|j: int| 0 <= j < s.len() ==> #[trigger] s[j] == 'v' || s[j] == 'V' || s[j] == 'h',
    ensures
        short_options(v, s) matches Ok(w) && {
            &&& w == (ArgsView {
                verbosity: w.verbosity,
                display_version: w.display_version,
                display_help: w.display_help,
                ..v
            })
            &&& w.verbosity == v.verbosity + s.filter(|c: char| c == 'v').len()
            &&& w.display_version == (v.display_version || s.contains('V'))
            &&& w.display_help == (v.display_help || s.contains('h'))
        },
    decreases s.len(),
{
    let is_v = |c: char| c == 'v';
    if s.len() == 0 {
        reveal(Seq::filter);
        assert(s.filter(is_v).len() == 0);
    } else {
        let (c, rest) = (s[0], s.skip(1));
        assert(c == 'v' || c == 'V' || c == 'h');
        assert forall|j: int| 0 <= j < rest.len() implies #[trigger] rest[j] == 'v' || rest[j] == 'V'
            || rest[j] == 'h' by {
            assert(rest[j] == s[j + 1]);
        }
        let next = if c == 'v' {
            ArgsView { verbosity: v.verbosity + 1, ..v }
        } else if c == 'V' {
            ArgsView { display_version: true, ..v }
        } else {
            ArgsView { display_help: true, ..v }
        };
        lemma_letters(next, rest);
        assert(s =~= seq![c] + rest);
        Seq::filter_distributes_over_add(seq![c], rest, is_v);
        assert(seq![c].filter(is_v).len() == if c == 'v' {
            1int
        } else {
            0
        }) by {
            reveal(Seq::filter);
            assert(seq![c].drop_last() =~= Seq::empty());
            assert(Seq::<char>::empty().filter(is_v) =~= Seq::empty());
            assert(seq![c].last() == c);
        }
        lemma_contains(s, 'V');
        lemma_contains(s, 'h');
    }
}

proof fn lemma_contains(s: Seq<char>, c: char)
    requires
        s.len() > 0,
    ensures
        s.contains(c) == (s[0] == c || s.skip(1).contains(c)),
{
    if s.contains(c) {
        let i = choose|i: int| 0 <= i < s.len() && s[i] == c;
        if i > 0 {
            assert(s.skip(1)[i - 1] == c);
        }
    }
    if s.skip(1).contains(c) {
        let i = choose|i: int| 0 <= i < s.skip(1).len() && s.skip(1)[i] == c;
        assert(s[i + 1] == c);
    }
}

// ── The whole line ───────────────────────────────────────────────────────
/// Arguments that make sense by themselves do so whatever follows: the rest is
/// read on from where they end.
pub proof fn law_read_on(v: ParsedView, front: Seq<Seq<char>>, back: Seq<Seq<char>>, disk: Disk)
    requires
        parsed(v, front, disk) is Ok,
        without_end(front),
        open_ended(front) ==> back.len() == 0 || dashed(back[0]),
    ensures
        parsed(v, front + back, disk) == parsed(parsed(v, front, disk)->Ok_0, back, disk),
    decreases front.len(),
{
    let all = front + back;
    if front.len() == 0 {
        assert(all =~= back);
    } else {
        assert(all[0] == front[0]);
        assert(front[0] != "--"@);
        if front.len() == 1 {
            assert(front.last() == front[0]);
            if back.len() > 0 {
                assert(all[1] == back[0]);
                lemma_dashes(back[0]);
            }
        } else {
            assert(all[1] == front[1]);
        }
        lemma_same_step(v, front, all, disk);
        let (w, n) = arg_step(v, front, disk)->Ok_0;
        let m = if n == 2 && front.len() >= 2 {
            2int
        } else {
            1
        };
        let f = front.skip(m);
        assert(all.skip(m) =~= f + back);
        assert forall|i: int| 0 <= i < f.len() implies #[trigger] f[i] != "--"@ by {
            assert(f[i] == front[i + m]);
        }
        if f.len() > 0 {
            assert(f.last() == front.last());
        }
        law_read_on(w, f, back, disk);
    }
}

/// What follows an argument and its value makes no difference to it.
proof fn lemma_same_step(v: ParsedView, a: Seq<Seq<char>>, b: Seq<Seq<char>>, disk: Disk)
    requires
        0 < a.len() <= b.len(),
        a[0] == b[0],
        arg_step(v, a, disk) is Ok,
        a.len() > 1 ==> a[1] == b[1],
        a.len() == 1 && b.len() > 1 && (a[0] == "--health"@ || a[0] == "--session"@) ==> dashed(b[1]),
    ensures
        arg_step(v, b, disk) == arg_step(v, a, disk),
        a.len() == 1 ==> arg_step(v, a, disk)->Ok_0.1 == 1,
{
    reveal_names();
    if b.len() > 1 {
        lemma_dashes(b[1]);
    }
    lemma_dashes(a[0]);
    if a.len() == 1 && needs_value(a[0]) {
        law_missing_value(v, a[0], disk);
        assert(a =~= seq![a[0]]);
    }
}

/// A file at the end of a command line is one more file, and changes nothing
/// else of what the command line says.
pub proof fn law_file_at_end(v: ParsedView, front: Seq<Seq<char>>, a: Seq<char>, disk: Disk)
    requires
        parsed(v, front, disk) is Ok,
        without_end(front),
        !open_ended(front),
        names_file(a),
    ensures
        parsed(v, front.push(a), disk) matches Ok(w) && {
            let u = parsed(v, front, disk)->Ok_0;
            &&& w.args == u.args
            &&& w.line_number == u.line_number
            &&& w.file_args == u.file_args.push(file_arg(a, disk))
        },
{
    let u = parsed(v, front, disk)->Ok_0;
    assert(front.push(a) =~= front + seq![a]);
    law_read_on(v, front, seq![a], disk);
    law_file_step(u, seq![a], disk);
    lemma_names(a);
    assert(seq![a].skip(1) =~= Seq::empty());
    reveal_with_fuel(parsed, 2);
}

/// Behind `--` every argument is a file.
pub proof fn law_only_files_follow(v: ParsedView, s: Seq<Seq<char>>, disk: Disk)
    ensures
        parsed(v, seq!["--"@] + s, disk) matches Ok(w) && {
            &&& w.args == v.args
            &&& w.line_number == v.line_number
            &&& w.file_args == v.file_args + Seq::new(s.len(), |i: int| file_arg(s[i], disk))
        },
{
    let all = seq!["--"@] + s;
    assert(all[0] == "--"@);
    assert(all.skip(1) =~= s);
    lemma_with_files(v, s, disk);
}

proof fn lemma_with_files(v: ParsedView, s: Seq<Seq<char>>, disk: Disk)
    ensures
        ({
            let w = with_files(v, s, disk);
            &&& w.args == v.args
            &&& w.line_number == v.line_number
            &&& w.file_args == v.file_args + Seq::new(s.len(), |i: int| file_arg(s[i], disk))
        }),
    decreases s.len(),
{
    let files = Seq::new(s.len(), |i: int| file_arg(s[i], disk));
    if s.len() == 0 {
        assert(v.file_args + files =~= v.file_args);
    } else {
        let d = s.drop_last();
        lemma_with_files(v, d, disk);
        let before = Seq::new(d.len(), |i: int| file_arg(d[i], disk));
        assert((v.file_args + before).push(file_arg(s.last(), disk)) =~= v.file_args + files);
    }
}

/// Whether two results differ at most in what some arguments could set.
pub open spec fn kept(v: ParsedView, w: ParsedView, s: Seq<Seq<char>>) -> bool {
    let (a, b) = (v.args, w.args);
    &&& a.display_help ==> b.display_help
    &&& a.display_version ==> b.display_version
    &&& a.health ==> b.health
    &&& a.load_tutor ==> b.load_tutor
    &&& a.fetch_grammars ==> b.fetch_grammars
    &&& a.build_grammars ==> b.build_grammars
    &&& a.strict ==> b.strict
    &&& a.dry_run ==> b.dry_run
    &&& a.split is Some ==> b.split == a.split
    &&& a.verbosity <= b.verbosity
    &&& a.files == b.files
    &&& v.file_args.is_prefix_of(w.file_args)
    &&& !s.contains("--health"@) ==> b.health == a.health && b.health_arg == a.health_arg
    &&& !s.contains("--tutor"@) ==> b.load_tutor == a.load_tutor
    &&& !s.contains("--strict"@) ==> b.strict == a.strict
    &&& !s.contains("--dry-run"@) ==> b.dry_run == a.dry_run
    &&& !s.contains("--vsplit"@) && !s.contains("--hsplit"@) ==> b.split == a.split
    &&& !s.contains("-g"@) && !s.contains("--grammar"@) ==> b.fetch_grammars == a.fetch_grammars
        && b.build_grammars == a.build_grammars
    &&& !s.contains("--log"@) ==> b.log_file == a.log_file
    &&& !s.contains("-c"@) && !s.contains("--config"@) ==> b.config_file == a.config_file
    &&& !s.contains("--config-dir"@) ==> b.config_dir == a.config_dir
    &&& !s.contains("--languages"@) ==> b.languages_file == a.languages_file
    &&& !s.contains("--runtime-dir"@) ==> b.runtime_dir == a.runtime_dir
    &&& !s.contains("--session"@) && !s.contains("--no-session"@) ==> b.session == a.session
    &&& !s.contains("--session-dir"@) ==> b.session_dir == a.session_dir
    &&& !s.contains("-w"@) && !s.contains("--working-dir"@) ==> b.working_directory
        == a.working_directory
    &&& (forall|i: int| 0 <= i < s.len() ==> !(#[trigger] s[i].len() > 0 && s[i][0] == '+'))
        ==> w.line_number == v.line_number
    &&& (forall|i: int| 0 <= i < s.len() ==> !dashed(#[trigger] s[i])) ==> b == a
}

/// What an argument sets, later arguments keep, unless they are options for
/// the same thing: files and other options do not take it back.
pub proof fn law_options_kept(v: ParsedView, s: Seq<Seq<char>>, disk: Disk)
    requires
        parsed(v, s, disk) is Ok,
    ensures
        kept(v, parsed(v, s, disk)->Ok_0, s),
    decreases s.len(),
{
    if s.len() > 0 {
        if s[0] == "--"@ {
            lemma_with_files(v, s.skip(1), disk);
        } else {
            let (w, n) = arg_step(v, s, disk)->Ok_0;
            lemma_step_kept(v, s, disk);
            let m = if n == 2 && s.len() >= 2 {
                2int
            } else {
                1
            };
            let rest = s.skip(m);
            law_options_kept(w, rest, disk);
            assert(s.contains(s[0]));
            assert forall|x: Seq<char>| #[trigger] rest.contains(x) implies s.contains(x) by {
                let i = choose|i: int| 0 <= i < rest.len() && rest[i] == x;
                assert(s[i + m] == x);
            }
            assert forall|i: int| 0 <= i < rest.len() implies #[trigger] rest[i] == s[i + m] by {}
        }
    }
}

proof fn lemma_step_kept(v: ParsedView, s: Seq<Seq<char>>, disk: Disk)
    requires
        s.len() > 0,
        s[0] != "--"@,
        arg_step(v, s, disk) is Ok,
    ensures
        kept(v, arg_step(v, s, disk)->Ok_0.0, seq![s[0]]),
{
    let a = s[0];
    let one = seq![a];
    let w = arg_step(v, s, disk)->Ok_0.0;
    assert(one[0] == a);
    assert(one.contains(a));
    reveal_names();
    lemma_dashes(a);
    if !known(a) && dashed(a) && !(a.len() > 1 && a[1] == '-') {
        lemma_short_kept(v.args, a.skip(1));
    }
    if !dashed(a) {
        lemma_names(a);
    }
}

proof fn lemma_short_kept(v: ArgsView, s: Seq<char>)
    requires
        short_options(v, s) is Ok,
    ensures
        ({
            let w = short_options(v, s)->Ok_0;
            &&& w == (ArgsView {
                verbosity: w.verbosity,
                display_version: w.display_version,
                display_help: w.display_help,
                ..v
            })
            &&& v.verbosity <= w.verbosity
            &&& v.display_version ==> w.display_version
            &&& v.display_help ==> w.display_help
        }),
    decreases s.len(),
{
    if s.len() > 0 {
        if s[0] == 'v' {
            lemma_short_kept(ArgsView { verbosity: v.verbosity + 1, ..v }, s.skip(1));
        } else if s[0] == 'V' {
            lemma_short_kept(ArgsView { display_version: true, ..v }, s.skip(1));
        } else if s[0] == 'h' {
            lemma_short_kept(ArgsView { display_help: true, ..v }, s.skip(1));
        }
    }
}

/// An option without a value that stands anywhere among the options counts:
/// whatever stands before it and behind it, files included.
pub proof fn law_option_counts(
    program: Seq<char>,
    front: Seq<Seq<char>>,
    a: Seq<char>,
    back: Seq<Seq<char>>,
    disk: Disk,
)
    requires
        command_line(seq![program] + front, disk) is Ok,
        without_end(front),
        command_line(seq![program] + (front + (seq![a] + back)), disk) is Ok,
        dashed(a),
    ensures
        ({
            let w = command_line(seq![program] + (front + (seq![a] + back)), disk)->Ok_0;
            &&& a == "--vsplit"@ ==> w.args.split == Some(Layout::Vertical)
            &&& a == "--hsplit"@ ==> w.args.split == Some(Layout::Horizontal)
            &&& a == "--strict"@ ==> w.args.strict
            &&& a == "--dry-run"@ ==> w.args.dry_run
            &&& a == "--tutor"@ ==> w.args.load_tutor
            &&& a == "--help"@ ==> w.args.display_help
            &&& a == "--version"@ ==> w.args.display_version
            &&& a == "--health"@ ==> w.args.health
            &&& a == "--session"@ && !back.contains("--session"@) && !back.contains("--no-session"@)
                ==> w.args.session is Enabled
            &&& a == "--no-session"@ && !back.contains("--session"@) ==> w.args.session is Disabled
        }),
{
    let start = ParsedView {
        args: no_args(),
        line_number: 0,
        file_args: Seq::empty(),
    };
    let tail = seq![a] + back;
    assert((seq![program] + front).skip(1) =~= front);
    assert((seq![program] + (front + tail)).skip(1) =~= front + tail);
    assert(tail[0] == a);
    law_read_on(start, front, tail, disk);
    let u = parsed(start, front, disk)->Ok_0;
    reveal_names();
    if a != "--"@ {
        let (x, n) = arg_step(u, tail, disk)->Ok_0;
        let m = if n == 2 && tail.len() >= 2 {
            2int
        } else {
            1
        };
        law_lone_step(u, tail, disk);
        if a == "--health"@ || a == "--session"@ {
            law_optional_value_step(u, tail, disk);
        }
        let rest = tail.skip(m);
        law_options_kept(x, rest, disk);
        assert forall|y: Seq<char>| #[trigger] rest.contains(y) implies back.contains(y) by {
            let i = choose|i: int| 0 <= i < rest.len() && rest[i] == y;
            assert(tail[i + m] == back[i + m - 1]);
        }
        if a == "--no-session"@ && !back.contains("--session"@) {
            lemma_disabled(x, rest, disk);
        }
    }
}

/// Sessions that are switched off stay so, unless they are switched on.
proof fn lemma_disabled(v: ParsedView, s: Seq<Seq<char>>, disk: Disk)
    requires
        v.args.session is Disabled,
        parsed(v, s, disk) is Ok,
        !s.contains("--session"@),
    ensures
        parsed(v, s, disk)->Ok_0.args.session is Disabled,
    decreases s.len(),
{
    if s.len() > 0 {
        assert(s.contains(s[0]));
        if s[0] == "--"@ {
            lemma_with_files(v, s.skip(1), disk);
        } else {
            let (w, n) = arg_step(v, s, disk)->Ok_0;
            lemma_step_kept(v, s, disk);
            law_lone_step(v, s, disk);
            let one = seq![s[0]];
            assert(one[0] == s[0]);
            let m = if n == 2 && s.len() >= 2 {
                2int
            } else {
                1
            };
            let rest = s.skip(m);
            if rest.contains("--session"@) {
                let i = choose|i: int| 0 <= i < rest.len() && rest[i] == "--session"@;
                assert(s[i + m] == "--session"@);
            }
            lemma_disabled(w, rest, disk);
        }
    }
}

/// The value of an option counts, wherever the option stands among the others,
/// unless a later option for the same thing sets another.
pub proof fn law_value_counts(
    program: Seq<char>,
    front: Seq<Seq<char>>,
    a: Seq<char>,
    t: Seq<char>,
    back: Seq<Seq<char>>,
    disk: Disk,
)
    requires
        command_line(seq![program] + front, disk) is Ok,
        without_end(front),
        command_line(seq![program] + (front + (seq![a, t] + back)), disk) is Ok,
        needs_value(a),
    ensures
        ({
            let w = command_line(seq![program] + (front + (seq![a, t] + back)), disk)->Ok_0;
            &&& a == "--log"@ && !back.contains("--log"@) ==> w.args.log_file == Some(t)
            &&& a == "--config-dir"@ && !back.contains("--config-dir"@) ==> w.args.config_dir
                == Some(t)
            &&& a == "--languages"@ && !back.contains("--languages"@) ==> w.args.languages_file
                == Some(t)
            &&& a == "--runtime-dir"@ && !back.contains("--runtime-dir"@) ==> w.args.runtime_dir
                == Some(t)
            &&& a == "--session-dir"@ && !back.contains("--session-dir"@) ==> w.args.session_dir
                == Some(t)
            &&& (a == "-c"@ || a == "--config"@) && !back.contains("-c"@) && !back.contains(
                "--config"@,
            ) ==> w.args.config_file == Some(t)
            &&& (a == "-w"@ || a == "--working-dir"@) && !back.contains("-w"@) && !back.contains(
                "--working-dir"@,
            ) ==> w.args.working_directory == Some(t)
            &&& (a == "-g"@ || a == "--grammar"@) && t == "fetch"@ ==> w.args.fetch_grammars
            &&& (a == "-g"@ || a == "--grammar"@) && t == "build"@ ==> w.args.build_grammars
        }),
{
    let start = ParsedView {
        args: no_args(),
        line_number: 0,
        file_args: Seq::empty(),
    };
    let tail = seq![a, t] + back;
    assert((seq![program] + front).skip(1) =~= front);
    assert((seq![program] + (front + tail)).skip(1) =~= front + tail);
    assert(tail[0] == a && tail[1] == t);
    reveal_names();
    law_read_on(start, front, tail, disk);
    let u = parsed(start, front, disk)->Ok_0;
    law_valued_step(u, tail, disk);
    let x = arg_step(u, tail, disk)->Ok_0.0;
    assert(tail.skip(2) =~= back);
    law_options_kept(x, back, disk);
}

/// An empty command line says nothing: no option is set, there is no file, and
/// the environment decides on the session.
pub proof fn law_empty_line(program: Seq<char>, disk: Disk)
    ensures
        command_line(seq![program], disk) matches Ok(w) && {
            let a = w.args;
            &&& !a.display_help && !a.display_version && !a.health && !a.load_tutor
            &&& !a.fetch_grammars && !a.build_grammars && !a.strict && !a.dry_run
            &&& a.health_arg is None && a.split is None && a.verbosity == 0
            &&& a.log_file is None && a.config_file is None && a.config_dir is None
            &&& a.languages_file is None && a.runtime_dir is None && a.session_dir is None
            &&& a.session is Unspecified && a.files.len() == 0 && a.working_directory is None
            &&& w.line_number == 0 && w.file_args.len() == 0
        },
{
    assert(seq![program].skip(1).len() == 0);
}

// ── Files and positions ──────────────────────────────────────────────────
/// What is on disk under the whole argument is that file. Else a row, or a row
/// and a column, behind the path are the position, counted from 1; colons at
/// the end do not count.
pub proof fn law_file_arg(p: Seq<char>, row: nat, col: nat, disk: Disk)
    requires
        row <= usize::MAX,
        col <= usize::MAX,
    ensures
        ({
            let with_row = p.push(':') + decimal(row);
            let with_both = with_row.push(':') + decimal(col);
            let r = if row > 0 {
                (row - 1) as nat
            } else {
                0
            };
            let c = if col > 0 {
                (col - 1) as nat
            } else {
                0
            };
            &&& disk.present(p) ==> file_arg(p, disk) == (p, 0nat, 0nat)
            &&& disk.present(with_both) ==> file_arg(with_both, disk) == (with_both, 0nat, 0nat)
            &&& !disk.present(with_both) ==> file_arg(with_both, disk) == (p, r, c)
            &&& !disk.present(with_row) && !p.contains(':') ==> file_arg(with_row, disk) == (
                p,
                r,
                0nat,
            )
            &&& !p.contains(':') ==> file_arg(p, disk) == (p, 0nat, 0nat)
        }),
{
    law_position_read_back(p, row, col);
    let with_row = p.push(':') + decimal(row);
    let with_both = p.push(':') + decimal(row).push(':') + decimal(col);
    assert(with_both =~= with_row.push(':') + decimal(col));
    if !p.contains(':') {
        lemma_decimal(row);
        lemma_no_colon(p);
        let t = trim_end_of(with_row, ':');
        assert(with_row.last() == decimal(row).last());
        assert(is_digit(decimal(row)[decimal(row).len() - 1]));
        assert(t == with_row);
        lemma_last_index(with_row, ':');
        let k = last_index(with_row, ':');
        assert(with_row[p.len() as int] == ':');
        if k > p.len() {
            assert(with_row[k] == decimal(row)[k - p.len() - 1]);
            assert(is_digit(decimal(row)[k - p.len() - 1]));
        }
        assert(k == p.len());
        assert(with_row.take(k) =~= p);
        if p.len() > 0 {
            assert(p.contains(p.last()));
        }
        assert(trim_end_of(p, ':') == p);
        lemma_none_before(p);
    }
}

proof fn lemma_no_colon(p: Seq<char>)
    requires
        !p.contains(':'),
    ensures
        last_index(p, ':') < 0,
{
    lemma_last_index(p, ':');
    if last_index(p, ':') >= 0 {
        assert(p.contains(p[last_index(p, ':')]));
    }
}

proof fn lemma_none_before(p: Seq<char>)
    requires
        !p.contains(':'),
        trim_end_of(p, ':') == p,
    ensures
        path_row_col(p) is None,
        path_row(p) is None,
{
    lemma_no_colon(p);
}

/// Files that are all different come in the order in which they were given,
/// each with its position; `+N` sets the row of the first one.
pub proof fn law_files_in_order(
    resolved: Seq<Seq<char>>,
    placed: Seq<(Seq<char>, nat, nat)>,
    line: nat,
    i: int,
)
    requires
        resolved.len() == placed.len(),
        forall|j: int, k: int|
            0 <= j < k < resolved.len() ==> #[trigger] resolved[j] != #[trigger] resolved[k],
        0 <= i < resolved.len(),
        forall|j: int|
            0 <= j < placed.len() ==> (#[trigger] placed[j]).1 <= usize::MAX && placed[j].2
                <= usize::MAX,
        line <= usize::MAX,
    ensures
        ({
            let s = with_line_number(files_at(resolved, placed), line);
            &&& s.len() == resolved.len()
            &&& s[i].0 == resolved[i]
            &&& s[i].1.len() == 1
            &&& s[i].1[0].1 == placed[i].2
            &&& i == 0 && line > 0 ==> s[i].1[0].0 == line
            &&& i > 0 || line == 0 ==> s[i].1[0].0 == placed[i].1
        }),
{
    lemma_files_at(resolved, placed);
}

proof fn lemma_files_at(resolved: Seq<Seq<char>>, placed: Seq<(Seq<char>, nat, nat)>)
    requires
        resolved.len() == placed.len(),
        forall|j: int, k: int|
            0 <= j < k < resolved.len() ==> #[trigger] resolved[j] != #[trigger] resolved[k],
    ensures
        files_at(resolved, placed) == Seq::new(
            resolved.len(),
            |i: int| (resolved[i], seq![(placed[i].1 as usize, placed[i].2 as usize)]),
        ),
    decreases resolved.len(),
{
    let all = Seq::new(
        resolved.len(),
        |i: int| (resolved[i], seq![(placed[i].1 as usize, placed[i].2 as usize)]),
    );
    if resolved.len() == 0 {
        assert(files_at(resolved, placed) =~= all);
    } else {
        let (r, p) = (resolved.drop_last(), placed.drop_last());
        assert forall|j: int, k: int| 0 <= j < k < r.len() implies #[trigger] r[j]
            != #[trigger] r[k] by {
            assert(r[j] == resolved[j] && r[k] == resolved[k]);
        }
        lemma_files_at(r, p);
        let before = files_at(r, p);
        let last = resolved.last();
        assert forall|j: int| 0 <= j < before.len() implies (#[trigger] before[j]).0 != last by {
            assert(before[j].0 == resolved[j]);
            assert(resolved[j] != resolved[resolved.len() - 1]);
        }
        lemma_new_key(before, last, seq![(placed.last().1 as usize, placed.last().2 as usize)]);
        assert(files_at(resolved, placed) =~= all);
    }
}

proof fn lemma_new_key(
    s: Seq<(Seq<char>, Seq<(usize, usize)>)>,
    k: Seq<char>,
    v: Seq<(usize, usize)>,
)
    requires
        forall|j: int| 0 <= j < s.len() ==> (#[trigger] s[j]).0 != k,
    ensures
        value_of(s, k) is None,
        with_value(s, k, v) == s.push((k, v)),
    decreases s.len(),
{
    if s.len() > 0 {
        let rest = s.skip(1);
        assert forall|j: int| 0 <= j < rest.len() implies (#[trigger] rest[j]).0 != k by {
            assert(rest[j] == s[j + 1]);
        }
        assert(s[0].0 != k);
        lemma_new_key(rest, k, v);
        assert(seq![s[0]] + rest.push((k, v)) =~= s.push((k, v)));
    } else {
        assert(with_value(s, k, v) =~= s.push((k, v)));
    }
}

/// Colons behind a position do not count.
pub proof fn law_trailing_colons(p: Seq<char>, row: nat, col: nat, n: nat, disk: Disk)
    requires
        row <= usize::MAX,
        col <= usize::MAX,
    ensures
        ({
            let s = p.push(':') + decimal(row).push(':') + decimal(col);
            let t = s + Seq::new(n, |i: int| ':');
            !disk.present(s) && !disk.present(t) ==> file_arg(t, disk) == file_arg(s, disk)
        }),
{
    let s = p.push(':') + decimal(row).push(':') + decimal(col);
    let t = s + Seq::new(n, |i: int| ':');
    law_position_read_back(p, row, col);
    lemma_decimal(col);
    assert(s.last() == decimal(col)[decimal(col).len() - 1]);
    assert(is_digit(decimal(col)[decimal(col).len() - 1]));
    law_trim_end_of(s, ':', n);
    law_trim_end_of(s, ':', 0);
    assert(s + Seq::new(0, |i: int| ':') =~= s);
}

} // verus!
