//! What comes of layers of settings: which layer decides on what.
use crate::config::{
    first_unknown, is_field, layer_of, layers_of, lemma_first_unknown, lemma_unknown_before_keys,
    loaded_config, merged_layers, only_fields, raw_of, user_layers, ConfigView, RawView,
};
use crate::document::toml_document;
use crate::lang_config::{all_lang_layers, lang_layer, lang_layers, merged_onto};
use crate::laws::texts::{law_text_order, precedes};
use crate::layers::{error_text, files_in, ConfigFile, ConfigLoadError, ErrorView, FileText};
use crate::path::{joined, PathBuf};
use crate::text::text_less;
use crate::value::{law_merge_overrides, law_merge_tables, merge, merge_arrays, name_of, Tree};
use vstd::prelude::*;

verus! {

// ── Merging ──────────────────────────────────────────────────────────────
/// Whether a value is a table that has a key.
pub open spec fn keyed(t: Tree, k: Seq<char>) -> bool {
    t matches Tree::Table(m) && m.contains_key(k)
}

/// The value of a key.
pub open spec fn at(t: Tree, k: Seq<char>) -> Tree
    recommends
        keyed(t, k),
{
    t->Table_0[k]
}

/// Whether `t` is `l` with `r` merged onto it, as far as the key `a`, the key
/// `b` in its table and the key `c` in that table tell: on each level a key of
/// one side only keeps its value, tables of both sides are merged, and else
/// what `r` has stands. On the third level it stands in any case.
pub open spec fn merged_deep(
    l: Tree,
    r: Tree,
    t: Tree,
    a: Seq<char>,
    b: Seq<char>,
    c: Seq<char>,
) -> bool {
    if !(l is Table && r is Table) {
        l is Array && r is Array || t == r
    } else {
        &&& t is Table
        &&& keyed(t, a) == (keyed(l, a) || keyed(r, a))
        &&& keyed(l, a) && !keyed(r, a) ==> at(t, a) == at(l, a)
        &&& keyed(r, a) && !keyed(l, a) ==> at(t, a) == at(r, a)
        &&& keyed(l, a) && keyed(r, a) ==> {
            let (l1, r1, t1) = (at(l, a), at(r, a), at(t, a));
            if !(l1 is Table && r1 is Table) {
                l1 is Array && r1 is Array || t1 == r1
            } else {
                &&& t1 is Table
                &&& keyed(t1, b) == (keyed(l1, b) || keyed(r1, b))
                &&& keyed(l1, b) && !keyed(r1, b) ==> at(t1, b) == at(l1, b)
                &&& keyed(r1, b) && !keyed(l1, b) ==> at(t1, b) == at(r1, b)
                &&& keyed(l1, b) && keyed(r1, b) ==> {
                    let (l2, r2, t2) = (at(l1, b), at(r1, b), at(t1, b));
                    if !(l2 is Table && r2 is Table) {
                        l2 is Array && r2 is Array || t2 == r2
                    } else {
                        &&& t2 is Table
                        &&& keyed(t2, c) == (keyed(l2, c) || keyed(r2, c))
                        &&& keyed(r2, c) ==> at(t2, c) == at(r2, c)
                        &&& keyed(l2, c) && !keyed(r2, c) ==> at(t2, c) == at(l2, c)
                    }
                }
            }
        }
    }
}

proof fn lemma_merged_deep(l: Tree, r: Tree, a: Seq<char>, b: Seq<char>, c: Seq<char>)
    ensures
        merged_deep(l, r, merge(l, r, 3), a, b, c),
{
    if l is Table && r is Table {
        law_merge_tables(l->Table_0, r->Table_0, 3, a);
        if keyed(l, a) && keyed(r, a) {
            let (l1, r1) = (at(l, a), at(r, a));
            if l1 is Table && r1 is Table {
                law_merge_tables(l1->Table_0, r1->Table_0, 2, b);
                if keyed(l1, b) && keyed(r1, b) {
                    let (l2, r2) = (at(l1, b), at(r1, b));
                    if l2 is Table && r2 is Table {
                        law_merge_tables(l2->Table_0, r2->Table_0, 1, c);
                        if keyed(l2, c) && keyed(r2, c) {
                            law_merge_overrides(at(l2, c), at(r2, c), 0);
                        }
                    } else if !(l2 is Array && r2 is Array) {
                        law_merge_overrides(l2, r2, 1);
                    }
                }
            } else if !(l1 is Array && r1 is Array) {
                law_merge_overrides(l1, r1, 2);
            }
        }
    } else if !(l is Array && r is Array) {
        law_merge_overrides(l, r, 3);
    }
}

/// An item of an array goes by the text under its key `name`, and has no name
/// if there is none.
pub proof fn law_item_name(t: Tree, m: Map<Seq<char>, Tree>)
    ensures
        !(t is Table) ==> name_of(t) is None,
        !m.contains_key("name"@) ==> name_of(Tree::Table(m)) is None,
        m.contains_key("name"@) && m["name"@] is Text ==> name_of(Tree::Table(m)) == Some(
            m["name"@]->Text_0,
        ),
        m.contains_key("name"@) && !(m["name"@] is Text) ==> name_of(Tree::Table(m)) is None,
{
}

// ── The editor's configuration ───────────────────────────────────────────
/// The key bindings of every layer that has any take part, in the order of
/// the layers, whatever else the layers set.
pub proof fn law_keys_of_all_layers(s: Seq<RawView>)
    ensures
        merged_layers(s).keys == s.filter(|r: RawView| r.keys is Some).map_values(
            |r: RawView| r.keys->0,
        ),
        s.len() > 0 ==> (s.last().keys matches Some(k) ==> merged_layers(s).keys == merged_layers(
            s.drop_last(),
        ).keys.push(k)),
        s.len() > 0 ==> (s.last().keys is None ==> merged_layers(s).keys == merged_layers(
            s.drop_last(),
        ).keys),
    decreases s.len(),
{
    let some = |r: RawView| r.keys is Some;
    let get = |r: RawView| r.keys->0;
    if s.len() == 0 {
        reveal(Seq::filter);
        assert(s.filter(some).map_values(get) =~= Seq::empty());
    } else {
        let d = s.drop_last();
        law_keys_of_all_layers(d);
        assert(s =~= d.push(s.last()));
        d.lemma_filter_push(s.last(), some);
        if s.last().keys is Some {
            assert(s.filter(some) == d.filter(some).push(s.last()));
            assert(s.filter(some).map_values(get) =~= d.filter(some).map_values(get).push(
                s.last().keys->0,
            ));
        }
    }
}

/// The theme is that of the highest layer that has one, whatever else the
/// layers set; without any there is none.
pub proof fn law_theme_of_highest(s: Seq<RawView>, i: int)
    requires
        -1 <= i < s.len(),
        forall|j: int| i < j < s.len() ==> (#[trigger] s[j]).theme is None,
        i >= 0 ==> s[i].theme is Some,
    ensures
        i < 0 ==> merged_layers(s).theme is None,
        i >= 0 ==> merged_layers(s).theme == s[i].theme,
    decreases s.len(),
{
    if s.len() > 0 {
        let d = s.drop_last();
        assert(s.last() == s[s.len() - 1]);
        if i < s.len() - 1 {
            assert(s[s.len() - 1].theme is None);
            assert forall|j: int| i < j < d.len() implies (#[trigger] d[j]).theme is None by {
                assert(d[j] == s[j]);
            }
            if i >= 0 {
                assert(d[i] == s[i]);
            }
            law_theme_of_highest(d, i);
        }
    }
}

/// The editor's table is merged layer by layer, whatever else the layers set:
/// a layer without one changes nothing, the first one stands, and each further
/// one is merged onto those below it, three levels deep.
pub proof fn law_editor_of_layers(s: Seq<RawView>, a: Seq<char>, b: Seq<char>, c: Seq<char>)
    ensures
        s.len() == 0 ==> merged_layers(s).editor is None,
        s.len() > 0 ==> ({
            let low = merged_layers(s.drop_last()).editor;
            let top = s.last().editor;
            let r = merged_layers(s).editor;
            &&& top is None ==> r == low
            &&& low is None ==> r == top
            &&& low is Some && top is Some ==> r is Some && merged_deep(
                low->0,
                top->0,
                r->0,
                a,
                b,
                c,
            )
        }),
{
    if s.len() > 0 {
        let low = merged_layers(s.drop_last()).editor;
        let top = s.last().editor;
        if low is Some && top is Some {
            lemma_merged_deep(low->0, top->0, a, b, c);
        }
    }
}

/// Arrays in the editor's table are merged as arrays are: onto those of the
/// lower layers.
pub proof fn law_editor_merged(s: Seq<RawView>)
    requires
        s.len() > 0,
        merged_layers(s.drop_last()).editor is Some,
        s.last().editor is Some,
    ensures
        merged_layers(s).editor == Some(
            merge(merged_layers(s.drop_last()).editor->0, s.last().editor->0, 3),
        ),
{
}

/// What a file gives: a layer, if it can be read and has the known fields
/// only; nothing, if it is not there and need not be; and else an error.
pub proof fn law_config_file(file: ConfigFile, explicit: bool)
    ensures
        file.text is Missing && explicit ==> layer_of(file, explicit) == Err::<
            Option<RawView>,
            ErrorView,
        >(ErrorView::Missing(file.path@)),
        file.text is Missing && !explicit ==> layer_of(file, explicit) == Ok::<
            Option<RawView>,
            ErrorView,
        >(None),
        file.text matches FileText::Failed(m) ==> layer_of(file, explicit) == Err::<
            Option<RawView>,
            ErrorView,
        >(ErrorView::Error(m@)),
        file.text matches FileText::Read(text) ==> (match toml_document(text@) {
            Err(m) => layer_of(file, explicit) == Err::<Option<RawView>, ErrorView>(
                ErrorView::BadConfig(m),
            ),
            Ok(Tree::Table(m)) => if (forall|k: Seq<char>| #[trigger]
                m.contains_key(k) ==> k == "theme"@ || k == "keys"@ || k == "editor"@) && (
            m.contains_key("keys"@) ==> m["keys"@] is Table) {
                layer_of(file, explicit) matches Ok(Some(raw)) && {
                    &&& raw.theme == (if m.contains_key("theme"@) {
                        Some(m["theme"@])
                    } else {
                        None
                    })
                    &&& raw.keys == (if m.contains_key("keys"@) {
                        Some(m["keys"@])
                    } else {
                        None
                    })
                    &&& raw.editor == (if m.contains_key("editor"@) {
                        Some(m["editor"@])
                    } else {
                        None
                    })
                }
            } else {
                layer_of(file, explicit) is Err
            },
            Ok(_) => layer_of(file, explicit) is Err,
        }),
{
    if let FileText::Read(text) = file.text {
        if let Ok(Tree::Table(m)) = toml_document(text@) {
            if forall|k: Seq<char>| #[trigger]
                m.contains_key(k) ==> k == "theme"@ || k == "keys"@ || k == "editor"@ {
                assert(only_fields(m));
            } else {
                let k = choose|k: Seq<char>| #[trigger]
                    m.contains_key(k) && !(k == "theme"@ || k == "keys"@ || k == "editor"@);
                assert(m.contains_key(k) && !is_field(k));
                assert(!only_fields(m));
            }
        }
    }
}

/// The layers of files are those of the files that are there, in the order of
/// the files; the first file with which something is wrong is reported.
pub proof fn law_layers_in_order(files: Seq<ConfigFile>, explicit: bool, i: int)
    ensures
        (forall|j: int| 0 <= j < files.len() ==> layer_of(#[trigger] files[j], explicit) is Ok)
            ==> layers_of(files, explicit) == Ok::<Seq<RawView>, ErrorView>(
            files.filter(|f: ConfigFile| layer_of(f, explicit)->Ok_0 is Some).map_values(
                |f: ConfigFile| layer_of(f, explicit)->Ok_0->0,
            ),
        ),
        0 <= i < files.len() && layer_of(files[i], explicit) is Err && (forall|j: int|
            0 <= j < i ==> layer_of(#[trigger] files[j], explicit) is Ok) ==> layers_of(
            files,
            explicit,
        ) == Err::<Seq<RawView>, ErrorView>(layer_of(files[i], explicit)->Err_0),
    decreases files.len(),
{
    let there = |f: ConfigFile| layer_of(f, explicit)->Ok_0 is Some;
    let get = |f: ConfigFile| layer_of(f, explicit)->Ok_0->0;
    if files.len() == 0 {
        reveal(Seq::filter);
        assert(files.filter(there).map_values(get) =~= Seq::empty());
    } else {
        let d = files.drop_last();
        let last = files.len() - 1;
        law_layers_in_order(d, explicit, i);
        assert(files =~= d.push(files.last()));
        assert(files.last() == files[last]);
        d.lemma_filter_push(files.last(), there);
        assert forall|j: int| 0 <= j < d.len() implies d[j] == #[trigger] files[j] by {}
        if forall|j: int| 0 <= j < last ==> layer_of(#[trigger] files[j], explicit) is Ok {
            assert forall|j: int| 0 <= j < d.len() implies layer_of(#[trigger] d[j], explicit)
                is Ok by {
                assert(d[j] == files[j]);
            }
            if layer_of(files[last], explicit) is Ok && there(files.last()) {
                assert(files.filter(there).map_values(get) =~= d.filter(there).map_values(
                    get,
                ).push(get(files.last())));
            }
        }
        if 0 <= i < last && layer_of(files[i], explicit) is Err && (forall|j: int|
            0 <= j < i ==> layer_of(#[trigger] files[j], explicit) is Ok) {
            assert(d[i] == files[i]);
            assert forall|j: int| 0 <= j < i implies layer_of(#[trigger] d[j], explicit) is Ok by {
                assert(d[j] == files[j]);
            }
        }
    }
}

/// The layers that go into a configuration: those of the config directories,
/// then that of a trusted workspace, then those of explicit files.
pub open spec fn ranked_layers(
    low: Seq<RawView>,
    high: Seq<RawView>,
    trusted: bool,
    workspace: Option<RawView>,
) -> Seq<RawView> {
    match workspace {
        Some(raw) => if trusted {
            low.push(raw) + high
        } else {
            low + high
        },
        None => low + high,
    }
}

/// The configuration is what its layers come to: config directories lowest,
/// then a trusted workspace, then explicit files; but for the setting by which
/// workspaces are trusted, on which no workspace has a say.
pub proof fn law_config_layers(
    dirs: Seq<ConfigFile>,
    overrides: Seq<ConfigFile>,
    trusted: bool,
    workspace: ConfigFile,
    k: Seq<char>,
)
    ensures
        layers_of(dirs, false) is Err || layers_of(overrides, true) is Err || (trusted && layer_of(
            workspace,
            false,
        ) is Err) <==> loaded_config(dirs, overrides, trusted, workspace) is Err,
        loaded_config(dirs, overrides, trusted, workspace) matches Ok(c) ==> ({
            let low = layers_of(dirs, false)->Ok_0;
            let high = layers_of(overrides, true)->Ok_0;
            let raw = if trusted {
                layer_of(workspace, false)->Ok_0
            } else {
                None
            };
            let all = merged_layers(ranked_layers(low, high, trusted, raw));
            let user = merged_layers(low + high);
            &&& c.theme == all.theme
            &&& c.keys == all.keys
            &&& all.editor is None ==> c.editor is None
            &&& all.editor matches Some(t) ==> (!(t is Table) ==> c.editor == all.editor)
            &&& all.editor matches Some(t) ==> (t is Table ==> c.editor is Some && c.editor->0
                is Table && (k != "workspace-trust"@ ==> keyed(c.editor->0, k) == keyed(t, k) && (keyed(
                t,
                k,
            ) ==> at(c.editor->0, k) == at(t, k))))
            &&& all.editor matches Some(t) ==> (t is Table ==> ({
                let trust = "workspace-trust"@;
                let own = user.editor is Some && keyed(user.editor->0, trust);
                keyed(c.editor->0, trust) == own && (own ==> at(c.editor->0, trust) == at(
                    user.editor->0,
                    trust,
                ))
            }))
        }),
{
}

/// The files of one name in the config directories, from lowest to highest
/// priority: `dirs` is given the other way round.
pub proof fn law_files_in(dirs: Seq<Seq<char>>, name: Seq<char>, i: int)
    requires
        0 <= i < dirs.len(),
    ensures
        files_in(dirs, name).len() == dirs.len(),
        files_in(dirs, name).reverse()[i] == joined(dirs[i], name),
{
}

// ── The languages' configuration ─────────────────────────────────────────
/// What a file with languages gives: its document, if it can be read as one;
/// an error if it cannot, or if it is not there and has to be; and else
/// nothing.
pub proof fn law_lang_file(file: ConfigFile, explicit: bool)
    ensures
        file.text is Missing && explicit ==> lang_layer(file, explicit) == Err::<
            Option<Tree>,
            ErrorView,
        >(ErrorView::Missing(file.path@)),
        file.text is Missing && !explicit ==> lang_layer(file, explicit) == Ok::<
            Option<Tree>,
            ErrorView,
        >(None),
        file.text is Failed ==> lang_layer(file, explicit) == Ok::<Option<Tree>, ErrorView>(None),
        file.text matches FileText::Read(text) ==> (match toml_document(text@) {
            Err(m) => lang_layer(file, explicit) == Err::<Option<Tree>, ErrorView>(
                ErrorView::BadConfig(m),
            ),
            Ok(t) => lang_layer(file, explicit) == Ok::<Option<Tree>, ErrorView>(Some(t)),
        }),
{
}

/// The layers of files with languages are those of the files that give one, in
/// the order of the files; the first error is reported.
pub proof fn law_lang_layers_in_order(files: Seq<ConfigFile>, explicit: bool, i: int)
    ensures
        (forall|j: int| 0 <= j < files.len() ==> lang_layer(#[trigger] files[j], explicit) is Ok)
            ==> lang_layers(files, explicit) == Ok::<Seq<Tree>, ErrorView>(
            files.filter(|f: ConfigFile| lang_layer(f, explicit)->Ok_0 is Some).map_values(
                |f: ConfigFile| lang_layer(f, explicit)->Ok_0->0,
            ),
        ),
        0 <= i < files.len() && lang_layer(files[i], explicit) is Err && (forall|j: int|
            0 <= j < i ==> lang_layer(#[trigger] files[j], explicit) is Ok) ==> lang_layers(
            files,
            explicit,
        ) == Err::<Seq<Tree>, ErrorView>(lang_layer(files[i], explicit)->Err_0),
    decreases files.len(),
{
    let there = |f: ConfigFile| lang_layer(f, explicit)->Ok_0 is Some;
    let get = |f: ConfigFile| lang_layer(f, explicit)->Ok_0->0;
    if files.len() == 0 {
        reveal(Seq::filter);
        assert(files.filter(there).map_values(get) =~= Seq::empty());
    } else {
        let d = files.drop_last();
        let last = files.len() - 1;
        law_lang_layers_in_order(d, explicit, i);
        assert(files =~= d.push(files.last()));
        assert(files.last() == files[last]);
        d.lemma_filter_push(files.last(), there);
        assert forall|j: int| 0 <= j < d.len() implies d[j] == #[trigger] files[j] by {}
        if forall|j: int| 0 <= j < last ==> lang_layer(#[trigger] files[j], explicit) is Ok {
            assert forall|j: int| 0 <= j < d.len() implies lang_layer(#[trigger] d[j], explicit)
                is Ok by {
                assert(d[j] == files[j]);
            }
            if lang_layer(files[last], explicit) is Ok && there(files.last()) {
                assert(files.filter(there).map_values(get) =~= d.filter(there).map_values(
                    get,
                ).push(get(files.last())));
            }
        }
        if 0 <= i < last && lang_layer(files[i], explicit) is Err && (forall|j: int|
            0 <= j < i ==> lang_layer(#[trigger] files[j], explicit) is Ok) {
            assert(d[i] == files[i]);
            assert forall|j: int| 0 <= j < i implies lang_layer(#[trigger] d[j], explicit)
                is Ok by {
                assert(d[j] == files[j]);
            }
        }
    }
}

/// The layers that languages come from: the config directories', then that of
/// a trusted workspace, then those of explicit files. A workspace that is not
/// trusted has no say.
pub proof fn law_lang_layers(
    dirs: Seq<ConfigFile>,
    trusted: bool,
    workspace: ConfigFile,
    overrides: Seq<ConfigFile>,
)
    ensures
        ({
            let low = lang_layers(dirs, false);
            let own = lang_layer(workspace, false);
            let high = lang_layers(overrides, true);
            let r = all_lang_layers(dirs, trusted, workspace, overrides);
            &&& r is Err <==> low is Err || high is Err || (trusted && own is Err)
            &&& r matches Ok(layers) ==> layers == low->Ok_0 + (if trusted && own->Ok_0 is Some {
                seq![own->Ok_0->0]
            } else {
                Seq::empty()
            }) + high->Ok_0
        }),
{
    let all = dirs.push(workspace);
    assert(all.drop_last() =~= dirs);
    assert(all.last() == workspace);
    if let (Ok(low), Ok(high)) = (lang_layers(dirs, false), lang_layers(overrides, true)) {
        assert(low + Seq::empty() + high =~= low + high);
        if let Ok(Some(t)) = lang_layer(workspace, false) {
            assert(low + seq![t] + high =~= low.push(t) + high);
        }
    }
}

/// Each layer of languages is merged onto those below it, three levels deep,
/// and the first of them onto what is built in.
pub proof fn law_lang_merged(
    base: Tree,
    layers: Seq<Tree>,
    a: Seq<char>,
    b: Seq<char>,
    c: Seq<char>,
)
    ensures
        layers.len() == 0 ==> merged_onto(base, layers) == base,
        layers.len() > 0 ==> ({
            let low = merged_onto(base, layers.drop_last());
            merged_deep(low, layers.last(), merged_onto(base, layers), a, b, c)
                && merged_onto(base, layers) == merge(low, layers.last(), 3)
        }),
{
    if layers.len() > 0 {
        lemma_merged_deep(merged_onto(base, layers.drop_last()), layers.last(), a, b, c);
    }
}

/// How errors read.
pub proof fn law_error_text(m: String, p: PathBuf)
    ensures
        error_text(ConfigLoadError::BadConfig(m)) == m@,
        error_text(ConfigLoadError::Error(m)) == m@,
        error_text(ConfigLoadError::UnknownField(m)) == "unknown field `"@ + m@
            + "`, expected one of `theme`, `keys`, `editor`"@,
        error_text(ConfigLoadError::Missing(p)) == "config file does not exist: "@ + p@,
{
}

/// Which error a document gives: the first field that is not known, in the
/// order of texts, is named; but key bindings that are no table come before
/// the fields behind `keys`.
pub proof fn law_unknown_field(m: Map<Seq<char>, Tree>, k: Seq<char>)
    requires
        m.contains_key(k),
        k != "theme"@ && k != "keys"@ && k != "editor"@,
        forall|j: Seq<char>| #[trigger]
            m.contains_key(j) && j != "theme"@ && j != "keys"@ && j != "editor"@ ==> !precedes(j, k),
    ensures
        (m.contains_key("keys"@) ==> m["keys"@] is Table) || precedes(k, "keys"@) ==> raw_of(
            Tree::Table(m),
        ) == Err::<RawView, ErrorView>(ErrorView::UnknownField(k)),
        m.contains_key("keys"@) && !(m["keys"@] is Table) && !precedes(k, "keys"@) ==> (raw_of(
            Tree::Table(m),
        ) matches Err(ErrorView::BadConfig(_))),
{
    assert(!is_field(k));
    assert forall|j: Seq<char>| #[trigger] m.contains_key(j) && !is_field(j) implies !text_less(
        j,
        k,
    ) by {
        law_text_order(j, k);
    }
    assert(first_unknown(m, k));
    assert(!only_fields(m));
    lemma_unknown_before_keys(m, k);
    law_text_order(k, "keys"@);
    let c = choose|c: Seq<char>| first_unknown(m, c);
    lemma_first_unknown(m, k, c);
}

/// Which error is reported: one of the config directories' files before one of
/// the explicit files', and these before one of the workspace's.
pub proof fn law_error_reported(
    dirs: Seq<ConfigFile>,
    overrides: Seq<ConfigFile>,
    trusted: bool,
    workspace: ConfigFile,
)
    ensures
        ({
            let r = loaded_config(dirs, overrides, trusted, workspace);
            let low = layers_of(dirs, false);
            let high = layers_of(overrides, true);
            &&& low matches Err(e) ==> r == Err::<ConfigView, ErrorView>(e)
            &&& low is Ok ==> (high matches Err(e) ==> r == Err::<ConfigView, ErrorView>(e))
            &&& low is Ok && high is Ok && trusted ==> (layer_of(workspace, false) matches Err(e)
                ==> r == Err::<ConfigView, ErrorView>(e))
            &&& user_layers(dirs, overrides) is Ok ==> user_layers(dirs, overrides)->Ok_0 == (
                low->Ok_0,
                high->Ok_0,
            )
        }),
        ({
            let r = all_lang_layers(dirs, trusted, workspace, overrides);
            let low = lang_layers(dirs, false);
            let high = lang_layers(overrides, true);
            let own = lang_layer(workspace, false);
            &&& low matches Err(e) ==> r == Err::<Seq<Tree>, ErrorView>(e)
            &&& low is Ok && trusted ==> (own matches Err(e) ==> r == Err::<Seq<Tree>, ErrorView>(e))
            &&& low is Ok && (!trusted || own is Ok) ==> (high matches Err(e) ==> r == Err::<
                Seq<Tree>,
                ErrorView,
            >(e))
        }),
{
    let all = dirs.push(workspace);
    assert(all.drop_last() =~= dirs);
    assert(all.last() == workspace);
}

/// The items of the right array are merged in one after the other.
pub proof fn law_items_in_turn(ls: Seq<Tree>, rs: Seq<Tree>, item: Tree, depth: nat)
    requires
        depth > 0,
    ensures
        merge(Tree::Array(ls), Tree::Array(Seq::empty()), depth) == Tree::Array(ls),
        merge(Tree::Array(ls), Tree::Array(rs.push(item)), depth) == merge(
            merge(Tree::Array(ls), Tree::Array(rs), depth),
            Tree::Array(seq![item]),
            depth,
        ),
{
    assert(rs.push(item).drop_last() =~= rs);
    assert(seq![item].drop_last() =~= Seq::empty());
    assert(seq![item].last() == item);
    let acc = merge_arrays(ls, rs, depth);
    assert(merge_arrays(acc, Seq::empty(), depth) == acc);
    assert(merge_arrays(ls, Seq::empty(), depth) == ls);
    reveal_with_fuel(merge_arrays, 3);
    reveal_with_fuel(merge, 2);
    assert(merge_arrays(acc, seq![item], depth) == merge_arrays(ls, rs.push(item), depth));
}

} // verus!
