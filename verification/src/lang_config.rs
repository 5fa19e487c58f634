//! The language configuration: the built-in one with the user's layers merged
//! onto it.
use crate::document::{parse_document, toml_document};
use crate::layers::{ConfigFile, ConfigLoadError, ErrorView, FileText};
use crate::value::{law_merge_overrides, merge, merge_toml_values, trees, TomlValue, Tree};
use vstd::prelude::*;

verus! {

/// The layer that a file holds, if it holds one. A file that cannot be read is
/// passed over, unless it was asked for explicitly and does not exist.
pub open spec fn lang_layer(file: ConfigFile, explicit: bool) -> Result<Option<Tree>, ErrorView> {
    match file.text {
        FileText::Read(text) => match toml_document(text@) {
            Ok(t) => Ok(Some(t)),
            Err(m) => Err(ErrorView::BadConfig(m)),
        },
        FileText::Missing => if explicit {
            Err(ErrorView::Missing(file.path@))
        } else {
            Ok(None)
        },
        FileText::Failed(_) => Ok(None),
    }
}

/// The layers that files hold, in their order, or what is wrong with the
/// first file with which something is wrong.
pub open spec fn lang_layers(files: Seq<ConfigFile>, explicit: bool) -> Result<
    Seq<Tree>,
    ErrorView,
>
    decreases files.len(),
{
    if files.len() == 0 {
        Ok(Seq::empty())
    } else {
        match lang_layers(files.drop_last(), explicit) {
            Err(e) => Err(e),
            Ok(before) => match lang_layer(files.last(), explicit) {
                Err(e) => Err(e),
                Ok(None) => Ok(before),
                Ok(Some(t)) => Ok(before.push(t)),
            },
        }
    }
}

/// `base` with layers merged onto it, from lowest to highest priority.
pub open spec fn merged_onto(base: Tree, layers: Seq<Tree>) -> Tree
    decreases layers.len(),
{
    if layers.len() == 0 {
        base
    } else {
        merge(merged_onto(base, layers.drop_last()), layers.last(), 3)
    }
}

/// The layers above the built-in configuration: the files of the config
/// directories, that of the workspace if it is trusted, explicit files.
pub open spec fn all_lang_layers(
    dirs: Seq<ConfigFile>,
    trusted: bool,
    workspace: ConfigFile,
    overrides: Seq<ConfigFile>,
) -> Result<Seq<Tree>, ErrorView> {
    let low = lang_layers(
        if trusted {
            dirs.push(workspace)
        } else {
            dirs
        },
        false,
    );
    match low {
        Err(e) => Err(e),
        Ok(low) => match lang_layers(overrides, true) {
            Err(e) => Err(e),
            Ok(high) => Ok(low + high),
        },
    }
}

/// The built-in language configuration, from its text.
pub fn default_lang_config(builtin: &str) -> (r: Result<TomlValue, String>)
    ensures
        match r {
            Ok(v) => toml_document(builtin@) == Ok::<Tree, Seq<char>>(v@),
            Err(m) => toml_document(builtin@) == Err::<Tree, Seq<char>>(m@),
        },
{
    parse_document(builtin)
}

/// Merges layers onto a base, from lowest to highest priority.
pub fn merge_lang_layers(base: TomlValue, layers: Vec<TomlValue>) -> (r: TomlValue)
    ensures
        r@ == merged_onto(base@, trees(layers@)),
{
    let ghost s = layers@;
    let ghost b = base@;
    let mut rest = layers;
    let mut acc = base;
    let ghost mut i: int = 0;
    assert(s.skip(0) =~= s);
    assert(trees(s.take(0)) =~= Seq::empty());
    while rest.len() > 0
        invariant
            0 <= i <= s.len(),
            rest@ == s.skip(i),
            acc@ == merged_onto(b, trees(s.take(i))),
        decreases rest@.len(),
    {
        let layer = rest.remove(0);
        assert(layer == s[i]);
        assert(rest@ =~= s.skip(i + 1));
        assert(s.take(i + 1).drop_last() =~= s.take(i));
        assert(trees(s.take(i + 1)).drop_last() =~= trees(s.take(i)));
        acc = merge_toml_values(acc, layer, 3);
        proof {
            i = i + 1;
        }
    }
    assert(s.take(i) =~= s);
    acc
}

/// Reads the layer that a file holds, if it holds one.
pub fn read_layer(file: &ConfigFile, explicit: bool) -> (r: Result<Option<TomlValue>, ConfigLoadError>)
    ensures
        match r {
            Ok(Some(v)) => lang_layer(*file, explicit) == Ok::<Option<Tree>, ErrorView>(Some(v@)),
            Ok(None) => lang_layer(*file, explicit) == Ok::<Option<Tree>, ErrorView>(None),
            Err(e) => lang_layer(*file, explicit) == Err::<Option<Tree>, ErrorView>(e@),
        },
{
    match &file.text {
        FileText::Read(text) => match parse_document(text.as_str()) {
            Ok(v) => Ok(Some(v)),
            Err(m) => Err(ConfigLoadError::BadConfig(m)),
        },
        FileText::Missing => {
            if explicit {
                Err(ConfigLoadError::Missing(file.path.clone()))
            } else {
                Ok(None)
            }
        },
        FileText::Failed(_) => Ok(None),
    }
}

/// Adds the layers that files hold.
fn read_layers(out: &mut Vec<TomlValue>, files: &Vec<ConfigFile>, explicit: bool) -> (r: Result<
    (),
    ConfigLoadError,
>)
    ensures
        match r {
            Ok(()) => lang_layers(files@, explicit) matches Ok(layers) && trees(final(out)@)
                == trees(old(out)@) + layers,
            Err(e) => lang_layers(files@, explicit) == Err::<Seq<Tree>, ErrorView>(e@),
        },
{
    let ghost s = files@;
    let ghost before = trees(out@);
    let mut i: usize = 0;
    assert(s.take(0) =~= Seq::empty());
    assert(before + Seq::empty() =~= before);
    while i < files.len()
        invariant
            i <= s.len(),
            s == files@,
            lang_layers(s.take(i as int), explicit) matches Ok(layers) && trees(out@) == before
                + layers,
        decreases files@.len() - i,
    {
        assert(s.take(i + 1).drop_last() =~= s.take(i as int));
        assert(s.take(i + 1).last() == s[i as int]);
        match read_layer(&files[i], explicit) {
            Ok(Some(v)) => {
                let ghost so_far = out@;
                let ghost layers = lang_layers(s.take(i as int), explicit)->Ok_0;
                out.push(v);
                assert(out@.drop_last() =~= so_far);
                assert(before + layers.push(v@) =~= (before + layers).push(v@));
            },
            Ok(None) => {},
            Err(e) => {
                proof {
                    lemma_first_error(s, i as int, explicit);
                }
                return Err(e);
            },
        }
        i += 1;
    }
    assert(s.take(i as int) =~= s);
    Ok(())
}

/// The first error stands, whatever follows.
proof fn lemma_first_error(files: Seq<ConfigFile>, i: int, explicit: bool)
    requires
        0 <= i < files.len(),
        lang_layers(files.take(i), explicit) is Ok,
        lang_layer(files[i], explicit) is Err,
    ensures
        lang_layers(files, explicit) == Err::<Seq<Tree>, ErrorView>(
            lang_layer(files[i], explicit)->Err_0,
        ),
    decreases files.len(),
{
    if i == files.len() - 1 {
        assert(files.drop_last() =~= files.take(i));
    } else {
        let p = files.drop_last();
        assert(p.take(i) =~= files.take(i));
        lemma_first_error(p, i, explicit);
    }
}

proof fn lemma_push_layers(files: Seq<ConfigFile>, file: ConfigFile, explicit: bool)
    ensures
        lang_layers(files.push(file), explicit) == (match lang_layers(files, explicit) {
            Err(e) => Err(e),
            Ok(before) => match lang_layer(file, explicit) {
                Err(e) => Err(e),
                Ok(None) => Ok(before),
                Ok(Some(t)) => Ok(before.push(t)),
            },
        }),
{
    assert(files.push(file).drop_last() =~= files);
}

/// User configured languages.toml file, merged with the default config.
///
/// Layers are merged from lowest to highest priority (later layers win):
///
/// 1. `languages.toml` inside each config directory (system default, `HELIX_CONFIG_DIR`,
///    `--config-dir`); `dirs` holds them in this order
/// 2. workspace-local `.helix/languages.toml`, merged in only when the current workspace is
///    trusted
/// 3. explicitly specified files (`HELIX_LANGUAGES_FILE`, then `--languages`)
///
/// Files that are not there are passed over, except those that were specified
/// explicitly.
pub fn user_lang_config(
    default: TomlValue,
    dirs: &Vec<ConfigFile>,
    trusted: bool,
    workspace: &ConfigFile,
    overrides: &Vec<ConfigFile>,
) -> (r: Result<TomlValue, ConfigLoadError>)
    ensures
        match r {
            Ok(v) => all_lang_layers(dirs@, trusted, *workspace, overrides@) matches Ok(layers)
                && v@ == merged_onto(default@, layers),
            Err(e) => all_lang_layers(dirs@, trusted, *workspace, overrides@) == Err::<
                Seq<Tree>,
                ErrorView,
            >(e@),
        },
{
    let mut layers: Vec<TomlValue> = Vec::new();
    assert(trees(layers@) =~= Seq::empty());
    proof {
        lemma_push_layers(dirs@, *workspace, false);
    }
    if let Err(e) = read_layers(&mut layers, dirs, false) {
        return Err(e);
    }
    let ghost low = lang_layers(dirs@, false)->Ok_0;
    assert(trees(layers@) =~= low);
    if trusted {
        let ghost before = layers@;
        match read_layer(workspace, false) {
            Err(e) => {
                return Err(e);
            },
            Ok(Some(v)) => {
                layers.push(v);
                assert(layers@.drop_last() =~= before);
            },
            Ok(None) => {},
        }
    }
    if let Err(e) = read_layers(&mut layers, overrides, true) {
        return Err(e);
    }
    Ok(merge_lang_layers(default, layers))
}

/// What the highest layer sets goes: a key of one of its tables at the top
/// whose value is no table and no array has that value in the end.
pub proof fn law_highest_layer_wins(base: Tree, layers: Seq<Tree>, k: Seq<char>)
    requires
        layers.len() > 0,
        layers.last() matches Tree::Table(m) && m.contains_key(k) && !(m[k] is Table) && !(
        m[k] is Array),
    ensures
        merged_onto(base, layers) matches Tree::Table(t) && t.contains_key(k) && t[k]
            == layers.last()->Table_0[k],
{
    if let Tree::Table(low) = merged_onto(base, layers.drop_last()) {
        law_merge_overrides(low[k], layers.last()->Table_0[k], 2);
    }
}

/// Without layers the built-in configuration stands.
pub proof fn law_no_layers(base: Tree)
    ensures
        merged_onto(base, Seq::empty()) == base,
{
}

} // verus!
