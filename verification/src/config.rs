//! The editor configuration: layers of `config.toml`, merged.
use crate::document::{parse_document, toml_document};
use crate::layers::{ConfigFile, ConfigLoadError, ErrorView, FileText};
use crate::order::{lemma_lex_irreflexive, lemma_lex_total, lemma_lex_transitive};
use crate::text::{char_order, chars_less, chars_of, lemma_char_order, same, text_less};
use crate::value::{
    get_key, law_merge_overrides, merge, merge_toml_values, remove_key, table, TomlValue, Tree,
};
use vstd::prelude::*;

verus! {

/// What an optional value means.
pub open spec fn tree_of(v: Option<TomlValue>) -> Option<Tree> {
    match v {
        Some(v) => Some(v@),
        None => None,
    }
}

/// One layer of the configuration, as a mathematical value.
pub struct RawView {
    pub theme: Option<Tree>,
    pub keys: Option<Tree>,
    pub editor: Option<Tree>,
}

/// One layer of the configuration, as it stands in a file.
#[derive(Debug)]
pub struct ConfigRaw {
    pub theme: Option<TomlValue>,
    pub keys: Option<TomlValue>,
    pub editor: Option<TomlValue>,
}

impl View for ConfigRaw {
    type V = RawView;

    open spec fn view(&self) -> RawView {
        RawView {
            theme: tree_of(self.theme),
            keys: tree_of(self.keys),
            editor: tree_of(self.editor),
        }
    }
}

/// The layers that a list of values stands for.
pub open spec fn raw_views(s: Seq<ConfigRaw>) -> Seq<RawView> {
    Seq::new(s.len(), |i: int| s[i]@)
}

/// The configuration, as a mathematical value.
pub struct ConfigView {
    pub theme: Option<Tree>,
    pub keys: Seq<Tree>,
    pub editor: Option<Tree>,
}

/// The merged configuration. What is not set has its built-in default.
#[derive(Debug)]
pub struct Config {
    pub theme: Option<TomlValue>,
    /// The key bindings of each layer that has any, from lowest to highest
    /// priority: they go on top of the default keymap in this order.
    pub keys: Vec<TomlValue>,
    pub editor: Option<TomlValue>,
}

impl View for Config {
    type V = ConfigView;

    open spec fn view(&self) -> ConfigView {
        ConfigView {
            theme: tree_of(self.theme),
            keys: Seq::new(self.keys@.len(), |i: int| self.keys@[i]@),
            editor: tree_of(self.editor),
        }
    }
}

/// The configuration with nothing set.
pub open spec fn default_config() -> ConfigView {
    ConfigView { theme: None, keys: Seq::empty(), editor: None }
}

impl Default for Config {
    fn default() -> (r: Config)
        ensures
            r@ == default_config(),
    {
        let r = Config { theme: None, keys: Vec::new(), editor: None };
        assert(r@.keys =~= Seq::empty());
        r
    }
}

// ── One layer ────────────────────────────────────────────────────────────
/// Whether a layer may have a field of this name.
pub open spec fn is_field(k: Seq<char>) -> bool {
    k == "theme"@ || k == "keys"@ || k == "editor"@
}

/// Whether all keys of a table are fields of a layer.
pub open spec fn only_fields(m: Map<Seq<char>, Tree>) -> bool {
    forall|k: Seq<char>| #[trigger] m.contains_key(k) ==> is_field(k)
}

/// Whether `k` is the first key of a table, in the order of texts, that is no
/// field of a layer.
pub open spec fn first_unknown(m: Map<Seq<char>, Tree>, k: Seq<char>) -> bool {
    &&& m.contains_key(k)
    &&& !is_field(k)
    &&& forall|j: Seq<char>| #[trigger] m.contains_key(j) && !is_field(j) ==> !text_less(j, k)
}

/// There is only one first key.
pub proof fn lemma_first_unknown(m: Map<Seq<char>, Tree>, a: Seq<char>, b: Seq<char>)
    requires
        first_unknown(m, a),
        first_unknown(m, b),
    ensures
        a == b,
{
    lemma_char_order();
    if a != b {
        lemma_lex_total(char_order(), a, b);
    }
}

/// The value of a key, if the table has it.
pub open spec fn field(m: Map<Seq<char>, Tree>, k: Seq<char>) -> Option<Tree> {
    if m.contains_key(k) {
        Some(m[k])
    } else {
        None
    }
}

/// Whether the key bindings of a table, if it has any, are a table themselves.
pub open spec fn keys_valid(m: Map<Seq<char>, Tree>) -> bool {
    field(m, "keys"@) matches Some(t) ==> t is Table
}

/// Whether a table has a key that is no field of a layer and comes before
/// `keys`, in the order of texts.
pub open spec fn unknown_before_keys(m: Map<Seq<char>, Tree>) -> bool {
    exists|k: Seq<char>| #[trigger] m.contains_key(k) && !is_field(k) && text_less(k, "keys"@)
}

/// The layer that a document is. Of several errors the first counts, in the
/// order of texts of the keys.
pub open spec fn raw_of(t: Tree) -> Result<RawView, ErrorView> {
    match t {
        Tree::Table(m) => if !keys_valid(m) && !unknown_before_keys(m) {
            Err(ErrorView::BadConfig("`keys` is no table"@))
        } else if only_fields(m) {
            Ok(
                RawView {
                    theme: field(m, "theme"@),
                    keys: field(m, "keys"@),
                    editor: field(m, "editor"@),
                },
            )
        } else {
            Err(ErrorView::UnknownField(choose|k: Seq<char>| first_unknown(m, k)))
        },
        _ => Err(ErrorView::BadConfig("expected a table"@)),
    }
}

/// The layer that a file holds, if there is such a file. Only a file that was
/// asked for explicitly has to be there.
pub open spec fn layer_of(file: ConfigFile, explicit: bool) -> Result<Option<RawView>, ErrorView> {
    match file.text {
        FileText::Read(text) => match toml_document(text@) {
            Ok(t) => match raw_of(t) {
                Ok(raw) => Ok(Some(raw)),
                Err(e) => Err(e),
            },
            Err(m) => Err(ErrorView::BadConfig(m)),
        },
        FileText::Missing => if explicit {
            Err(ErrorView::Missing(file.path@))
        } else {
            Ok(None)
        },
        FileText::Failed(m) => Err(ErrorView::Error(m@)),
    }
}

/// Whether a text comes before another.
fn precedes(a: &str, b: &str) -> (r: bool)
    ensures
        r == text_less(a@, b@),
{
    chars_less(&chars_of(a), &chars_of(b))
}

/// The first key that is no field of a layer.
fn find_unknown(entries: &Vec<(String, TomlValue)>) -> (r: Option<String>)
    ensures
        match r {
            Some(k) => first_unknown(table(entries@), k@),
            None => only_fields(table(entries@)),
        },
{
    let ghost s = entries@;
    let mut first: Option<String> = None;
    let mut i: usize = 0;
    assert(table(s.take(0)) =~= Map::empty());
    while i < entries.len()
        invariant
            i <= s.len(),
            s == entries@,
            match first {
                Some(k) => first_unknown(table(s.take(i as int)), k@),
                None => only_fields(table(s.take(i as int))),
            },
        decreases entries@.len() - i,
    {
        let key = entries[i].0.as_str();
        let ghost before = table(s.take(i as int));
        let ghost after = table(s.take(i + 1));
        proof {
            assert(s.take(i + 1).drop_last() =~= s.take(i as int));
            assert(s.take(i + 1).last() == s[i as int]);
            assert(after == before.insert(key@, s[i as int].1@));
            assert forall|j: Seq<char>| #[trigger]
                after.contains_key(j) implies j == key@ || before.contains_key(j) by {}
            lemma_char_order();
            lemma_lex_irreflexive(char_order(), key@);
        }
        if !same(key, "theme") && !same(key, "keys") && !same(key, "editor") {
            let smaller = match &first {
                Some(k) => precedes(key, k.as_str()),
                None => true,
            };
            if smaller {
                proof {
                    if let Some(k) = first {
                        assert forall|j: Seq<char>| #[trigger]
                            after.contains_key(j) && !is_field(j) implies !text_less(j, key@) by {
                            if j != key@ && text_less(j, key@) {
                                lemma_lex_transitive(char_order(), j, key@, k@);
                            }
                        }
                    } else {
                        assert forall|j: Seq<char>| #[trigger]
                            after.contains_key(j) && !is_field(j) implies !text_less(j, key@) by {
                            if j != key@ {
                                assert(before.contains_key(j));
                            }
                        }
                    }
                }
                first = Some(entries[i].0.clone());
            }
        }
        i += 1;
    }
    assert(s.take(i as int) =~= s);
    first
}

/// Whether the key bindings, if there are any, are a table.
fn has_valid_keys(entries: &Vec<(String, TomlValue)>) -> (r: bool)
    ensures
        r == keys_valid(table(entries@)),
{
    match get_key(entries, "keys") {
        Some(TomlValue::Table(_)) => true,
        Some(_) => false,
        None => true,
    }
}

/// The first unknown key tells whether there is one before `keys`.
pub proof fn lemma_unknown_before_keys(m: Map<Seq<char>, Tree>, k: Seq<char>)
    requires
        first_unknown(m, k),
    ensures
        unknown_before_keys(m) == text_less(k, "keys"@),
{
    lemma_char_order();
    if unknown_before_keys(m) {
        let j = choose|j: Seq<char>| #[trigger]
            m.contains_key(j) && !is_field(j) && text_less(j, "keys"@);
        if j != k {
            lemma_lex_total(char_order(), j, k);
            lemma_lex_transitive(char_order(), k, j, "keys"@);
        }
    }
}

/// A copy of the value under a key.
fn copy_key(entries: &Vec<(String, TomlValue)>, key: &str) -> (r: Option<TomlValue>)
    ensures
        tree_of(r) == field(table(entries@), key@),
{
    match get_key(entries, key) {
        Some(v) => Some(v.copy()),
        None => None,
    }
}

/// A copy of an optional value.
fn copy_value(v: &Option<TomlValue>) -> (r: Option<TomlValue>)
    ensures
        tree_of(r) == tree_of(*v),
{
    match v {
        Some(v) => Some(v.copy()),
        None => None,
    }
}

impl ConfigRaw {
    /// Takes a document as a layer of the configuration.
    pub fn from_document(document: &TomlValue) -> (r: Result<ConfigRaw, ConfigLoadError>)
        ensures
            match r {
                Ok(raw) => raw_of(document@) == Ok::<RawView, ErrorView>(raw@),
                Err(e) => raw_of(document@) == Err::<RawView, ErrorView>(e@),
            },
    {
        match document {
            TomlValue::Table(entries) => {
                let unknown = find_unknown(entries);
                let before = match &unknown {
                    Some(key) => {
                        proof {
                            lemma_unknown_before_keys(table(entries@), key@);
                        }
                        precedes(key.as_str(), "keys")
                    },
                    None => false,
                };
                if !before && !has_valid_keys(entries) {
                    return Err(ConfigLoadError::BadConfig("`keys` is no table".to_owned()));
                }
                if let Some(key) = unknown {
                    proof {
                        let m = table(entries@);
                        lemma_first_unknown(
                            m,
                            key@,
                            choose|k: Seq<char>| first_unknown(m, k),
                        );
                    }
                    return Err(ConfigLoadError::UnknownField(key));
                }
                Ok(
                    ConfigRaw {
                        theme: copy_key(entries, "theme"),
                        keys: copy_key(entries, "keys"),
                        editor: copy_key(entries, "editor"),
                    },
                )
            },
            _ => Err(ConfigLoadError::BadConfig("expected a table".to_owned())),
        }
    }

    /// A copy of the layer.
    pub fn copy(&self) -> (r: ConfigRaw)
        ensures
            r@ == self@,
    {
        ConfigRaw {
            theme: copy_value(&self.theme),
            keys: copy_value(&self.keys),
            editor: copy_value(&self.editor),
        }
    }
}

// ── Merging layers ───────────────────────────────────────────────────────
/// Layers from lowest to highest priority, merged.
pub open spec fn merged_layers(s: Seq<RawView>) -> ConfigView
    decreases s.len(),
{
    if s.len() == 0 {
        default_config()
    } else {
        let low = merged_layers(s.drop_last());
        let top = s.last();
        ConfigView {
            theme: if top.theme is Some {
                top.theme
            } else {
                low.theme
            },
            keys: match top.keys {
                Some(k) => low.keys.push(k),
                None => low.keys,
            },
            editor: match (low.editor, top.editor) {
                (Some(l), Some(t)) => Some(merge(l, t, 3)),
                (None, t) => t,
                (l, None) => l,
            },
        }
    }
}

impl Config {
    /// Merge config layers from lowest to highest priority.
    ///
    /// * keys go on top of the default keymap in layer order
    /// * `editor` tables are deep-merged (see [`merge_toml_values`])
    /// * `theme` is taken from the highest-priority layer that sets it
    pub fn merge_layers(layers: Vec<ConfigRaw>) -> (r: Config)
        ensures
            r@ == merged_layers(raw_views(layers@)),
    {
        let ghost s = raw_views(layers@);
        let ghost v = layers@;
        let mut rest = layers;
        let mut config = Config::default();
        let ghost mut i: int = 0;
        assert(v.skip(0) =~= v);
        assert(s.take(0) =~= Seq::empty());
        while rest.len() > 0
            invariant
                0 <= i <= v.len(),
                s == raw_views(v),
                rest@ == v.skip(i),
                config@ == merged_layers(s.take(i)),
            decreases rest@.len(),
        {
            let layer = rest.remove(0);
            proof {
                assert(layer == v[i]);
                assert(rest@ =~= v.skip(i + 1));
                assert(s.take(i + 1).drop_last() =~= s.take(i));
                assert(s.take(i + 1).last() == layer@);
            }
            let ghost before = config@;
            if let Some(keys) = layer.keys {
                let ghost k = keys@;
                config.keys.push(keys);
                assert(config@.keys =~= before.keys.push(k));
            }
            if layer.theme.is_some() {
                config.theme = layer.theme;
            }
            if let Some(top) = layer.editor {
                let merged = match config.editor.take() {
                    Some(low) => merge_toml_values(low, top, 3),
                    None => top,
                };
                config.editor = Some(merged);
            }
            proof {
                i = i + 1;
            }
        }
        assert(s.take(i) =~= s);
        config
    }
}

// ── Loading ──────────────────────────────────────────────────────────────
/// The layers that files hold, in their order, or what is wrong with the
/// first file with which something is wrong.
pub open spec fn layers_of(files: Seq<ConfigFile>, explicit: bool) -> Result<
    Seq<RawView>,
    ErrorView,
>
    decreases files.len(),
{
    if files.len() == 0 {
        Ok(Seq::empty())
    } else {
        match layers_of(files.drop_last(), explicit) {
            Err(e) => Err(e),
            Ok(before) => match layer_of(files.last(), explicit) {
                Err(e) => Err(e),
                Ok(None) => Ok(before),
                Ok(Some(raw)) => Ok(before.push(raw)),
            },
        }
    }
}

/// The user's layers, without the workspace's: those of the config
/// directories, and those of explicit files.
pub open spec fn user_layers(dirs: Seq<ConfigFile>, overrides: Seq<ConfigFile>) -> Result<
    (Seq<RawView>, Seq<RawView>),
    ErrorView,
> {
    match layers_of(dirs, false) {
        Err(e) => Err(e),
        Ok(low) => match layers_of(overrides, true) {
            Err(e) => Err(e),
            Ok(high) => Ok((low, high)),
        },
    }
}

/// The setting by which workspaces are trusted.
pub open spec fn trust_setting(c: ConfigView) -> Option<Tree> {
    match c.editor {
        Some(Tree::Table(m)) => field(m, "workspace-trust"@),
        _ => None,
    }
}

/// `c` with the setting by which workspaces are trusted taken from `user`.
pub open spec fn trust_pinned(c: ConfigView, user: ConfigView) -> ConfigView {
    ConfigView {
        editor: match c.editor {
            Some(Tree::Table(m)) => Some(
                Tree::Table(
                    match trust_setting(user) {
                        Some(t) => m.insert("workspace-trust"@, t),
                        None => m.remove("workspace-trust"@),
                    },
                ),
            ),
            other => other,
        },
        ..c
    }
}

/// The configuration: the user's layers, with the workspace's layer between
/// the config directories and the explicit files if the workspace is trusted.
pub open spec fn loaded_config(
    dirs: Seq<ConfigFile>,
    overrides: Seq<ConfigFile>,
    trusted: bool,
    workspace: ConfigFile,
) -> Result<ConfigView, ErrorView> {
    match user_layers(dirs, overrides) {
        Err(e) => Err(e),
        Ok((low, high)) => {
            let user = merged_layers(low + high);
            if trusted {
                match layer_of(workspace, false) {
                    Err(e) => Err(e),
                    Ok(None) => Ok(trust_pinned(user, user)),
                    Ok(Some(raw)) => Ok(trust_pinned(merged_layers(low.push(raw) + high), user)),
                }
            } else {
                Ok(trust_pinned(user, user))
            }
        },
    }
}

/// The first error stands, whatever follows.
proof fn lemma_first_error(files: Seq<ConfigFile>, i: int, explicit: bool)
    requires
        0 <= i < files.len(),
        layers_of(files.take(i), explicit) is Ok,
        layer_of(files[i], explicit) is Err,
    ensures
        layers_of(files, explicit) == Err::<Seq<RawView>, ErrorView>(
            layer_of(files[i], explicit)->Err_0,
        ),
    decreases files.len(),
{
    if i == files.len() - 1 {
        assert(files.drop_last() =~= files.take(i));
    } else {
        let p = files.drop_last();
        assert(p.take(i) =~= files.take(i));
        lemma_first_error(p, i, explicit);
    }
}

impl Config {
    /// Read and parse a single config layer. Missing files are skipped (`Ok(None)`) unless
    /// they were specified explicitly; files that exist but cannot be read or parsed are errors.
    pub fn load_layer(file: &ConfigFile, explicit: bool) -> (r: Result<
        Option<ConfigRaw>,
        ConfigLoadError,
    >)
        ensures
            match r {
                Ok(Some(raw)) => layer_of(*file, explicit) == Ok::<Option<RawView>, ErrorView>(
                    Some(raw@),
                ),
                Ok(None) => layer_of(*file, explicit) == Ok::<Option<RawView>, ErrorView>(None),
                Err(e) => layer_of(*file, explicit) == Err::<Option<RawView>, ErrorView>(e@),
            },
    {
        match &file.text {
            FileText::Read(text) => match parse_document(text.as_str()) {
                Ok(document) => match ConfigRaw::from_document(&document) {
                    Ok(raw) => Ok(Some(raw)),
                    Err(e) => Err(e),
                },
                Err(m) => Err(ConfigLoadError::BadConfig(m)),
            },
            FileText::Missing => {
                if explicit {
                    Err(ConfigLoadError::Missing(file.path.clone()))
                } else {
                    Ok(None)
                }
            },
            FileText::Failed(m) => Err(ConfigLoadError::Error(m.clone())),
        }
    }

    fn load_layers(files: &Vec<ConfigFile>, explicit: bool) -> (r: Result<
        Vec<ConfigRaw>,
        ConfigLoadError,
    >)
        ensures
            match r {
                Ok(layers) => layers_of(files@, explicit) == Ok::<Seq<RawView>, ErrorView>(
                    raw_views(layers@),
                ),
                Err(e) => layers_of(files@, explicit) == Err::<Seq<RawView>, ErrorView>(e@),
            },
    {
        let ghost s = files@;
        let mut out: Vec<ConfigRaw> = Vec::new();
        let mut i: usize = 0;
        assert(s.take(0) =~= Seq::empty());
        assert(raw_views(out@) =~= Seq::empty());
        while i < files.len()
            invariant
                i <= s.len(),
                s == files@,
                layers_of(s.take(i as int), explicit) == Ok::<Seq<RawView>, ErrorView>(
                    raw_views(out@),
                ),
            decreases files@.len() - i,
        {
            assert(s.take(i + 1).drop_last() =~= s.take(i as int));
            assert(s.take(i + 1).last() == s[i as int]);
            match Self::load_layer(&files[i], explicit) {
                Ok(Some(raw)) => {
                    let ghost before = out@;
                    out.push(raw);
                    assert(raw_views(out@) =~= raw_views(before).push(raw@));
                },
                Ok(None) => {},
                Err(e) => {
                    proof {
                        lemma_first_error(s, i as int, explicit);
                    }
                    return Err(e);
                },
            }
            i += 1;
        }
        assert(s.take(i as int) =~= s);
        Ok(out)
    }

    /// The user's configuration, without the workspace's layer. It decides
    /// whether a workspace is trusted.
    pub fn load_user(dirs: &Vec<ConfigFile>, overrides: &Vec<ConfigFile>) -> (r: Result<
        Config,
        ConfigLoadError,
    >)
        ensures
            match r {
                Ok(c) => user_layers(dirs@, overrides@) matches Ok((low, high)) && c@
                    == merged_layers(low + high),
                Err(e) => user_layers(dirs@, overrides@) == Err::<
                    (Seq<RawView>, Seq<RawView>),
                    ErrorView,
                >(e@),
            },
    {
        match Self::load_layers(dirs, false) {
            Err(e) => Err(e),
            Ok(low) => match Self::load_layers(overrides, true) {
                Err(e) => Err(e),
                Ok(high) => Ok(Self::merge_layers(joined_layers(&low, &None, &high))),
            },
        }
    }

    /// The setting by which workspaces are trusted, if it is set.
    pub fn workspace_trust(&self) -> (r: Option<TomlValue>)
        ensures
            tree_of(r) == trust_setting(self@),
    {
        match &self.editor {
            Some(TomlValue::Table(entries)) => copy_key(entries, "workspace-trust"),
            _ => None,
        }
    }

    /// Takes the setting by which workspaces are trusted from the user's
    /// configuration.
    fn pin_trust(self, trust: Option<TomlValue>) -> (r: Config)
        ensures
            r@.theme == self@.theme,
            r@.keys == self@.keys,
            r@.editor == (match self@.editor {
                Some(Tree::Table(m)) => Some(
                    Tree::Table(
                        match tree_of(trust) {
                            Some(t) => m.insert("workspace-trust"@, t),
                            None => m.remove("workspace-trust"@),
                        },
                    ),
                ),
                other => other,
            }),
    {
        let theme = self.theme;
        let keys = self.keys;
        let editor = match self.editor {
            Some(TomlValue::Table(entries)) => {
                let ghost m = table(entries@);
                let (mut rest, _) = remove_key(entries, "workspace-trust");
                let ghost before = rest@;
                if let Some(t) = trust {
                    rest.push(("workspace-trust".to_owned(), t));
                    assert(rest@.drop_last() =~= before);
                    assert(m.remove("workspace-trust"@).insert("workspace-trust"@, t@)
                        =~= m.insert("workspace-trust"@, t@));
                }
                Some(TomlValue::Table(rest))
            },
            other => other,
        };
        Config { theme, keys, editor }
    }

    /// Load the configuration, merging layers from lowest to highest priority:
    ///
    /// 1. `config.toml` inside each config directory (system default, `HELIX_CONFIG_DIR`,
    ///    `--config-dir`); `dirs` holds them in this order
    /// 2. the workspace's `.helix/config.toml`, if the workspace is trusted
    /// 3. explicit files: `HELIX_CONFIG_FILE`, then `--config`
    ///
    /// `editor.workspace-trust` is global/user-scope only: it is taken from
    /// the user-level layers, so that no workspace can have itself, or the
    /// next one, trusted.
    pub fn load_default(
        dirs: &Vec<ConfigFile>,
        overrides: &Vec<ConfigFile>,
        trusted: bool,
        workspace: &ConfigFile,
    ) -> (r: Result<Config, ConfigLoadError>)
        ensures
            match r {
                Ok(c) => loaded_config(dirs@, overrides@, trusted, *workspace) == Ok::<
                    ConfigView,
                    ErrorView,
                >(c@),
                Err(e) => loaded_config(dirs@, overrides@, trusted, *workspace) == Err::<
                    ConfigView,
                    ErrorView,
                >(e@),
            },
    {
        let low = match Self::load_layers(dirs, false) {
            Ok(layers) => layers,
            Err(e) => {
                return Err(e);
            },
        };
        let high = match Self::load_layers(overrides, true) {
            Ok(layers) => layers,
            Err(e) => {
                return Err(e);
            },
        };
        // The workspace-trust gate is driven by the user-level (non-workspace)
        // layers only.
        let user = Self::merge_layers(joined_layers(&low, &None, &high));
        let trust = user.workspace_trust();
        if trusted {
            match Self::load_layer(workspace, false) {
                Err(e) => {
                    return Err(e);
                },
                Ok(None) => {},
                Ok(Some(layer)) => {
                    // The workspace layer sits above the config directories but
                    // below the explicit file overrides.
                    let merged = Self::merge_layers(joined_layers(&low, &Some(layer), &high));
                    return Ok(merged.pin_trust(trust));
                },
            }
        }
        Ok(user.pin_trust(trust))
    }
}

/// Copies layers behind one another.
fn joined_layers(low: &Vec<ConfigRaw>, middle: &Option<ConfigRaw>, high: &Vec<ConfigRaw>) -> (r: Vec<
    ConfigRaw,
>)
    ensures
        raw_views(r@) == (match *middle {
            Some(raw) => raw_views(low@).push(raw@),
            None => raw_views(low@),
        }) + raw_views(high@),
{
    let mut out: Vec<ConfigRaw> = Vec::new();
    add_layers(&mut out, low);
    assert(raw_views(out@) =~= raw_views(low@));
    if let Some(raw) = middle {
        let ghost before = out@;
        out.push(raw.copy());
        assert(raw_views(out@) =~= raw_views(before).push(raw@));
    }
    add_layers(&mut out, high);
    out
}

/// Adds copies of layers.
fn add_layers(out: &mut Vec<ConfigRaw>, layers: &Vec<ConfigRaw>)
    ensures
        raw_views(final(out)@) == raw_views(old(out)@) + raw_views(layers@),
{
    let ghost before = raw_views(out@);
    let ghost s = raw_views(layers@);
    let mut i: usize = 0;
    assert(before + s.take(0) =~= before);
    while i < layers.len()
        invariant
            i <= layers@.len(),
            s == raw_views(layers@),
            raw_views(out@) == before + s.take(i as int),
        decreases layers@.len() - i,
    {
        let ghost so_far = out@;
        out.push(layers[i].copy());
        assert(raw_views(out@) =~= raw_views(so_far).push(s[i as int]));
        assert(before + s.take(i + 1) =~= (before + s.take(i as int)).push(s[i as int]));
        i += 1;
    }
    assert(s.take(i as int) =~= s);
}

// ── Laws ─────────────────────────────────────────────────────────────────
/// The theme is that of the highest layer that sets one.
pub proof fn law_theme(s: Seq<RawView>, i: int)
    requires
        0 <= i < s.len(),
        s[i].theme is Some,
        forall|j: int| i < j < s.len() ==> (#[trigger] s[j]).theme is None,
    ensures
        merged_layers(s).theme == s[i].theme,
    decreases s.len(),
{
    if i < s.len() - 1 {
        assert(s[s.len() - 1].theme is None);
        let p = s.drop_last();
        assert forall|j: int| i < j < p.len() implies (#[trigger] p[j]).theme is None by {
            assert(p[j] == s[j]);
        }
        law_theme(p, i);
    }
}

/// A layer that sets nothing changes nothing.
pub proof fn law_empty_layer(s: Seq<RawView>)
    ensures
        merged_layers(s.push(RawView { theme: None, keys: None, editor: None }))
            == merged_layers(s),
{
    let e = RawView { theme: None, keys: None, editor: None };
    assert(s.push(e).drop_last() =~= s);
}

/// An explicitly specified key wins: what the highest layer sets in the
/// editor's table, neither a table nor an array, has that value in the end.
pub proof fn law_explicit_key_wins(s: Seq<RawView>, k: Seq<char>)
    requires
        s.len() > 0,
        s.last().editor matches Some(Tree::Table(m)) && m.contains_key(k) && !(m[k] is Table)
            && !(m[k] is Array),
    ensures
        merged_layers(s).editor matches Some(Tree::Table(t)) && t.contains_key(k) && t[k]
            == s.last().editor->0->Table_0[k],
{
    if let Some(Tree::Table(low)) = merged_layers(s.drop_last()).editor {
        law_merge_overrides(low[k], s.last().editor->0->Table_0[k], 2);
    }
}

/// Keys that only a lower layer sets are preserved.
pub proof fn law_lower_key_kept(s: Seq<RawView>, k: Seq<char>)
    requires
        s.len() > 0,
        merged_layers(s.drop_last()).editor matches Some(Tree::Table(m)) && m.contains_key(k),
        s.last().editor matches Some(t) ==> t is Table && !t->Table_0.contains_key(k),
    ensures
        merged_layers(s).editor matches Some(Tree::Table(m)) && m.contains_key(k) && m[k]
            == merged_layers(s.drop_last()).editor->0->Table_0[k],
{
}

/// No workspace decides whether workspaces are trusted: that setting is the
/// user's, whatever the workspace's file says.
pub proof fn law_trust_is_the_users(
    dirs: Seq<ConfigFile>,
    overrides: Seq<ConfigFile>,
    trusted: bool,
    workspace: ConfigFile,
)
    requires
        loaded_config(dirs, overrides, trusted, workspace) is Ok,
    ensures
        ({
            let (low, high) = user_layers(dirs, overrides)->Ok_0;
            let c = loaded_config(dirs, overrides, trusted, workspace)->Ok_0;
            c.editor is Some && c.editor->0 is Table ==> trust_setting(c) == trust_setting(
                merged_layers(low + high),
            )
        }),
{
}

/// A workspace that is not trusted has no say.
pub proof fn law_untrusted_workspace(
    dirs: Seq<ConfigFile>,
    overrides: Seq<ConfigFile>,
    a: ConfigFile,
    b: ConfigFile,
)
    ensures
        loaded_config(dirs, overrides, false, a) == loaded_config(dirs, overrides, false, b),
{
}

} // verus!
