//! Layering sources into a built configuration.
use crate::category::{Category, CategoryView, SourceInfo};
use crate::env::{var_views, EnvSource};
use crate::json::{json_error_text, json_parse, JsonStr};
use crate::node::{Node, Tree};
use crate::prov::{leaf_prov_is, Prov};
use crate::schema::{
    document_fits, document_values, field_text, first_unfit_assignment, first_unfit_leaf, option_views, partial_fits, partial_values, read_document,
    read_partial, Leaf, Partial, Schema, SettingView,
};
use crate::toml::{toml_error_text, toml_parse, TomlStr};
use vstd::prelude::*;
use vstd::string::*;

verus! {

/// A source of values supplied whole, as the fields of a partial: what a
/// command-line parser produces. Reports [`Category::Cli`].
pub struct CliSource {
    name: String,
    partial: Partial,
}

impl CliSource {
    pub closed spec fn label(&self) -> Seq<char> {
        self.name@
    }

    pub closed spec fn values(&self) -> Seq<(Seq<char>, SettingView)> {
        self.partial@
    }

    pub fn new(name: &str, partial: Partial) -> (r: CliSource)
        ensures
            r.label() == name@,
            r.values() == partial@,
    {
        CliSource { name: String::from_str(name), partial }
    }

    pub fn name(&self) -> (r: &str)
        ensures
            r@ == self.label(),
    {
        self.name.as_str()
    }

    pub fn category(&self) -> (r: Category)
        ensures
            r == Category::Cli,
    {
        Category::Cli
    }
}

/// A source of the user's own: a document it has already materialised,
/// with its name and category.
pub struct CustomSource {
    name: String,
    category: Category,
    document: Node,
}

impl CustomSource {
    pub closed spec fn label(&self) -> Seq<char> {
        self.name@
    }

    pub closed spec fn kind(&self) -> Category {
        self.category
    }

    pub closed spec fn tree(&self) -> Tree {
        self.document@
    }

    pub fn new(name: &str, category: Category, document: Node) -> (r: CustomSource)
        ensures
            r.label() == name@,
            r.kind() == category,
            r.tree() == document@,
    {
        CustomSource { name: String::from_str(name), category, document }
    }

    pub fn name(&self) -> (r: &str)
        ensures
            r@ == self.label(),
    {
        self.name.as_str()
    }

    pub fn category(&self) -> (r: Category)
        ensures
            r == self.kind(),
    {
        self.category.duplicate()
    }
}

/// A source of configuration values.
pub enum Source {
    Json(JsonStr),
    Toml(TomlStr),
    Env(EnvSource),
    Cli(CliSource),
    Custom(CustomSource),
}

/// A source's name and category.
pub open spec fn source_view(s: Source) -> (Seq<char>, CategoryView) {
    match s {
        Source::Json(j) => (j.label(), CategoryView::File),
        Source::Toml(t) => (t.label(), CategoryView::File),
        Source::Env(e) => (e.label(), CategoryView::Env),
        Source::Cli(c) => (c.label(), CategoryView::Cli),
        Source::Custom(c) => (c.label(), c.kind()@),
    }
}

/// What a document, a struct of `width` tracked fields, gives for every
/// leaf, if it fits them.
pub open spec fn tree_reading(t: Tree, leaves: Seq<Leaf>, width: nat, strict: bool) -> Option<
    Seq<Option<SettingView>>,
> {
    if document_fits(t, leaves, width, strict) {
        Some(document_values(t, leaves, width, strict))
    } else {
        None
    }
}

/// What a source sets for every leaf, given the environment and the number
/// of tracked fields of the configuration struct; `None` where its text does
/// not parse or what it holds does not fit the leaves. A TOML array may be
/// longer than the struct it stands for; any other source's may not.
pub open spec fn source_reading(
    s: Source,
    env: Seq<(Seq<char>, Seq<char>)>,
    leaves: Seq<Leaf>,
    width: nat,
) -> Option<Seq<Option<SettingView>>> {
    match s {
        Source::Json(j) => match json_parse(j.text()) {
            Some(t) => tree_reading(t, leaves, width, true),
            None => None,
        },
        Source::Toml(t) => match toml_parse(t.text()) {
            Some(d) => tree_reading(d, leaves, width, false),
            None => None,
        },
        Source::Env(e) => tree_reading(e.tree(env), leaves, width, true),
        Source::Cli(c) => if partial_fits(c.values(), leaves) {
            Some(partial_values(c.values(), leaves))
        } else {
            None
        },
        Source::Custom(c) => tree_reading(c.tree(), leaves, width, true),
    }
}

/// Whether `m` is the message with which reading a source fails: for a
/// document that parses, or for a partial, the message of the first tracked
/// leaf that does not fit; for a text that does not parse, the parser's
/// message for that text.
pub open spec fn reading_error(
    s: Source,
    env: Seq<(Seq<char>, Seq<char>)>,
    leaves: Seq<Leaf>,
    width: nat,
    m: Seq<char>,
) -> bool {
    match s {
        Source::Json(j) => match json_parse(j.text()) {
            Some(t) => tree_error(t, leaves, width, true, m),
            None => m == json_error_text(j.text()),
        },
        Source::Toml(t) => match toml_parse(t.text()) {
            Some(d) => tree_error(d, leaves, width, false, m),
            None => m == toml_error_text(t.text()),
        },
        Source::Env(e) => tree_error(e.tree(env), leaves, width, true, m),
        Source::Cli(c) => exists|i: int|
            #[trigger] first_unfit_assignment(c.values(), leaves, i) && m == field_text(leaves[i].field@),
        Source::Custom(c) => tree_error(c.tree(), leaves, width, true, m),
    }
}

/// Whether `m` is the message of the first tracked leaf that a document
/// does not fit.
pub open spec fn tree_error(t: Tree, leaves: Seq<Leaf>, width: nat, strict: bool, m: Seq<char>) -> bool {
    exists|i: int| #[trigger] first_unfit_leaf(t, leaves, width, strict, i) && m == field_text(leaves[i].field@)
}

impl Source {
    /// The source's name and category.
    pub fn info(&self) -> (r: SourceInfo)
        ensures
            r@ == source_view(*self),
    {
        match self {
            Source::Json(j) => SourceInfo::new(String::from_str(j.name()), j.category()),
            Source::Toml(t) => SourceInfo::new(String::from_str(t.name()), t.category()),
            Source::Env(e) => SourceInfo::new(String::from_str(e.name()), e.category()),
            Source::Cli(c) => SourceInfo::new(String::from_str(c.name()), c.category()),
            Source::Custom(c) => SourceInfo::new(String::from_str(c.name()), c.category()),
        }
    }

    /// What the source sets for every leaf, or the message of why it cannot.
    pub fn read(&self, env: &Vec<(String, String)>, leaves: &Vec<Leaf>, width: usize) -> (r: Result<
        Vec<Option<crate::schema::Setting>>,
        String,
    >)
        ensures
            r is Ok <==> source_reading(*self, var_views(env@), leaves@, width as nat) is Some,
            r matches Ok(v) ==> Some(option_views(v@)) == source_reading(
                *self,
                var_views(env@),
                leaves@,
                width as nat,
            ),
            r matches Err(m) ==> reading_error(*self, var_views(env@), leaves@, width as nat, m@),
    {
        match self {
            Source::Json(j) => match j.document() {
                Ok(n) => read_document(&n, leaves, width, true),
                Err(m) => Err(m),
            },
            Source::Toml(t) => match t.document() {
                Ok(n) => read_document(&n, leaves, width, false),
                Err(m) => Err(m),
            },
            Source::Env(e) => {
                let n = e.document(env);
                read_document(&n, leaves, width, true)
            },
            Source::Cli(c) => read_partial(&c.partial, leaves),
            Source::Custom(c) => read_document(&c.document, leaves, width, true),
        }
    }
}

/// Why building a configuration, or adding a file, failed.
#[derive(Debug, Clone, PartialEq, Eq)]
pub enum ConfigError {
    /// A source's text did not parse, or what it holds does not fit the
    /// configuration; `source` is the source's name.
    Deserialize { source: String, message: String },
    /// A file could not be read.
    Io { path: String, message: String },
}

/// The text of an error message.
pub open spec fn error_text(e: ConfigError) -> Seq<char> {
    match e {
        ConfigError::Deserialize { source, message } => "failed to deserialize source `"@ + source@
            + "`: "@ + message@,
        ConfigError::Io { path, message } => "failed to read `"@ + path@ + "`: "@ + message@,
    }
}

impl ConfigError {
    /// The message: it names the source or the file, then the cause.
    pub fn message(&self) -> (r: String)
        ensures
            r@ == error_text(*self),
    {
        match self {
            ConfigError::Deserialize { source, message } => {
                let mut m = String::from_str("failed to deserialize source `");
                m.append(source.as_str());
                m.append("`: ");
                m.append(message.as_str());
                m
            },
            ConfigError::Io { path, message } => {
                let mut m = String::from_str("failed to read `");
                m.append(path.as_str());
                m.append("`: ");
                m.append(message.as_str());
                m
            },
        }
    }

    /// The underlying cause's message.
    pub fn cause(&self) -> (r: &str)
        ensures
            r@ == match *self {
                ConfigError::Deserialize { message, .. } => message@,
                ConfigError::Io { message, .. } => message@,
            },
    {
        match self {
            ConfigError::Deserialize { message, .. } => message.as_str(),
            ConfigError::Io { message, .. } => message.as_str(),
        }
    }
}

/// The name and category of every source, in order.
pub open spec fn source_views(sources: Seq<Source>) -> Seq<(Seq<char>, CategoryView)> {
    sources.map_values(|s: Source| source_view(s))
}

/// What every source sets for every leaf, in order.
pub open spec fn source_readings(
    sources: Seq<Source>,
    env: Seq<(Seq<char>, Seq<char>)>,
    leaves: Seq<Leaf>,
    width: nat,
) -> Seq<Seq<Option<SettingView>>> {
    sources.map_values(|s: Source| source_reading(s, env, leaves, width)->Some_0)
}

/// The history that building gives leaf `i`.
pub open spec fn leaf_history(
    sources: Seq<Source>,
    env: Seq<(Seq<char>, Seq<char>)>,
    leaves: Seq<Leaf>,
    width: nat,
    i: int,
) -> Seq<(SettingView, (Seq<char>, CategoryView))> {
    crate::prov::layered(
        leaves[i].default@,
        source_views(sources),
        crate::prov::column(source_readings(sources, env, leaves, width), i),
    )
}

/// Whether an error is a deserialization error of the source named `name`.
pub open spec fn names_source(e: ConfigError, name: Seq<char>) -> bool {
    match e {
        ConfigError::Deserialize { source, .. } => source@ == name,
        _ => false,
    }
}

/// Whether source `j` is the first that cannot be read.
pub open spec fn first_unreadable(
    sources: Seq<Source>,
    env: Seq<(Seq<char>, Seq<char>)>,
    leaves: Seq<Leaf>,
    width: nat,
    j: int,
) -> bool {
    &&& 0 <= j < sources.len()
    &&& source_reading(sources[j], env, leaves, width) is None
    &&& forall|k: int| 0 <= k < j ==> #[trigger] source_reading(sources[k], env, leaves, width) is Some
}

/// Sources in the order they are applied, and the environment that the
/// environment sources read.
pub struct Config {
    sources: Vec<Source>,
    environment: Vec<(String, String)>,
}

impl Config {
    pub closed spec fn sources(&self) -> Seq<Source> {
        self.sources@
    }

    pub closed spec fn environment(&self) -> Seq<(Seq<char>, Seq<char>)> {
        var_views(self.environment@)
    }

    /// No sources and an empty environment.
    pub fn new() -> (r: Config)
        ensures
            r.sources() == Seq::<Source>::empty(),
            r.environment() == Seq::<(Seq<char>, Seq<char>)>::empty(),
    {
        let r = Config { sources: Vec::new(), environment: Vec::new() };
        assert(r.environment() =~= Seq::<(Seq<char>, Seq<char>)>::empty());
        r
    }

    /// The same sources, reading environment variables from `vars`.
    pub fn with_environment(self, vars: Vec<(String, String)>) -> (r: Config)
        ensures
            r.sources() == self.sources(),
            r.environment() == var_views(vars@),
    {
        Config { sources: self.sources, environment: vars }
    }

    /// Adds a source; it is applied after the ones already added.
    pub fn add_source(self, s: Source) -> (r: Config)
        ensures
            r.sources() == self.sources().push(s),
            r.environment() == self.environment(),
    {
        let mut sources = self.sources;
        sources.push(s);
        Config { sources, environment: self.environment }
    }

    /// Adds an in-memory JSON document.
    pub fn add_json_str(self, name: &str, json: &str) -> (r: Config)
        ensures
            r.sources().len() == self.sources().len() + 1,
            r.sources().drop_last() == self.sources(),
            r.sources().last() matches Source::Json(j) && j.label() == name@ && j.text() == json@,
            r.environment() == self.environment(),
    {
        let ghost before = self.sources();
        let r = self.add_source(Source::Json(JsonStr::new(name, json)));
        assert(r.sources().drop_last() =~= before);
        r
    }

    /// Adds an in-memory TOML document.
    pub fn add_toml_str(self, name: &str, toml: &str) -> (r: Config)
        ensures
            r.sources().len() == self.sources().len() + 1,
            r.sources().drop_last() == self.sources(),
            r.sources().last() matches Source::Toml(t) && t.label() == name@ && t.text() == toml@,
            r.environment() == self.environment(),
    {
        let ghost before = self.sources();
        let r = self.add_source(Source::Toml(TomlStr::new(name, toml)));
        assert(r.sources().drop_last() =~= before);
        r
    }

    /// Adds the environment variables that start with `<prefix>_`, as a
    /// source named `env`.
    pub fn add_env(self, prefix: &str) -> (r: Config)
        ensures
            r.sources().len() == self.sources().len() + 1,
            r.sources().drop_last() == self.sources(),
            r.sources().last() matches Source::Env(e) && e.label() == "env"@ && e.prefix()
                == prefix@.push('_') && e.list_keys() == Seq::<Seq<char>>::empty(),
            r.environment() == self.environment(),
    {
        let ghost before = self.sources();
        let r = self.add_source(Source::Env(EnvSource::new("env", prefix)));
        assert(r.sources().drop_last() =~= before);
        r
    }

    /// Adds the environment variables that start with `<prefix>_`, with the
    /// given dotted paths read as comma-separated lists.
    pub fn add_env_with_list_keys(self, prefix: &str, keys: &[&str]) -> (r: Config)
        ensures
            r.sources().len() == self.sources().len() + 1,
            r.sources().drop_last() == self.sources(),
            r.sources().last() matches Source::Env(e) && e.label() == "env"@ && e.prefix()
                == prefix@.push('_') && e.list_keys() == keys@.map_values(
                |k: &str| crate::text::lowercase(k@),
            ),
            r.environment() == self.environment(),
    {
        let ghost before = self.sources();
        let e = EnvSource::new("env", prefix).with_list_keys(keys);
        assert(Seq::<Seq<char>>::empty() + keys@.map_values(|k: &str| crate::text::lowercase(k@))
            =~= keys@.map_values(|k: &str| crate::text::lowercase(k@)));
        let r = self.add_source(Source::Env(e));
        assert(r.sources().drop_last() =~= before);
        r
    }

    /// Adds the values of a partial, as a command-line source named `cli`.
    pub fn add_cli(self, partial: Partial) -> (r: Config)
        ensures
            r.sources().len() == self.sources().len() + 1,
            r.sources().drop_last() == self.sources(),
            r.sources().last() matches Source::Cli(c) && c.label() == "cli"@ && c.values()
                == partial@,
            r.environment() == self.environment(),
    {
        let ghost before = self.sources();
        let r = self.add_source(Source::Cli(CliSource::new("cli", partial)));
        assert(r.sources().drop_last() =~= before);
        r
    }

    /// Adds a JSON file, given the outcome of reading it: its text, or the
    /// message of the failed read, which becomes an `Io` error.
    pub fn add_json_file_contents(self, path: &str, read: Result<String, String>) -> (r: Result<
        Config,
        ConfigError,
    >)
        ensures
            match read {
                Ok(text) => match r {
                    Ok(c) => {
                        &&& c.sources().drop_last() == self.sources()
                        &&& c.sources().len() == self.sources().len() + 1
                        &&& c.sources().last() matches Source::Json(j) && j.label() == path@ && j.text() == text@
                        &&& c.environment() == self.environment()
                    },
                    Err(_) => false,
                },
                Err(m) => match r {
                    Err(ConfigError::Io { path: p, message }) => p@ == path@ && message@ == m@,
                    _ => false,
                },
            },
    {
        match read {
            Ok(text) => Ok(self.add_json_str(path, text.as_str())),
            Err(m) => Err(ConfigError::Io { path: String::from_str(path), message: m }),
        }
    }

    /// Adds a TOML file, given the outcome of reading it: its text, or the
    /// message of the failed read, which becomes an `Io` error.
    pub fn add_toml_file_contents(self, path: &str, read: Result<String, String>) -> (r: Result<
        Config,
        ConfigError,
    >)
        ensures
            match read {
                Ok(text) => match r {
                    Ok(c) => {
                        &&& c.sources().drop_last() == self.sources()
                        &&& c.sources().len() == self.sources().len() + 1
                        &&& c.sources().last() matches Source::Toml(t) && t.label() == path@ && t.text() == text@
                        &&& c.environment() == self.environment()
                    },
                    Err(_) => false,
                },
                Err(m) => match r {
                    Err(ConfigError::Io { path: p, message }) => p@ == path@ && message@ == m@,
                    _ => false,
                },
            },
    {
        match read {
            Ok(text) => Ok(self.add_toml_str(path, text.as_str())),
            Err(m) => Err(ConfigError::Io { path: String::from_str(path), message: m }),
        }
    }

    /// Reads every source in order and layers what each sets over the
    /// schema's defaults. Fails with the first source that cannot be read,
    /// naming it.
    pub fn build(&self, schema: &Schema) -> (r: Result<Prov, ConfigError>)
        ensures
            r is Ok <==> forall|j: int|
                0 <= j < self.sources().len() ==> #[trigger] source_reading(
                    self.sources()[j],
                    self.environment(),
                    schema.leaves(),
                    schema.width(),
                ) is Some,
            r matches Ok(p) ==> {
                &&& p.entries().len() == schema.leaves().len()
                &&& p.wf()
                &&& forall|i: int|
                    0 <= i < schema.leaves().len() ==> leaf_prov_is(
                        #[trigger] p.entries()[i],
                        schema.leaves()[i],
                        source_views(self.sources()),
                        source_readings(self.sources(), self.environment(), schema.leaves(), schema.width()),
                        i,
                    )
            },
            r matches Err(e) ==> exists|j: int|
                #[trigger] first_unreadable(self.sources(), self.environment(), schema.leaves(), schema.width(), j)
                    && names_source(e, source_view(self.sources()[j]).0)
                    && reading_error(self.sources()[j], self.environment(), schema.leaves(), schema.width(), e->Deserialize_message@),
    {
        let leaves = schema.leaf_list();
        let ghost env = self.environment();
        let ghost srcs = self.sources();
        let width = schema.field_count();
        let ghost w = width as nat;
        let mut infos: Vec<SourceInfo> = Vec::new();
        let mut readings: Vec<Vec<Option<crate::schema::Setting>>> = Vec::new();
        let mut j: usize = 0;
        while j < self.sources.len()
            invariant
                j <= self.sources.len(),
                srcs == self.sources(),
                env == self.environment(),
                leaves@ == schema.leaves(),
                w == schema.width(),
                w == width as nat,
                infos@.len() == j,
                readings@.len() == j,
                forall|k: int| 0 <= k < j ==> #[trigger] source_reading(srcs[k], env, leaves@, w) is Some,
                forall|k: int| 0 <= k < j ==> #[trigger] infos@[k]@ == source_view(srcs[k]),
                forall|k: int|
                    0 <= k < j ==> Some(option_views(#[trigger] readings@[k]@)) == source_reading(
                        srcs[k],
                        env,
                        leaves@,
                        w,
                    ),
                forall|k: int| 0 <= k < j ==> #[trigger] readings@[k]@.len() == leaves@.len(),
            decreases self.sources.len() - j,
        {
            let s = &self.sources[j];
            match s.read(&self.environment, leaves, width) {
                Ok(v) => {
                    proof {
                        let rd = source_reading(srcs[j as int], env, leaves@, w)->Some_0;
                        assert(option_views(v@).len() == v@.len());
                        match srcs[j as int] {
                            Source::Cli(c) => assert(rd.len() == leaves@.len()),
                            _ => assert(rd.len() == leaves@.len()),
                        }
                    }
                    let ghost old_r = readings@;
                    let ghost old_i = infos@;
                    readings.push(v);
                    infos.push(s.info());
                    proof {
                        assert forall|k: int| 0 <= k < j + 1 implies #[trigger] readings@[k]@.len() == leaves@.len() by {
                            if k < j {
                                assert(readings@[k] == old_r[k]);
                            }
                        }
                        assert forall|k: int| 0 <= k < j + 1 implies #[trigger] infos@[k]@ == source_view(srcs[k]) by {
                            if k < j {
                                assert(infos@[k] == old_i[k]);
                            }
                        }
                        assert forall|k: int| 0 <= k < j + 1 implies Some(option_views(#[trigger] readings@[k]@)) == source_reading(srcs[k], env, leaves@, w) by {
                            if k < j {
                                assert(readings@[k] == old_r[k]);
                            }
                        }
                    }
                },
                Err(m) => {
                    let info = s.info();
                    let e = ConfigError::Deserialize { source: info.name, message: m };
                    proof {
                        assert(first_unreadable(srcs, env, leaves@, w, j as int));
                    }
                    return Err(e);
                },
            }
            j = j + 1;
        }
        let p = Prov::merge(leaves, &infos, &readings);
        proof {
            assert(infos@.map_values(|s: SourceInfo| s@) =~= srcs.map_values(|s: Source| source_view(s)));
            assert(readings@.map_values(|v: Vec<Option<crate::schema::Setting>>| option_views(v@))
                =~= srcs.map_values(|s: Source| source_reading(s, env, leaves@, w)->Some_0));
        }
        Ok(p)
    }
}

} // verus!
