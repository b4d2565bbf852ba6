//! The shape of a configuration: its leaves, their keys, kinds and defaults;
//! and how a document is read against it.
use crate::node::{entries_of, find_key, first_key_index, lemma_entries_of, lemma_first_key_index, tree_get, tree_of, Node, Tree, string_views};
use crate::text::{chars_of, integer_value, parse_integer, split, split_chars, string_of, trim, trim_chars, join_dotted, join_dotted_strings};
use vstd::prelude::*;
use vstd::string::*;

verus! {

/// The value of one leaf of a configuration.
#[derive(Debug, Clone, PartialEq, Eq)]
pub enum Setting {
    Text(String),
    Bool(bool),
    Int(i128),
    List(Vec<String>),
}

/// The model of a [`Setting`].
pub enum SettingView {
    Text(Seq<char>),
    Bool(bool),
    Int(int),
    List(Seq<Seq<char>>),
}

impl View for Setting {
    type V = SettingView;

    open spec fn view(&self) -> SettingView {
        match self {
            Setting::Text(s) => SettingView::Text(s@),
            Setting::Bool(b) => SettingView::Bool(*b),
            Setting::Int(i) => SettingView::Int(*i as int),
            Setting::List(v) => SettingView::List(string_views(v@)),
        }
    }
}

pub fn copy_strings(v: &Vec<String>) -> (r: Vec<String>)
    ensures
        string_views(r@) == string_views(v@),
{
    let mut r: Vec<String> = Vec::new();
    let mut i: usize = 0;
    while i < v.len()
        invariant
            i <= v.len(),
            string_views(r@) == string_views(v@.take(i as int)),
        decreases v.len() - i,
    {
        let ghost old_r = r@;
        r.push(v[i].clone());
        assert(string_views(r@) =~= string_views(old_r).push(v@[i as int]@));
        assert(v@.take(i + 1) =~= v@.take(i as int).push(v@[i as int]));
        assert(string_views(v@.take(i + 1)) =~= string_views(v@.take(i as int)).push(
            v@[i as int]@,
        ));
        i = i + 1;
    }
    assert(v@.take(v.len() as int) =~= v@);
    r
}

impl Setting {
    /// A copy with the same model.
    pub fn duplicate(&self) -> (r: Setting)
        ensures
            r@ == self@,
    {
        match self {
            Setting::Text(s) => Setting::Text(s.clone()),
            Setting::Bool(b) => Setting::Bool(*b),
            Setting::Int(i) => Setting::Int(*i),
            Setting::List(v) => Setting::List(copy_strings(v)),
        }
    }
}

/// What a leaf holds: the Rust type of the field it stands for.
#[derive(Debug, Clone, Copy, PartialEq, Eq)]
pub enum LeafKind {
    Text,
    Bool,
    U8,
    U16,
    U32,
    U64,
    I8,
    I16,
    I32,
    I64,
    USize,
    ISize,
    /// A single character, given as a text of exactly one character.
    Char,
    TextList,
}

/// The range of an integer kind.
pub open spec fn int_range(k: LeafKind) -> Option<(int, int)> {
    match k {
        LeafKind::U8 => Some((0, 0xff)),
        LeafKind::U16 => Some((0, 0xffff)),
        LeafKind::U32 => Some((0, 0xffff_ffff)),
        LeafKind::U64 => Some((0, 0xffff_ffff_ffff_ffff)),
        LeafKind::I8 => Some((-0x80, 0x7f)),
        LeafKind::I16 => Some((-0x8000, 0x7fff)),
        LeafKind::I32 => Some((-0x8000_0000, 0x7fff_ffff)),
        LeafKind::I64 => Some((-0x8000_0000_0000_0000, 0x7fff_ffff_ffff_ffff)),
        LeafKind::USize => Some((0, usize::MAX as int)),
        LeafKind::ISize => Some((isize::MIN as int, isize::MAX as int)),
        _ => None,
    }
}

fn int_bounds(k: LeafKind) -> (r: Option<(i128, i128)>)
    ensures
        match int_range(k) {
            Some((lo, hi)) => r == Some((lo as i128, hi as i128)),
            None => r is None,
        },
{
    match k {
        LeafKind::U8 => Some((0, 0xff)),
        LeafKind::U16 => Some((0, 0xffff)),
        LeafKind::U32 => Some((0, 0xffff_ffff)),
        LeafKind::U64 => Some((0, 0xffff_ffff_ffff_ffff)),
        LeafKind::I8 => Some((-0x80, 0x7f)),
        LeafKind::I16 => Some((-0x8000, 0x7fff)),
        LeafKind::I32 => Some((-0x8000_0000, 0x7fff_ffff)),
        LeafKind::I64 => Some((-0x8000_0000_0000_0000, 0x7fff_ffff_ffff_ffff)),
        LeafKind::USize => Some((0, usize::MAX as i128)),
        LeafKind::ISize => Some((isize::MIN as i128, isize::MAX as i128)),
        _ => None,
    }
}

/// A comma-separated list: the pieces between commas, each trimmed; no
/// pieces for an empty text.
pub open spec fn comma_list(s: Seq<char>) -> Seq<Seq<char>> {
    if s.len() == 0 {
        Seq::empty()
    } else {
        split(s, seq![',']).map_values(|p: Seq<char>| trim(p))
    }
}

/// Whether every item of an array is text.
pub open spec fn all_text(items: Seq<Tree>) -> bool {
    forall|i: int| 0 <= i < items.len() ==> #[trigger] items[i] is Text
}

pub open spec fn texts_of(items: Seq<Tree>) -> Seq<Seq<char>> {
    items.map_values(|t: Tree| t->Text_0)
}

/// The setting that a node holds for a leaf of kind `kind`, or `None` where
/// the node does not hold one of that kind. A list accepts an array of texts
/// and, for a field marked `env_list`, also a comma-separated text.
pub open spec fn convert(t: Tree, kind: LeafKind, env_list: bool) -> Option<SettingView> {
    match kind {
        LeafKind::Text => match t {
            Tree::Text(s) => Some(SettingView::Text(s)),
            _ => None,
        },
        LeafKind::Bool => match t {
            Tree::Bool(b) => Some(SettingView::Bool(b)),
            _ => None,
        },
        LeafKind::Char => match t {
            Tree::Text(s) => if s.len() == 1 {
                Some(SettingView::Text(s))
            } else {
                None
            },
            _ => None,
        },
        LeafKind::TextList => match t {
            Tree::Array(items) => if all_text(items) {
                Some(SettingView::List(texts_of(items)))
            } else {
                None
            },
            Tree::Text(s) => if env_list {
                Some(SettingView::List(comma_list(s)))
            } else {
                None
            },
            _ => None,
        },
        _ => match t {
            Tree::Number(n) => match (integer_value(n), int_range(kind)) {
                (Some(v), Some((lo, hi))) => if lo <= v <= hi {
                    Some(SettingView::Int(v))
                } else {
                    None
                },
                _ => None,
            },
            _ => None,
        },
    }
}

/// A field's key in a document, and for a renamed field whose new name is
/// not lower case, the lower-case alias that also matches it. A struct may
/// also be given as an array of its tracked fields in order, so the key also
/// holds the field's position there, and for a nested section, how many
/// tracked fields the struct under it has.
#[derive(Debug, Clone, PartialEq, Eq)]
pub struct Key {
    pub name: String,
    pub alias: Option<String>,
    pub index: usize,
    pub inner: usize,
}

/// The model of a [`Key`]: name, alias, position, and width of the struct
/// under it.
pub type KeyView = (Seq<char>, Option<Seq<char>>, nat, nat);

impl View for Key {
    type V = KeyView;

    open spec fn view(&self) -> KeyView {
        (
            self.name@,
            match self.alias {
                Some(a) => Some(a@),
                None => None,
            },
            self.index as nat,
            self.inner as nat,
        )
    }
}

pub open spec fn key_views(keys: Seq<Key>) -> Seq<KeyView> {
    keys.map_values(|k: Key| k@)
}

/// The entry of an object under a key: the key's name, or else its alias;
/// `Err` where the object holds both, the same field given twice.
pub open spec fn key_lookup(es: Seq<(Seq<char>, Tree)>, key: KeyView) -> Result<Option<Tree>, ()> {
    match key.1 {
        Some(a) => match (tree_get(es, key.0), tree_get(es, a)) {
            (Some(_), Some(_)) => Err(()),
            (Some(t), None) => Ok(Some(t)),
            (None, o) => Ok(o),
        },
        None => Ok(tree_get(es, key.0)),
    }
}

/// The node that a struct, given as an object or as an array, holds for a
/// field: by key in an object, by position in an array. An array longer
/// than the struct's `width` tracked fields is refused where `strict`;
/// anything else is no struct.
pub open spec fn child_at(t: Tree, key: KeyView, width: nat, strict: bool) -> Result<Option<Tree>, ()> {
    match t {
        Tree::Object(es) => key_lookup(es, key),
        Tree::Array(items) => if strict && items.len() > width {
            Err(())
        } else if key.2 < items.len() {
            Ok(Some(items[key.2 as int]))
        } else {
            Ok(None)
        },
        _ => Err(()),
    }
}

/// The node at a key path inside a struct of `width` tracked fields.
/// `Ok(None)` where a field is absent or holds null (an unset optional
/// field, or an unset nested section); `Err` where a struct on the way is
/// something else or does not fit.
pub open spec fn walk(t: Tree, keys: Seq<KeyView>, width: nat, strict: bool) -> Result<Option<Tree>, ()>
    decreases keys.len(),
{
    if keys.len() == 0 {
        Ok(None)
    } else {
        match child_at(t, keys[0], width, strict) {
            Err(()) => Err(()),
            Ok(None) => Ok(None),
            Ok(Some(Tree::Null)) => Ok(None),
            Ok(Some(c)) => if keys.len() == 1 {
                Ok(Some(c))
            } else {
                walk(c, keys.drop_first(), keys[0].3, strict)
            },
        }
    }
}

/// One leaf of a schema.
#[derive(Debug, Clone, PartialEq, Eq)]
pub struct Leaf {
    /// The dotted path of Rust field names, by which the leaf is looked up.
    pub field: String,
    /// The keys that lead to the leaf in a document.
    pub keys: Vec<Key>,
    pub kind: LeafKind,
    /// The compiled-in default.
    pub default: Setting,
    /// Whether user interfaces should redact the value.
    pub secret: bool,
    /// Whether a comma-separated text is accepted for a list.
    pub env_list: bool,
    /// Whether the leaf is left out of everything but the plain record,
    /// which gets its default.
    pub skip: bool,
}

impl Leaf {
    pub open spec fn key_path(&self) -> Seq<KeyView> {
        key_views(self.keys@)
    }

    /// The dotted path of the leaf's keys, as `sources_map` and `walk_leaves`
    /// name it.
    pub open spec fn dotted_key(&self) -> Seq<char> {
        join_dotted(self.keys@.map_values(|k: Key| k.name@))
    }
}

/// What a document gives for a leaf, the document being a struct of
/// `width` tracked fields: `Ok(None)` where it does not set it, `Ok(Some(v))`
/// where it sets it to `v`, `Err` where what it holds there does not fit the
/// leaf.
pub open spec fn leaf_reading(doc: Tree, leaf: Leaf, width: nat, strict: bool) -> Result<Option<SettingView>, ()> {
    match walk(doc, leaf.key_path(), width, strict) {
        Err(()) => Err(()),
        Ok(None) => Ok(None),
        Ok(Some(t)) => match convert(t, leaf.kind, leaf.env_list) {
            Some(v) => Ok(Some(v)),
            None => Err(()),
        },
    }
}

/// Whether a document fits every tracked leaf.
pub open spec fn document_fits(doc: Tree, leaves: Seq<Leaf>, width: nat, strict: bool) -> bool {
    forall|i: int|
        0 <= i < leaves.len() && !leaves[i].skip ==> #[trigger] leaf_reading(doc, leaves[i], width, strict) is Ok
}

/// What a document sets, leaf by leaf (nothing for a skipped leaf).
pub open spec fn document_values(doc: Tree, leaves: Seq<Leaf>, width: nat, strict: bool) -> Seq<Option<SettingView>> {
    Seq::new(
        leaves.len(),
        |i: int|
            if leaves[i].skip {
                None
            } else {
                match leaf_reading(doc, leaves[i], width, strict) {
                    Ok(o) => o,
                    Err(_) => None,
                }
            },
    )
}

pub open spec fn option_views(v: Seq<Option<Setting>>) -> Seq<Option<SettingView>> {
    v.map_values(|o: Option<Setting>| match o {
        Some(s) => Some(s@),
        None => None,
    })
}

/// Reads a comma-separated text into a list, as `comma_list` says.
pub fn deserialize_env_list(s: &String) -> (r: Vec<String>)
    ensures
        string_views(r@) == comma_list(s@),
{
    let mut r: Vec<String> = Vec::new();
    if s.as_str().unicode_len() == 0 {
        assert(string_views(r@) =~= comma_list(s@));
        return r;
    }
    let sc = chars_of(s.as_str());
    let mut comma: Vec<char> = Vec::new();
    comma.push(',');
    assert(comma@ =~= seq![',']);
    let pieces = split_chars(&sc, &comma);
    let ghost want = comma_list(s@);
    let ghost pv = pieces@.map_values(|p: Vec<char>| p@);
    let mut j: usize = 0;
    while j < pieces.len()
        invariant
            j <= pieces.len(),
            pv == pieces@.map_values(|p: Vec<char>| p@),
            pv == split(s@, seq![',']),
            want == pv.map_values(|p: Seq<char>| trim(p)),
            string_views(r@) == want.take(j as int),
        decreases pieces.len() - j,
    {
        let t = trim_chars(&pieces[j]);
        let piece = string_of(&t);
        let ghost old_r = r@;
        r.push(piece);
        assert(string_views(r@) =~= string_views(old_r).push(piece@));
        assert(want.take(j + 1) =~= want.take(j as int).push(want[j as int]));
        j = j + 1;
    }
    assert(want.take(pieces.len() as int) =~= want);
    r
}

/// The setting a node holds for a leaf of kind `kind`, as `convert` says.
pub fn convert_node(n: &Node, kind: LeafKind, env_list: bool) -> (r: Option<Setting>)
    ensures
        match r {
            Some(v) => convert(n@, kind, env_list) == Some(v@),
            None => convert(n@, kind, env_list) is None,
        },
{
    match kind {
        LeafKind::Text => match n {
            Node::Text(s) => Some(Setting::Text(s.clone())),
            _ => None,
        },
        LeafKind::Bool => match n {
            Node::Bool(b) => Some(Setting::Bool(*b)),
            _ => None,
        },
        LeafKind::Char => match n {
            Node::Text(s) => if s.as_str().unicode_len() == 1 {
                Some(Setting::Text(s.clone()))
            } else {
                None
            },
            _ => None,
        },
        LeafKind::TextList => match n {
            Node::Array(items) => {
                let ghost tv = n@->Array_0;
                proof {
                    crate::node::lemma_trees_of(items@);
                }
                let mut out: Vec<String> = Vec::new();
                let mut i: usize = 0;
                while i < items.len()
                    invariant
                        i <= items.len(),
                        tv == crate::node::trees_of(items@),
                        n@ == Tree::Array(tv),
                        kind == LeafKind::TextList,
                        tv.len() == items@.len(),
                        forall|j: int| 0 <= j < items@.len() ==> #[trigger] tv[j] == tree_of(items@[j]),
                        forall|j: int| 0 <= j < i ==> #[trigger] tv[j] is Text,
                        string_views(out@) == texts_of(tv.take(i as int)),
                    decreases items.len() - i,
                {
                    match &items[i] {
                        Node::Text(s) => {
                            let ghost old_out = out@;
                            out.push(s.clone());
                            assert(string_views(out@) =~= string_views(old_out).push(s@));
                            assert(tv.take(i + 1) =~= tv.take(i as int).push(tv[i as int]));
                            assert(texts_of(tv.take(i + 1)) =~= texts_of(tv.take(i as int)).push(s@));
                        },
                        _ => {
                            assert(!(tv[i as int] is Text));
                            assert(!all_text(tv));
                            return None;
                        },
                    }
                    i = i + 1;
                }
                assert(tv.take(items.len() as int) =~= tv);
                Some(Setting::List(out))
            },
            Node::Text(s) => if env_list {
                Some(Setting::List(deserialize_env_list(s)))
            } else {
                None
            },
            _ => None,
        },
        _ => match n {
            Node::Number(t) => {
                let b = int_bounds(kind);
                match b {
                    Some((lo, hi)) => {
                        let tc = chars_of(t.as_str());
                        match parse_integer(&tc, lo, hi) {
                            Some(v) => Some(Setting::Int(v)),
                            None => None,
                        }
                    },
                    None => None,
                }
            },
            _ => None,
        },
    }
}

/// The entry of an object under a key, as `key_lookup` says.
fn lookup_key<'a>(es: &'a Vec<(String, Node)>, key: &Key) -> (r: Result<Option<&'a Node>, ()>)
    ensures
        match r {
            Ok(Some(n)) => key_lookup(entries_of(es@), key@) == Ok::<Option<Tree>, ()>(Some(n@)),
            Ok(None) => key_lookup(entries_of(es@), key@) == Ok::<Option<Tree>, ()>(None),
            Err(()) => key_lookup(entries_of(es@), key@) is Err,
        },
{
    proof {
        lemma_entries_of(es@);
        lemma_first_key_index(entries_of(es@), key.name@);
        if key.alias is Some {
            lemma_first_key_index(entries_of(es@), key.alias->0@);
        }
    }
    let by_name = find_key(es, &key.name);
    let by_alias = match &key.alias {
        Some(a) => find_key(es, a),
        None => None,
    };
    match (by_name, by_alias) {
        (Some(_), Some(_)) => Err(()),
        (Some(i), None) => Ok(Some(&es[i].1)),
        (None, Some(j)) => Ok(Some(&es[j].1)),
        (None, None) => Ok(None),
    }
}

/// The node that a struct holds for a field, as `child_at` says.
fn child_node<'a>(n: &'a Node, key: &Key, width: usize, strict: bool) -> (r: Result<Option<&'a Node>, ()>)
    ensures
        match r {
            Ok(Some(c)) => child_at(n@, key@, width as nat, strict) == Ok::<Option<Tree>, ()>(Some(c@)),
            Ok(None) => child_at(n@, key@, width as nat, strict) == Ok::<Option<Tree>, ()>(None),
            Err(()) => child_at(n@, key@, width as nat, strict) is Err,
        },
{
    match n {
        Node::Object(es) => lookup_key(es, key),
        Node::Array(items) => {
            proof {
                crate::node::lemma_trees_of(items@);
            }
            if strict && items.len() > width {
                Err(())
            } else if key.index < items.len() {
                Ok(Some(&items[key.index]))
            } else {
                Ok(None)
            }
        },
        _ => Err(()),
    }
}

/// What a document gives for a leaf, as `leaf_reading` says.
pub fn read_leaf(doc: &Node, leaf: &Leaf, width: usize, strict: bool) -> (r: Result<Option<Setting>, ()>)
    ensures
        match r {
            Ok(Some(v)) => leaf_reading(doc@, *leaf, width as nat, strict) == Ok::<Option<SettingView>, ()>(Some(v@)),
            Ok(None) => leaf_reading(doc@, *leaf, width as nat, strict) == Ok::<Option<SettingView>, ()>(None),
            Err(()) => leaf_reading(doc@, *leaf, width as nat, strict) is Err,
        },
{
    let ghost path = leaf.key_path();
    if leaf.keys.len() == 0 {
        return Ok(None);
    }
    let mut cur: &Node = doc;
    let mut w: usize = width;
    let mut i: usize = 0;
    assert(path.skip(0) =~= path);
    loop
        invariant
            i < leaf.keys.len(),
            path == leaf.key_path(),
            path.len() == leaf.keys@.len(),
            walk(doc@, path, width as nat, strict) == walk(cur@, path.skip(i as int), w as nat, strict),
        decreases leaf.keys.len() - i,
    {
        let ghost rest = path.skip(i as int);
        assert(rest[0] == leaf.keys@[i as int]@);
        assert(rest.drop_first() =~= path.skip(i + 1));
        match child_node(cur, &leaf.keys[i], w, strict) {
            Err(()) => {
                return Err(());
            },
            Ok(None) => {
                return Ok(None);
            },
            Ok(Some(n)) => {
                match n {
                    Node::Null => {
                        return Ok(None);
                    },
                    _ => {},
                }
                if i + 1 == leaf.keys.len() {
                    return match convert_node(n, leaf.kind, leaf.env_list) {
                        Some(v) => Ok(Some(v)),
                        None => Err(()),
                    };
                }
                w = leaf.keys[i].inner;
                cur = n;
                i = i + 1;
            },
        }
    }
}

/// Whether a setting is of a leaf kind.
pub open spec fn fits(kind: LeafKind, v: SettingView) -> bool {
    match kind {
        LeafKind::Text => v is Text,
        LeafKind::Bool => v is Bool,
        LeafKind::Char => v matches SettingView::Text(s) && s.len() == 1,
        LeafKind::TextList => v is List,
        _ => match (v, int_range(kind)) {
            (SettingView::Int(i), Some((lo, hi))) => lo <= i <= hi,
            _ => false,
        },
    }
}

pub fn setting_fits(kind: LeafKind, v: &Setting) -> (r: bool)
    ensures
        r == fits(kind, v@),
{
    match kind {
        LeafKind::Text => matches!(v, Setting::Text(_)),
        LeafKind::Bool => matches!(v, Setting::Bool(_)),
        LeafKind::Char => match v {
            Setting::Text(s) => s.as_str().unicode_len() == 1,
            _ => false,
        },
        LeafKind::TextList => matches!(v, Setting::List(_)),
        _ => match v {
            Setting::Int(i) => match int_bounds(kind) {
                Some((lo, hi)) => lo <= *i && *i <= hi,
                None => false,
            },
            _ => false,
        },
    }
}

/// The value under `k` in a list of field assignments: the last one made.
pub open spec fn assigned(es: Seq<(Seq<char>, SettingView)>, k: Seq<char>) -> Option<SettingView>
    decreases es.len(),
{
    if es.len() == 0 {
        None
    } else if es.last().0 == k {
        Some(es.last().1)
    } else {
        assigned(es.drop_last(), k)
    }
}

/// Values assigned to fields by their dotted Rust path (`"database.port"`):
/// what a CLI parser produces, and also the plain record of a whole
/// configuration.
#[derive(Debug, Clone, PartialEq, Eq)]
pub struct Partial {
    entries: Vec<(String, Setting)>,
}

impl View for Partial {
    type V = Seq<(Seq<char>, SettingView)>;

    closed spec fn view(&self) -> Seq<(Seq<char>, SettingView)> {
        self.entries@.map_values(|e: (String, Setting)| (e.0@, e.1@))
    }
}

impl Partial {
    /// No field assigned.
    pub fn new() -> (r: Partial)
        ensures
            r@ == Seq::<(Seq<char>, SettingView)>::empty(),
    {
        let r = Partial { entries: Vec::new() };
        assert(r@ =~= Seq::<(Seq<char>, SettingView)>::empty());
        r
    }

    /// The same assignments and then `field` set to `value`.
    pub fn with(self, field: &str, value: Setting) -> (r: Partial)
        ensures
            r@ == self@.push((field@, value@)),
    {
        let ghost old_v = self@;
        let mut entries = self.entries;
        let f = String::from_str(field);
        let ghost fv = f@;
        let ghost vv = value@;
        entries.push((f, value));
        let r = Partial { entries };
        assert(r@ =~= old_v.push((fv, vv)));
        r
    }

    /// The value assigned to `field`, if any.
    pub fn get(&self, field: &str) -> (r: Option<&Setting>)
        ensures
            match r {
                Some(v) => assigned(self@, field@) == Some(v@),
                None => assigned(self@, field@) is None,
            },
    {
        let f = String::from_str(field);
        let mut i = self.entries.len();
        assert(self@.take(i as int) =~= self@);
        while i > 0
            invariant
                i <= self.entries.len(),
                assigned(self@, field@) == assigned(self@.take(i as int), field@),
                f@ == field@,
                self@.len() == self.entries@.len(),
            decreases i,
        {
            assert(self@.take(i as int).drop_last() =~= self@.take(i - 1));
            assert(self@.take(i as int).last() == (self.entries@[i - 1].0@, self.entries@[i - 1].1@));
            if self.entries[i - 1].0 == f {
                return Some(&self.entries[i - 1].1);
            }
            i = i - 1;
        }
        None
    }
}

/// A field of a configuration struct, to be added to a [`Schema`].
pub struct Field {
    leaf: Leaf,
}

impl Field {
    pub closed spec fn leaf(&self) -> Leaf {
        self.leaf
    }

    #[verifier::type_invariant]
    closed spec fn one_key(&self) -> bool {
        self.leaf.keys@.len() == 1
    }

    /// A plain field: named `name` in documents, holding `kind`, with
    /// `default` as its compiled-in value.
    pub fn new(name: &str, kind: LeafKind, default: Setting) -> (r: Field)
        ensures
            r.leaf().field@ == name@,
            r.leaf().key_path() == seq![(name@, None::<Seq<char>>, 0nat, 0nat)],
            r.leaf().keys@.len() == 1,
            r.leaf().kind == kind,
            r.leaf().default == default,
            !r.leaf().secret,
            !r.leaf().env_list,
            !r.leaf().skip,
    {
        let mut keys: Vec<Key> = Vec::new();
        keys.push(Key { name: String::from_str(name), alias: None, index: 0, inner: 0 });
        let leaf = Leaf {
            field: String::from_str(name),
            keys,
            kind,
            default,
            secret: false,
            env_list: false,
            skip: false,
        };
        assert(leaf.key_path() =~= seq![(name@, None::<Seq<char>>, 0nat, 0nat)]);
        Field { leaf }
    }

    /// Marks the field as secret: user interfaces should redact it.
    pub fn secret(self) -> (r: Field)
        ensures
            r.leaf() == (Leaf { secret: true, ..self.leaf() }),
    {
        proof {
            use_type_invariant(&self);
        }
        Field { leaf: Leaf { secret: true, ..self.leaf } }
    }

    /// Lets a list field take a comma-separated text as well as an array.
    pub fn env_list(self) -> (r: Field)
        ensures
            r.leaf() == (Leaf { env_list: true, ..self.leaf() }),
    {
        proof {
            use_type_invariant(&self);
        }
        Field { leaf: Leaf { env_list: true, ..self.leaf } }
    }

    /// Keeps the field out of everything but the plain record, where it gets
    /// its default.
    pub fn skip(self) -> (r: Field)
        ensures
            r.leaf() == (Leaf { skip: true, ..self.leaf() }),
    {
        proof {
            use_type_invariant(&self);
        }
        Field { leaf: Leaf { skip: true, ..self.leaf } }
    }

    /// Names the field `rename` in documents, verbatim; where `rename` is not
    /// lower case, its lower-case form is accepted too (for environment
    /// variables, whose segments are lower-cased).
    pub fn rename(self, rename: &str) -> (r: Field)
        ensures
            r.leaf().field == self.leaf().field,
            r.leaf().kind == self.leaf().kind,
            r.leaf().default == self.leaf().default,
            r.leaf().secret == self.leaf().secret,
            r.leaf().env_list == self.leaf().env_list,
            r.leaf().skip == self.leaf().skip,
            r.leaf().keys@.len() == 1,
            r.leaf().key_path() == seq![
                (
                    rename@,
                    if crate::text::lowercase(rename@) == rename@ {
                        None
                    } else {
                        Some(crate::text::lowercase(rename@))
                    },
                    0nat,
                    0nat,
                ),
            ],
    {
        let lc = crate::text::to_lowercase(rename);
        let alias = if lc == String::from_str(rename) {
            None
        } else {
            Some(lc)
        };
        let mut keys: Vec<Key> = Vec::new();
        keys.push(Key { name: String::from_str(rename), alias, index: 0, inner: 0 });
        let leaf = Leaf { keys, ..self.leaf };
        assert(leaf.key_path() =~= seq![
            (
                rename@,
                if crate::text::lowercase(rename@) == rename@ {
                    None
                } else {
                    Some(crate::text::lowercase(rename@))
                },
                0nat,
                0nat,
            ),
        ]);
        Field { leaf }
    }
}

/// The leaves of a configuration struct, nested sections flattened, in the
/// order of the fields; and how many tracked fields the struct itself has.
pub struct Schema {
    leaves: Vec<Leaf>,
    width: usize,
}

/// The leaf `sub` as it stands inside a section whose field is named `name`
/// and whose key in documents is `key`; a leaf of a skipped section is
/// skipped.
pub open spec fn leaf_under(name: Seq<char>, key: KeyView, skip: bool, sub: Leaf, r: Leaf) -> bool {
    &&& r.field@ == name + seq!['.'] + sub.field@
    &&& r.key_path() == seq![key] + sub.key_path()
    &&& r.keys@.map_values(|k: Key| k.name@) == seq![key.0] + sub.keys@.map_values(|k: Key| k.name@)
    &&& r.kind == sub.kind
    &&& r.default@ == sub.default@
    &&& r.secret == sub.secret
    &&& r.env_list == sub.env_list
    &&& r.skip == (sub.skip || skip)
}

/// A nested section of a configuration struct, to be added to a [`Schema`]
/// with the struct's own schema.
pub struct Section {
    name: String,
    key: String,
    alias: Option<String>,
    skip: bool,
}

impl Section {
    /// The section's field name.
    pub closed spec fn name(&self) -> Seq<char> {
        self.name@
    }

    /// The section's key in documents, and the alias that also matches it.
    pub closed spec fn key(&self) -> (Seq<char>, Option<Seq<char>>) {
        (
            self.key@,
            match self.alias {
                Some(a) => Some(a@),
                None => None,
            },
        )
    }

    /// Whether the section is skipped.
    pub closed spec fn skipped(&self) -> bool {
        self.skip
    }

    /// A section named `name`, in documents as in the struct.
    pub fn new(name: &str) -> (r: Section)
        ensures
            r.name() == name@,
            r.key() == (name@, None::<Seq<char>>),
            !r.skipped(),
    {
        Section { name: String::from_str(name), key: String::from_str(name), alias: None, skip: false }
    }

    /// Names the section `rename` in documents, verbatim; where `rename` is
    /// not lower case, its lower-case form is accepted too.
    pub fn rename(self, rename: &str) -> (r: Section)
        ensures
            r.name() == self.name(),
            r.skipped() == self.skipped(),
            r.key() == (
                rename@,
                if crate::text::lowercase(rename@) == rename@ {
                    None
                } else {
                    Some(crate::text::lowercase(rename@))
                },
            ),
    {
        let lc = crate::text::to_lowercase(rename);
        let alias = if lc == String::from_str(rename) {
            None
        } else {
            Some(lc)
        };
        Section { key: String::from_str(rename), alias, ..self }
    }

    /// Keeps the section's fields out of everything but the plain record,
    /// where they get their defaults.
    pub fn skip(self) -> (r: Section)
        ensures
            r.name() == self.name(),
            r.key() == self.key(),
            r.skipped(),
    {
        Section { skip: true, ..self }
    }
}

/// The leaf `l` placed as tracked field `index` of its struct.
pub open spec fn placed(l: Leaf, index: nat, r: Leaf) -> bool {
    &&& r.field == l.field
    &&& r.kind == l.kind
    &&& r.default == l.default
    &&& r.secret == l.secret
    &&& r.env_list == l.env_list
    &&& r.skip == l.skip
    &&& r.keys@.map_values(|k: Key| k.name@) == l.keys@.map_values(|k: Key| k.name@)
    &&& r.key_path() == l.key_path().update(0, (l.key_path()[0].0, l.key_path()[0].1, index, l.key_path()[0].3))
}

impl Schema {
    pub closed spec fn leaves(&self) -> Seq<Leaf> {
        self.leaves@
    }

    /// How many tracked fields the struct has: its position count when it
    /// is given as an array.
    pub closed spec fn width(&self) -> nat {
        self.width as nat
    }

    /// A schema with no fields.
    pub fn new() -> (r: Schema)
        ensures
            r.leaves() == Seq::<Leaf>::empty(),
            r.width() == 0,
    {
        Schema { leaves: Vec::new(), width: 0 }
    }

    /// The number of tracked fields, as `width` says.
    pub fn field_count(&self) -> (r: usize)
        ensures
            r == self.width(),
    {
        self.width
    }

    /// The schema with one more field; a tracked one takes the next
    /// position.
    pub fn field(self, f: Field) -> (r: Schema)
        requires
            self.width() < usize::MAX,
        ensures
            r.leaves().len() == self.leaves().len() + 1,
            forall|i: int| 0 <= i < self.leaves().len() ==> #[trigger] r.leaves()[i] == self.leaves()[i],
            f.leaf().skip ==> r.leaves().last() == f.leaf() && r.width() == self.width(),
            !f.leaf().skip ==> placed(f.leaf(), self.width(), r.leaves().last()) && r.width() == self.width() + 1,
    {
        proof {
            use_type_invariant(&f);
        }
        let mut leaves = self.leaves;
        let ghost old_leaves = leaves@;
        let fl = f.leaf;
        if fl.skip {
            leaves.push(fl);
            Schema { leaves, width: self.width }
        } else {
            let k0 = &fl.keys[0];
            let nk = Key {
                name: k0.name.clone(),
                alias: match &k0.alias {
                    Some(a) => Some(a.clone()),
                    None => None,
                },
                index: self.width,
                inner: k0.inner,
            };
            let ghost fk = fl.key_path();
            let mut keys: Vec<Key> = Vec::new();
            keys.push(nk);
            assert(key_views(keys@) =~= fk.update(0, (fk[0].0, fk[0].1, self.width as nat, fk[0].3)));
            assert(keys@.map_values(|k: Key| k.name@) =~= fl.keys@.map_values(|k: Key| k.name@));
            let nl = Leaf { keys, ..fl };
            leaves.push(nl);
            proof {
                assert forall|i: int| 0 <= i < old_leaves.len() implies #[trigger] leaves@[i] == old_leaves[i] by {}
            }
            Schema { leaves, width: self.width + 1 }
        }
    }

/// The schema with a nested section `name` whose fields are `sub`'s.
    pub fn nested(self, name: &str, sub: &Schema) -> (r: Schema)
        requires
            self.width() < usize::MAX,
        ensures
            r.width() == self.width() + 1,
            r.leaves().len() == self.leaves().len() + sub.leaves().len(),
            forall|i: int| 0 <= i < self.leaves().len() ==> #[trigger] r.leaves()[i] == self.leaves()[i],
            forall|i: int|
                0 <= i < sub.leaves().len() ==> leaf_under(
                    name@,
                    (name@, None::<Seq<char>>, self.width(), sub.width()),
                    false,
                    sub.leaves()[i],
                    #[trigger] r.leaves()[self.leaves().len() + i],
                ),
    {
        self.section(Section::new(name), sub)
    }

    /// The schema with a nested section whose fields are `sub`'s. A tracked
    /// section takes the next position; a skipped one takes none.
    pub fn section(self, s: Section, sub: &Schema) -> (r: Schema)
        requires
            self.width() < usize::MAX,
        ensures
            r.width() == if s.skipped() {
                self.width()
            } else {
                self.width() + 1
            },
            r.leaves().len() == self.leaves().len() + sub.leaves().len(),
            forall|i: int| 0 <= i < self.leaves().len() ==> #[trigger] r.leaves()[i] == self.leaves()[i],
            forall|i: int|
                0 <= i < sub.leaves().len() ==> leaf_under(
                    s.name(),
                    (s.key().0, s.key().1, self.width(), sub.width()),
                    s.skipped(),
                    sub.leaves()[i],
                    #[trigger] r.leaves()[self.leaves().len() + i],
                ),
    {
        let ghost w = self.width as nat;
        let ghost sw = sub.width as nat;
        let ghost kv: KeyView = (s.key().0, s.key().1, w, sw);
        let ghost fname = s.name();
        let ghost sk = s.skip;
        let mut leaves = self.leaves;
        let ghost base = leaves@;
        let mut i: usize = 0;
        while i < sub.leaves.len()
            invariant
                i <= sub.leaves.len(),
                leaves@.len() == base.len() + i,
                forall|j: int| 0 <= j < base.len() ==> #[trigger] leaves@[j] == base[j],
                w == self.width as nat,
                sw == sub.width as nat,
                kv == (s.key().0, s.key().1, w, sw),
                fname == s.name(),
                sk == s.skip,
                forall|j: int|
                    0 <= j < i ==> leaf_under(fname, kv, sk, sub.leaves@[j], #[trigger] leaves@[base.len() + j]),
            decreases sub.leaves.len() - i,
        {
            let l = &sub.leaves[i];
            let mut field = s.name.clone();
            field.push('.');
            field.append(l.field.as_str());
            let mut keys: Vec<Key> = Vec::new();
            let head = Key {
                name: s.key.clone(),
                alias: match &s.alias {
                    Some(a) => Some(a.clone()),
                    None => None,
                },
                index: self.width,
                inner: sub.width,
            };
            assert(head@ == kv);
            keys.push(head);
            let ghost src = l.keys@;
            let mut k: usize = 0;
            assert(key_views(keys@) =~= seq![kv] + key_views(src.take(0)));
            assert(keys@.map_values(|x: Key| x.name@) =~= seq![kv.0] + src.take(0).map_values(|x: Key| x.name@));
            while k < l.keys.len()
                invariant
                    k <= l.keys.len(),
                    src == l.keys@,
                    w == self.width as nat,
                    sw == sub.width as nat,
                    kv == (s.key().0, s.key().1, w, sw),
                    key_views(keys@) == seq![kv] + key_views(src.take(k as int)),
                    keys@.map_values(|x: Key| x.name@) == seq![kv.0] + src.take(k as int).map_values(|x: Key| x.name@),
                decreases l.keys.len() - k,
            {
                let c = Key {
                    name: l.keys[k].name.clone(),
                    alias: match &l.keys[k].alias {
                        Some(a) => Some(a.clone()),
                        None => None,
                    },
                    index: l.keys[k].index,
                    inner: l.keys[k].inner,
                };
                assert(c@ == src[k as int]@);
                let ghost old_keys = keys@;
                keys.push(c);
                proof {
                    assert(src.take(k + 1) =~= src.take(k as int).push(src[k as int]));
                    assert(key_views(keys@) =~= key_views(old_keys).push(c@));
                    assert(key_views(src.take(k + 1)) =~= key_views(src.take(k as int)).push(src[k as int]@));
                    assert(keys@.map_values(|x: Key| x.name@) =~= old_keys.map_values(|x: Key| x.name@).push(c.name@));
                    assert(src.take(k + 1).map_values(|x: Key| x.name@) =~= src.take(k as int).map_values(|x: Key| x.name@).push(src[k as int].name@));
                }
                k = k + 1;
            }
            assert(src.take(l.keys.len() as int) =~= src);
            let nl = Leaf {
                field,
                keys,
                kind: l.kind,
                default: l.default.duplicate(),
                secret: l.secret,
                env_list: l.env_list,
                skip: l.skip || s.skip,
            };
            let ghost old_leaves = leaves@;
            assert(nl.field@ == fname + seq!['.'] + l.field@);
            assert(nl.key_path() == seq![kv] + l.key_path());
            assert(leaf_under(fname, kv, sk, sub.leaves@[i as int], nl));
            leaves.push(nl);
            proof {
                assert(leaves@[base.len() + i] == nl);
                assert forall|j: int| 0 <= j < base.len() implies #[trigger] leaves@[j] == base[j] by {
                    assert(leaves@[j] == old_leaves[j]);
                }
                assert forall|j: int| 0 <= j < i + 1 implies leaf_under(fname, kv, sk, sub.leaves@[j], #[trigger] leaves@[base.len() + j]) by {
                    if j < i {
                        assert(leaves@[base.len() + j] == old_leaves[base.len() + j]);
                    }
                }
            }
            i = i + 1;
        }
        let width = if s.skip {
            self.width
        } else {
            self.width + 1
        };
        Schema { leaves, width }
    }
}

/// Whether every value a partial assigns to a tracked leaf fits the leaf.
pub open spec fn partial_fits(p: Seq<(Seq<char>, SettingView)>, leaves: Seq<Leaf>) -> bool {
    forall|i: int|
        0 <= i < leaves.len() && !leaves[i].skip ==> match #[trigger] assigned(p, leaves[i].field@) {
            Some(v) => fits(leaves[i].kind, v),
            None => true,
        }
}

/// What a partial sets, leaf by leaf (nothing for a skipped leaf).
pub open spec fn partial_values(p: Seq<(Seq<char>, SettingView)>, leaves: Seq<Leaf>) -> Seq<Option<SettingView>> {
    Seq::new(
        leaves.len(),
        |i: int|
            if leaves[i].skip {
                None
            } else {
                assigned(p, leaves[i].field@)
            },
    )
}

/// The compiled-in defaults as assignments, every leaf in order.
pub open spec fn default_assignments(leaves: Seq<Leaf>) -> Seq<(Seq<char>, SettingView)> {
    leaves.map_values(|l: Leaf| (l.field@, l.default@))
}

/// The assignments of a record that reach a partial: those of tracked
/// leaves, in the order of the leaves.
pub open spec fn tracked_assignments(values: Seq<(Seq<char>, SettingView)>, leaves: Seq<Leaf>) -> Seq<(Seq<char>, SettingView)>
    decreases leaves.len(),
{
    if leaves.len() == 0 {
        Seq::empty()
    } else {
        let r = tracked_assignments(values, leaves.drop_last());
        let l = leaves.last();
        if !l.skip && assigned(values, l.field@) is Some {
            r.push((l.field@, assigned(values, l.field@)->Some_0))
        } else {
            r
        }
    }
}

/// The message for a field whose value does not fit.
pub open spec fn field_text(field: Seq<char>) -> Seq<char> {
    "invalid value for field `"@ + field + "`"@
}

/// Whether leaf `i` is the first tracked leaf that a document does not fit.
pub open spec fn first_unfit_leaf(doc: Tree, leaves: Seq<Leaf>, width: nat, strict: bool, i: int) -> bool {
    &&& 0 <= i < leaves.len()
    &&& !leaves[i].skip
    &&& leaf_reading(doc, leaves[i], width, strict) is Err
    &&& forall|j: int|
        0 <= j < i && !leaves[j].skip ==> #[trigger] leaf_reading(doc, leaves[j], width, strict) is Ok
}

/// Whether leaf `i` is the first tracked leaf to which a partial assigns a
/// value that does not fit.
pub open spec fn first_unfit_assignment(p: Seq<(Seq<char>, SettingView)>, leaves: Seq<Leaf>, i: int) -> bool {
    &&& 0 <= i < leaves.len()
    &&& !leaves[i].skip
    &&& assigned(p, leaves[i].field@) matches Some(v) && !fits(leaves[i].kind, v)
    &&& forall|j: int|
        0 <= j < i && !leaves[j].skip ==> match #[trigger] assigned(p, leaves[j].field@) {
            Some(v) => fits(leaves[j].kind, v),
            None => true,
        }
}

fn field_message(leaf: &Leaf) -> (r: String)
    ensures
        r@ == field_text(leaf.field@),
{
    let mut m = String::from_str("invalid value for field `");
    m.append(leaf.field.as_str());
    m.append("`");
    m
}

/// Reads a document, a struct of `width` tracked fields, against the
/// leaves: what it sets for each, or an error where it holds something that
/// does not fit. `strict` refuses an array longer than its struct.
pub fn read_document(doc: &Node, leaves: &Vec<Leaf>, width: usize, strict: bool) -> (r: Result<
    Vec<Option<Setting>>,
    String,
>)
    ensures
        r is Ok <==> document_fits(doc@, leaves@, width as nat, strict),
        r matches Ok(v) ==> option_views(v@) == document_values(doc@, leaves@, width as nat, strict),
        r matches Err(m) ==> exists|i: int|
            #[trigger] first_unfit_leaf(doc@, leaves@, width as nat, strict, i) && m@ == field_text(
                leaves@[i].field@,
            ),
{
    let ghost w = width as nat;
    let mut out: Vec<Option<Setting>> = Vec::new();
    let mut i: usize = 0;
    while i < leaves.len()
        invariant
            i <= leaves.len(),
            w == width as nat,
            out@.len() == i,
            forall|j: int| 0 <= j < i && !leaves@[j].skip ==> #[trigger] leaf_reading(doc@, leaves@[j], w, strict) is Ok,
            forall|j: int| 0 <= j < i ==> #[trigger] option_views(out@)[j] == document_values(doc@, leaves@, w, strict)[j],
        decreases leaves.len() - i,
    {
        let ghost old_out = out@;
        if leaves[i].skip {
            out.push(None);
        } else {
            match read_leaf(doc, &leaves[i], width, strict) {
                Ok(o) => {
                    out.push(o);
                },
                Err(()) => {
                    assert(!document_fits(doc@, leaves@, w, strict));
                    assert(first_unfit_leaf(doc@, leaves@, w, strict, i as int));
                    return Err(field_message(&leaves[i]));
                },
            }
        }
        proof {
            assert forall|j: int| 0 <= j < i + 1 implies #[trigger] option_views(out@)[j] == document_values(doc@, leaves@, w, strict)[j] by {
                if j < i {
                    assert(out@[j] == old_out[j]);
                    assert(option_views(old_out)[j] == document_values(doc@, leaves@, w, strict)[j]);
                }
            }
        }
        i = i + 1;
    }
    assert(option_views(out@) =~= document_values(doc@, leaves@, w, strict));
    Ok(out)
}

/// Reads a partial against the leaves: what it sets for each, or an error
/// where it assigns a value that does not fit.
pub fn read_partial(p: &Partial, leaves: &Vec<Leaf>) -> (r: Result<Vec<Option<Setting>>, String>)
    ensures
        r is Ok <==> partial_fits(p@, leaves@),
        r matches Ok(v) ==> option_views(v@) == partial_values(p@, leaves@),
        r matches Err(m) ==> exists|i: int|
            #[trigger] first_unfit_assignment(p@, leaves@, i) && m@ == field_text(leaves@[i].field@),
{
    let mut out: Vec<Option<Setting>> = Vec::new();
    let mut i: usize = 0;
    while i < leaves.len()
        invariant
            i <= leaves.len(),
            out@.len() == i,
            forall|j: int| 0 <= j < i && !leaves@[j].skip ==> match #[trigger] assigned(p@, leaves@[j].field@) {
                Some(v) => fits(leaves@[j].kind, v),
                None => true,
            },
            forall|j: int| 0 <= j < i ==> #[trigger] option_views(out@)[j] == partial_values(p@, leaves@)[j],
        decreases leaves.len() - i,
    {
        let ghost old_out = out@;
        if leaves[i].skip {
            out.push(None);
        } else {
            match p.get(leaves[i].field.as_str()) {
                Some(v) => {
                    if !setting_fits(leaves[i].kind, v) {
                        assert(!partial_fits(p@, leaves@));
                        assert(first_unfit_assignment(p@, leaves@, i as int));
                        return Err(field_message(&leaves[i]));
                    }
                    out.push(Some(v.duplicate()));
                },
                None => {
                    out.push(None);
                },
            }
        }
        proof {
            assert forall|j: int| 0 <= j < i + 1 implies #[trigger] option_views(out@)[j] == partial_values(p@, leaves@)[j] by {
                if j < i {
                    assert(out@[j] == old_out[j]);
                    assert(option_views(old_out)[j] == partial_values(p@, leaves@)[j]);
                }
            }
        }
        i = i + 1;
    }
    assert(option_views(out@) =~= partial_values(p@, leaves@));
    Ok(out)
}

impl Schema {
    /// The leaves, in order.
    pub fn leaf_list(&self) -> (r: &Vec<Leaf>)
        ensures
            r@ == self.leaves(),
    {
        &self.leaves
    }

    /// The compiled-in defaults of every leaf, skipped ones included: the
    /// plain record that `Default` gives.
    pub fn defaults(&self) -> (r: Partial)
        ensures
            r@ == default_assignments(self.leaves()),
    {
        let mut r = Partial::new();
        let mut i: usize = 0;
        while i < self.leaves.len()
            invariant
                i <= self.leaves.len(),
                r@ == default_assignments(self.leaves@.take(i as int)),
            decreases self.leaves.len() - i,
        {
            let l = &self.leaves[i];
            r = r.with(l.field.as_str(), l.default.duplicate());
            assert(self.leaves@.take(i + 1) =~= self.leaves@.take(i as int).push(*l));
            assert(default_assignments(self.leaves@.take(i + 1)) =~= default_assignments(self.leaves@.take(i as int)).push((l.field@, l.default@)));
            i = i + 1;
        }
        assert(self.leaves@.take(self.leaves.len() as int) =~= self.leaves@);
        r
    }

    /// The partial that a whole record makes: every tracked leaf that the
    /// record assigns, assigned the same value.
    pub fn partial_from(&self, values: &Partial) -> (r: Partial)
        ensures
            r@ == tracked_assignments(values@, self.leaves()),
    {
        let mut r = Partial::new();
        let mut i: usize = 0;
        while i < self.leaves.len()
            invariant
                i <= self.leaves.len(),
                r@ == tracked_assignments(values@, self.leaves@.take(i as int)),
            decreases self.leaves.len() - i,
        {
            let l = &self.leaves[i];
            assert(self.leaves@.take(i + 1).drop_last() =~= self.leaves@.take(i as int));
            if !l.skip {
                match values.get(l.field.as_str()) {
                    Some(v) => {
                        r = r.with(l.field.as_str(), v.duplicate());
                    },
                    None => {},
                }
            }
            i = i + 1;
        }
        assert(self.leaves@.take(self.leaves.len() as int) =~= self.leaves@);
        r
    }
}

} // verus!
