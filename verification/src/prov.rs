//! The provenance of a built configuration: for every leaf, each value that
//! a source set, in the order the sources were applied.
use crate::category::{defaults_source, defaults_source_view, Category, CategoryView, SourceInfo};
use crate::node::{entries_of, insert_nested, lemma_trees_of_ext, string_views, tree_insert_path, Node, Tree};
use crate::schema::{option_views, Key, Leaf, Partial, Setting, SettingView};
use crate::text::{int_text, integer_text};
use crate::text::{join_dotted, join_dotted_strings};
use vstd::prelude::*;
use vstd::string::*;

verus! {

/// One entry of a leaf's history: a value and the source that set it.
#[derive(Debug, Clone, PartialEq, Eq)]
pub struct HistoryEntry {
    pub value: Setting,
    pub source: SourceInfo,
}

impl View for HistoryEntry {
    type V = (SettingView, (Seq<char>, CategoryView));

    open spec fn view(&self) -> (SettingView, (Seq<char>, CategoryView)) {
        (self.value@, self.source@)
    }
}

pub open spec fn value_views(v: Seq<HistoryEntry>) -> Seq<(SettingView, (Seq<char>, CategoryView))> {
    v.map_values(|e: HistoryEntry| e@)
}

/// The history of one leaf: the compiled-in default first, then each value
/// that a later source set, in order. The last entry is the active one.
#[derive(Debug, Clone, PartialEq, Eq)]
pub struct ValueHistory {
    history: Vec<HistoryEntry>,
    secret: bool,
}

impl View for ValueHistory {
    type V = Seq<(SettingView, (Seq<char>, CategoryView))>;

    closed spec fn view(&self) -> Seq<(SettingView, (Seq<char>, CategoryView))> {
        value_views(self.history@)
    }
}

impl ValueHistory {
    pub closed spec fn secret_flag(&self) -> bool {
        self.secret
    }

    /// An empty history, not secret.
    pub fn new() -> (r: ValueHistory)
        ensures
            r@ == Seq::<(SettingView, (Seq<char>, CategoryView))>::empty(),
            !r.secret_flag(),
    {
        let r = ValueHistory { history: Vec::new(), secret: false };
        assert(r@ =~= Seq::<(SettingView, (Seq<char>, CategoryView))>::empty());
        r
    }

    /// The same history, marked secret: user interfaces should redact it.
    pub fn mark_secret(self) -> (r: ValueHistory)
        ensures
            r@ == self@,
            r.secret_flag(),
    {
        ValueHistory { history: self.history, secret: true }
    }

    /// Appends an entry, which becomes the active one.
    pub fn push(&mut self, v: HistoryEntry)
        ensures
            final(self)@ == old(self)@.push(v@),
            final(self).secret_flag() == old(self).secret_flag(),
    {
        let ghost vv = v@;
        self.history.push(v);
        assert(value_views(self.history@) =~= value_views(old(self).history@).push(vv));
    }

    /// The active value: the last entry's.
    pub fn value(&self) -> (r: &Setting)
        requires
            self@.len() > 0,
        ensures
            r@ == self@.last().0,
    {
        &self.history[self.history.len() - 1].value
    }

    /// The source of the active value.
    pub fn source(&self) -> (r: &SourceInfo)
        requires
            self@.len() > 0,
        ensures
            r@ == self@.last().1,
    {
        &self.history[self.history.len() - 1].source
    }

    /// Every entry, oldest first.
    pub fn history(&self) -> (r: &Vec<HistoryEntry>)
        ensures
            value_views(r@) == self@,
    {
        &self.history
    }

    /// Whether user interfaces should redact the value.
    pub fn is_secret(&self) -> (r: bool)
        ensures
            r == self.secret_flag(),
    {
        self.secret
    }
}

/// The history that layering makes for one leaf: the default from the
/// defaults source, then, source by source in order, the value of each
/// source that sets the leaf.
pub open spec fn layered(
    default: SettingView,
    sources: Seq<(Seq<char>, CategoryView)>,
    vals: Seq<Option<SettingView>>,
) -> Seq<(SettingView, (Seq<char>, CategoryView))>
    decreases sources.len(),
{
    if sources.len() == 0 || vals.len() == 0 {
        seq![(default, defaults_source_view())]
    } else {
        let h = layered(default, sources.drop_last(), vals.drop_last());
        match vals.last() {
            Some(v) => h.push((v, sources.last())),
            None => h,
        }
    }
}

/// The values that each source sets for leaf `i`, source by source.
pub open spec fn column(readings: Seq<Seq<Option<SettingView>>>, i: int) -> Seq<Option<SettingView>> {
    readings.map_values(|r: Seq<Option<SettingView>>| r[i])
}

/// The provenance of one leaf.
#[derive(Debug, Clone, PartialEq, Eq)]
pub struct LeafProv {
    /// The dotted path of Rust field names.
    pub field: String,
    /// The dotted path of document keys.
    pub key: String,
    /// The document keys, one per level.
    pub keys: Vec<String>,
    /// Whether the leaf is skipped: only its default, and no provenance.
    pub skip: bool,
    pub history: ValueHistory,
}

/// A built configuration: the provenance of every leaf of the schema, in
/// the schema's order.
#[derive(Debug)]
pub struct Prov {
    leaves: Vec<LeafProv>,
}

/// What the provenance of a leaf is after layering.
pub open spec fn leaf_prov_is(
    p: LeafProv,
    leaf: Leaf,
    sources: Seq<(Seq<char>, CategoryView)>,
    readings: Seq<Seq<Option<SettingView>>>,
    i: int,
) -> bool {
    &&& p.field@ == leaf.field@
    &&& p.key@ == leaf.dotted_key()
    &&& string_views(p.keys@) == leaf.keys@.map_values(|k: Key| k.name@)
    &&& p.skip == leaf.skip
    &&& p.history.secret_flag() == leaf.secret
    &&& p.history@ == if leaf.skip {
        seq![(leaf.default@, defaults_source_view())]
    } else {
        layered(leaf.default@, sources, column(readings, i))
    }
}

impl Prov {
    pub closed spec fn entries(&self) -> Seq<LeafProv> {
        self.leaves@
    }

    /// The provenance of every leaf, in order.
    pub fn leaf_list(&self) -> (r: &Vec<LeafProv>)
        ensures
            r@ == self.entries(),
    {
        &self.leaves
    }

    /// Layers the values that the sources set over the defaults, leaf by
    /// leaf. `readings[j][i]` is what source `j` sets for leaf `i`.
    pub fn merge(
        leaves: &Vec<Leaf>,
        sources: &Vec<SourceInfo>,
        readings: &Vec<Vec<Option<Setting>>>,
    ) -> (r: Prov)
        requires
            sources.len() == readings.len(),
            forall|j: int| 0 <= j < readings.len() ==> #[trigger] readings@[j]@.len() == leaves.len(),
        ensures
            r.entries().len() == leaves.len(),
            r.wf(),
            forall|i: int|
                0 <= i < leaves.len() ==> leaf_prov_is(
                    #[trigger] r.entries()[i],
                    leaves@[i],
                    sources@.map_values(|s: SourceInfo| s@),
                    readings@.map_values(|v: Vec<Option<Setting>>| option_views(v@)),
                    i,
                ),
    {
        let ghost srcs = sources@.map_values(|s: SourceInfo| s@);
        let ghost rds = readings@.map_values(|v: Vec<Option<Setting>>| option_views(v@));
        let mut out: Vec<LeafProv> = Vec::new();
        let mut i: usize = 0;
        while i < leaves.len()
            invariant
                i <= leaves.len(),
                out@.len() == i,
                sources.len() == readings.len(),
                forall|j: int| 0 <= j < readings.len() ==> #[trigger] readings@[j]@.len() == leaves.len(),
                srcs == sources@.map_values(|s: SourceInfo| s@),
                rds == readings@.map_values(|v: Vec<Option<Setting>>| option_views(v@)),
                forall|k: int| 0 <= k < i ==> leaf_prov_is(#[trigger] out@[k], leaves@[k], srcs, rds, k),
            decreases leaves.len() - i,
        {
            let leaf = &leaves[i];
            let mut h = ValueHistory::new();
            if leaf.secret {
                h = h.mark_secret();
            }
            h.push(HistoryEntry { value: leaf.default.duplicate(), source: defaults_source() });
            if !leaf.skip {
                let mut j: usize = 0;
                while j < sources.len()
                    invariant
                        j <= sources.len() == readings.len(),
                        i < leaves.len(),
                        forall|q: int| 0 <= q < readings.len() ==> #[trigger] readings@[q]@.len() == leaves.len(),
                        srcs == sources@.map_values(|s: SourceInfo| s@),
                        rds == readings@.map_values(|v: Vec<Option<Setting>>| option_views(v@)),
                        h@ == layered(leaves@[i as int].default@, srcs.take(j as int), column(rds, i as int).take(j as int)),
                        h.secret_flag() == leaves@[i as int].secret,
                    decreases sources.len() - j,
                {
                    proof {
                        assert(srcs.take(j + 1).drop_last() =~= srcs.take(j as int));
                        assert(column(rds, i as int).take(j + 1).drop_last() =~= column(rds, i as int).take(j as int));
                        assert(column(rds, i as int)[j as int] == option_views(readings@[j as int]@)[i as int]);
                    }
                    match &readings[j][i] {
                        Some(v) => {
                            h.push(HistoryEntry { value: v.duplicate(), source: sources[j].duplicate() });
                        },
                        None => {},
                    }
                    j = j + 1;
                }
                assert(srcs.take(sources.len() as int) =~= srcs);
                assert(column(rds, i as int).take(sources.len() as int) =~= column(rds, i as int));
            }
            let key_names = key_name_strings(leaf);
            let key = join_dotted_strings(&key_names);
            let lp = LeafProv { field: leaf.field.clone(), key, keys: key_names, skip: leaf.skip, history: h };
            let ghost old_out = out@;
            out.push(lp);
            proof {
                assert forall|k: int| 0 <= k < i + 1 implies leaf_prov_is(#[trigger] out@[k], leaves@[k], srcs, rds, k) by {
                    if k < i {
                        assert(out@[k] == old_out[k]);
                    }
                }
            }
            i = i + 1;
        }
        proof {
            assert forall|i: int| 0 <= i < out@.len() implies #[trigger] out@[i].history@.len() > 0 by {
                assert(leaf_prov_is(out@[i], leaves@[i], srcs, rds, i));
                lemma_layered_starts_with_default(leaves@[i].default@, srcs, column(rds, i));
            }
        }
        Prov { leaves: out }
    }
}

/// The names of a leaf's keys, as strings.
fn key_name_strings(leaf: &Leaf) -> (r: Vec<String>)
    ensures
        r@.map_values(|x: String| x@) == leaf.keys@.map_values(|k: Key| k.name@),
{
    let mut r: Vec<String> = Vec::new();
    let mut i: usize = 0;
    while i < leaf.keys.len()
        invariant
            i <= leaf.keys.len(),
            r@.map_values(|x: String| x@) == leaf.keys@.take(i as int).map_values(|k: Key| k.name@),
        decreases leaf.keys.len() - i,
    {
        let ghost old_r = r@;
        r.push(leaf.keys[i].name.clone());
        assert(r@.map_values(|x: String| x@) =~= old_r.map_values(|x: String| x@).push(leaf.keys@[i as int].name@));
        assert(leaf.keys@.take(i + 1) =~= leaf.keys@.take(i as int).push(leaf.keys@[i as int]));
        assert(leaf.keys@.take(i + 1).map_values(|k: Key| k.name@) =~= leaf.keys@.take(i as int).map_values(|k: Key| k.name@).push(leaf.keys@[i as int].name@));
        i = i + 1;
    }
    assert(leaf.keys@.take(leaf.keys.len() as int) =~= leaf.keys@);
    r
}

/// The index of the first tracked leaf whose field path is `field`, or -1.
pub open spec fn tracked_index(es: Seq<LeafProv>, field: Seq<char>) -> int
    decreases es.len(),
{
    if es.len() == 0 {
        -1
    } else {
        let j = tracked_index(es.drop_last(), field);
        if j >= 0 {
            j
        } else if !es.last().skip && es.last().field@ == field {
            es.len() - 1
        } else {
            -1
        }
    }
}

pub proof fn lemma_tracked_index(es: Seq<LeafProv>, field: Seq<char>)
    ensures
        -1 <= tracked_index(es, field) < es.len(),
        tracked_index(es, field) >= 0 ==> !es[tracked_index(es, field)].skip && es[tracked_index(es, field)].field@ == field,
        forall|j: int|
            0 <= j < es.len() && (tracked_index(es, field) < 0 || j < tracked_index(es, field))
                ==> !(!#[trigger] es[j].skip && es[j].field@ == field),
    decreases es.len(),
{
    if es.len() > 0 {
        let d = es.drop_last();
        lemma_tracked_index(d, field);
        assert forall|j: int|
            0 <= j < es.len() && (tracked_index(es, field) < 0 || j < tracked_index(es, field))
                implies !(!#[trigger] es[j].skip && es[j].field@ == field) by {
            if j < es.len() - 1 {
                assert(es[j] == d[j]);
            }
        }
    }
}

/// The path of every tracked leaf (its dotted key after `prefix`) with the
/// category of the source of its active value, in the order of the leaves.
pub open spec fn source_entries(prefix: Seq<char>, es: Seq<LeafProv>) -> Seq<(Seq<char>, CategoryView)>
    decreases es.len(),
{
    if es.len() == 0 {
        Seq::empty()
    } else {
        let r = source_entries(prefix, es.drop_last());
        let l = es.last();
        if l.skip {
            r
        } else {
            r.push((prefixed(prefix, l.key@), l.history@.last().1.1))
        }
    }
}

/// The paths of the first `n` leaves come first, in the same order.
pub proof fn lemma_source_entries_prefix(prefix: Seq<char>, es: Seq<LeafProv>, n: int)
    requires
        0 <= n <= es.len(),
    ensures
        source_entries(prefix, es.take(n)).len() <= source_entries(prefix, es).len(),
        forall|j: int|
            0 <= j < source_entries(prefix, es.take(n)).len() ==> #[trigger] source_entries(prefix, es.take(n))[j]
                == source_entries(prefix, es)[j],
        keys_distinct(source_entries(prefix, es)) ==> keys_distinct(source_entries(prefix, es.take(n))),
    decreases es.len() - n,
{
    if n == es.len() {
        assert(es.take(n) =~= es);
    } else {
        lemma_source_entries_prefix(prefix, es, n + 1);
        assert(es.take(n + 1).drop_last() =~= es.take(n));
        let a = source_entries(prefix, es.take(n));
        let b = source_entries(prefix, es.take(n + 1));
        let w = source_entries(prefix, es);
        assert forall|j: int| 0 <= j < a.len() implies #[trigger] a[j] == w[j] by {
            assert(a[j] == b[j]);
        }
        if keys_distinct(w) {
            assert forall|x: int, y: int| 0 <= x < y < a.len() implies #[trigger] a[x].0 != #[trigger] a[y].0 by {
                assert(a[x] == w[x]);
                assert(a[y] == w[y]);
            }
        }
    }
}

/// The path under which `walk_leaves` reports a leaf: its dotted key, after
/// `prefix` and a dot where `prefix` is not empty.
pub open spec fn prefixed(prefix: Seq<char>, key: Seq<char>) -> Seq<char> {
    if prefix.len() == 0 {
        key
    } else {
        prefix + seq!['.'] + key
    }
}

/// What `walk_leaves` visits: every tracked leaf's path, active value, the
/// category of its source, and its secret flag, in the order of the leaves.
pub open spec fn visits(prefix: Seq<char>, es: Seq<LeafProv>) -> Seq<(Seq<char>, SettingView, CategoryView, bool)>
    decreases es.len(),
{
    if es.len() == 0 {
        Seq::empty()
    } else {
        let r = visits(prefix, es.drop_last());
        let l = es.last();
        if l.skip {
            r
        } else {
            r.push((prefixed(prefix, l.key@), l.history@.last().0, l.history@.last().1.1, l.history.secret_flag()))
        }
    }
}

/// The plain record: every leaf's field path with its active value (a
/// skipped leaf's is its default).
pub open spec fn record_of(es: Seq<LeafProv>) -> Seq<(Seq<char>, SettingView)> {
    es.map_values(|l: LeafProv| (l.field@, l.history@.last().0))
}

/// Dotted key path to category, as a settings page shows it.
#[derive(Debug)]
pub struct SourcesMap {
    entries: Vec<(String, Category)>,
}

impl View for SourcesMap {
    type V = Seq<(Seq<char>, CategoryView)>;

    closed spec fn view(&self) -> Seq<(Seq<char>, CategoryView)> {
        self.entries@.map_values(|e: (String, Category)| (e.0@, e.1@))
    }
}

/// Whether no key occurs twice.
pub open spec fn keys_distinct(es: Seq<(Seq<char>, CategoryView)>) -> bool {
    forall|i: int, j: int| 0 <= i < j < es.len() ==> #[trigger] es[i].0 != #[trigger] es[j].0
}

/// The category under `key`: the last entry's, as for a map where a later
/// insert replaces an earlier one.
pub open spec fn map_get(es: Seq<(Seq<char>, CategoryView)>, key: Seq<char>) -> Option<CategoryView>
    decreases es.len(),
{
    if es.len() == 0 {
        None
    } else if es.last().0 == key {
        Some(es.last().1)
    } else {
        map_get(es.drop_last(), key)
    }
}

/// Where a key has an entry, `map_get` gives one of its categories; where
/// it has none, nothing. With distinct keys that entry is the only one.
pub proof fn lemma_map_get(es: Seq<(Seq<char>, CategoryView)>, key: Seq<char>)
    ensures
        map_get(es, key) is None <==> forall|i: int| 0 <= i < es.len() ==> #[trigger] es[i].0 != key,
        map_get(es, key) matches Some(c) ==> exists|i: int| 0 <= i < es.len() && #[trigger] es[i] == (key, c),
        keys_distinct(es) ==> forall|i: int|
            0 <= i < es.len() && #[trigger] es[i].0 == key ==> map_get(es, key) == Some(es[i].1),
    decreases es.len(),
{
    if es.len() > 0 {
        let d = es.drop_last();
        lemma_map_get(d, key);
        assert forall|i: int| 0 <= i < d.len() implies #[trigger] d[i] == es[i] by {}
        if keys_distinct(es) {
            assert(keys_distinct(d));
        }
        if map_get(es, key) is None {
            assert forall|i: int| 0 <= i < es.len() implies #[trigger] es[i].0 != key by {
                if i < d.len() {
                    assert(d[i] == es[i]);
                }
            }
        }
        match map_get(d, key) {
            Some(c) => {
                if es.last().0 != key {
                    let i = choose|i: int| 0 <= i < d.len() && #[trigger] d[i] == (key, c);
                    assert(es[i] == d[i]);
                }
            },
            None => {},
        }
        if es.last().0 == key {
            assert(es[es.len() - 1] == (key, es.last().1));
        }
    }
}

impl SourcesMap {
    #[verifier::type_invariant]
    closed spec fn distinct(&self) -> bool {
        keys_distinct(self@)
    }

    /// An empty map.
    pub fn new() -> (r: SourcesMap)
        ensures
            r@ == Seq::<(Seq<char>, CategoryView)>::empty(),
    {
        let entries: Vec<(String, Category)> = Vec::new();
        assert(entries@.map_values(|e: (String, Category)| (e.0@, e.1@)) =~= Seq::<(Seq<char>, CategoryView)>::empty());
        SourcesMap { entries }
    }

    /// Sets the category under `key`, replacing the one it had.
    pub fn insert(&mut self, key: String, category: Category)
        ensures
            keys_distinct(final(self)@),
            forall|k: Seq<char>|
                #[trigger] map_get(final(self)@, k) == if k == key@ {
                    Some(category@)
                } else {
                    map_get(old(self)@, k)
                },
            map_get(old(self)@, key@) is None ==> final(self)@ == old(self)@.push((key@, category@)),
            map_get(old(self)@, key@) is Some ==> final(self)@.len() == old(self)@.len(),
    {
        proof {
            use_type_invariant(&*self);
        }
        let ghost old_v = self@;
        let mut entries: Vec<(String, Category)> = Vec::new();
        std::mem::swap(&mut entries, &mut self.entries);
        assert(entries@.map_values(|e: (String, Category)| (e.0@, e.1@)) == old_v);
        let mut i: usize = 0;
        while i < entries.len()
            invariant
                i <= entries.len(),
                entries@.map_values(|e: (String, Category)| (e.0@, e.1@)) == old_v,
                forall|j: int| 0 <= j < i ==> #[trigger] old_v[j].0 != key@,
            ensures
                i <= entries.len(),
                entries@.map_values(|e: (String, Category)| (e.0@, e.1@)) == old_v,
                forall|j: int| 0 <= j < i ==> #[trigger] old_v[j].0 != key@,
                i < entries.len() ==> old_v[i as int].0 == key@,
            decreases entries.len() - i,
        {
            if entries[i].0 == key {
                break;
            }
            i = i + 1;
        }
        let ghost kv = key@;
        let ghost cv = category@;
        if i < entries.len() {
            assert(old_v[i as int].0 == kv);
            entries.set(i, (key, category));
            let ghost nv = entries@.map_values(|e: (String, Category)| (e.0@, e.1@));
            assert(nv =~= old_v.update(i as int, (kv, cv)));
            assert(keys_distinct(nv)) by {
                assert forall|a: int, b: int| 0 <= a < b < nv.len() implies #[trigger] nv[a].0 != #[trigger] nv[b].0 by {
                    assert(nv[a].0 == old_v[a].0);
                    assert(nv[b].0 == old_v[b].0);
                }
            }
            proof {
                lemma_map_get(old_v, kv);
                assert forall|k: Seq<char>|
                    #[trigger] map_get(nv, k) == if k == kv {
                        Some(cv)
                    } else {
                        map_get(old_v, k)
                    } by {
                    lemma_map_get(nv, k);
                    lemma_map_get(old_v, k);
                    if k == kv {
                        assert(nv[i as int] == (kv, cv));
                        assert(nv[i as int].0 == k);
                        assert(map_get(nv, k) == Some(nv[i as int].1));
                    } else {
                        match map_get(old_v, k) {
                            Some(c) => {
                                let j = choose|j: int| 0 <= j < old_v.len() && #[trigger] old_v[j] == (k, c);
                                assert(j != i);
                                assert(nv[j] == old_v[j]);
                                assert(nv[j].0 == k);
                                assert(map_get(nv, k) == Some(nv[j].1));
                            },
                            None => {
                                assert forall|j: int| 0 <= j < nv.len() implies #[trigger] nv[j].0 != k by {
                                    assert(old_v[j].0 != k);
                                }
                            },
                        }
                    }
                }
            }
        } else {
            entries.push((key, category));
            let ghost nv = entries@.map_values(|e: (String, Category)| (e.0@, e.1@));
            assert(nv =~= old_v.push((kv, cv)));
            proof {
                lemma_map_get(old_v, kv);
                assert forall|k: Seq<char>|
                    #[trigger] map_get(nv, k) == if k == kv {
                        Some(cv)
                    } else {
                        map_get(old_v, k)
                    } by {
                    assert(nv.drop_last() =~= old_v);
                }
            }
        }
        self.entries = entries;
    }

    /// The category of the leaf at `key`, if there is one.
    pub fn get(&self, key: &str) -> (r: Option<&Category>)
        ensures
            match r {
                Some(c) => map_get(self@, key@) == Some(c@),
                None => map_get(self@, key@) is None,
            },
    {
        let k = String::from_str(key);
        let mut i = self.entries.len();
        assert(self@.take(i as int) =~= self@);
        while i > 0
            invariant
                i <= self.entries.len(),
                map_get(self@, key@) == map_get(self@.take(i as int), key@),
                k@ == key@,
                self@.len() == self.entries@.len(),
            decreases i,
        {
            assert(self@.take(i as int).drop_last() =~= self@.take(i - 1));
            assert(self@.take(i as int).last() == (self.entries@[i - 1].0@, self.entries@[i - 1].1@));
            if self.entries[i - 1].0 == k {
                return Some(&self.entries[i - 1].1);
            }
            i = i - 1;
        }
        None
    }

    /// Whether there is a leaf at `key`.
    pub fn contains_key(&self, key: &str) -> (r: bool)
        ensures
            r == map_get(self@, key@) is Some,
    {
        self.get(key).is_some()
    }

    /// The number of keys.
    pub fn len(&self) -> (r: usize)
        ensures
            r == self@.len(),
    {
        self.entries.len()
    }
}

/// What `walk_leaves` reports of one leaf.
#[derive(Debug, Clone, PartialEq, Eq)]
pub struct LeafVisit {
    pub path: String,
    pub value: Setting,
    pub category: Category,
    pub secret: bool,
}

impl View for LeafVisit {
    type V = (Seq<char>, SettingView, CategoryView, bool);

    open spec fn view(&self) -> (Seq<char>, SettingView, CategoryView, bool) {
        (self.path@, self.value@, self.category@, self.secret)
    }
}

impl Prov {
    /// Every history is non-empty.
    #[verifier::type_invariant]
    pub closed spec fn wf(&self) -> bool {
        forall|i: int| 0 <= i < self.leaves@.len() ==> #[trigger] self.leaves@[i].history@.len() > 0
    }

    /// The history of the tracked leaf whose field path is `field`.
    pub fn leaf(&self, field: &str) -> (r: Option<&ValueHistory>)
        ensures
            match r {
                Some(h) => tracked_index(self.entries(), field@) >= 0 && *h == self.entries()[tracked_index(self.entries(), field@)].history,
                None => tracked_index(self.entries(), field@) < 0,
            },
    {
        let f = String::from_str(field);
        proof {
            lemma_tracked_index(self.leaves@, field@);
        }
        let mut i: usize = 0;
        while i < self.leaves.len()
            invariant
                i <= self.leaves.len(),
                f@ == field@,
                forall|j: int| 0 <= j < i ==> !(!#[trigger] self.leaves@[j].skip && self.leaves@[j].field@ == field@),
                -1 <= tracked_index(self.leaves@, field@) < self.leaves@.len(),
                tracked_index(self.leaves@, field@) >= 0 ==> !self.leaves@[tracked_index(self.leaves@, field@)].skip && self.leaves@[tracked_index(self.leaves@, field@)].field@ == field@,
                forall|j: int|
                    0 <= j < self.leaves@.len() && (tracked_index(self.leaves@, field@) < 0 || j < tracked_index(self.leaves@, field@))
                        ==> !(!#[trigger] self.leaves@[j].skip && self.leaves@[j].field@ == field@),
            decreases self.leaves.len() - i,
        {
            if !self.leaves[i].skip && self.leaves[i].field == f {
                let ghost t = tracked_index(self.leaves@, field@);
                assert(t == i) by {
                    if t < 0 || i < t {
                    } else if t < i {
                        assert(!(!self.leaves@[t].skip && self.leaves@[t].field@ == field@));
                    }
                }
                return Some(&self.leaves[i].history);
            }
            i = i + 1;
        }
        proof {
            let t = tracked_index(self.leaves@, field@);
            if t >= 0 {
                assert(!(!self.leaves@[t].skip && self.leaves@[t].field@ == field@));
            }
        }
        None
    }

    /// Writes into `out`, under each tracked leaf's path (its dotted key
    /// after `prefix`), the category of the source of its active value,
    /// leaf after leaf; every other key of `out` keeps its category.
    pub fn collect_sources(&self, prefix: &str, out: &mut SourcesMap)
        ensures
            keys_distinct(final(out)@),
            forall|k: Seq<char>|
                #[trigger] map_get(final(out)@, k) == match map_get(source_entries(prefix@, self.entries()), k) {
                    Some(c) => Some(c),
                    None => map_get(old(out)@, k),
                },
            old(out)@.len() == 0 && keys_distinct(source_entries(prefix@, self.entries())) ==> final(out)@
                == source_entries(prefix@, self.entries()),
    {
        proof {
            use_type_invariant(self);
            use_type_invariant(&*out);
        }
        let ghost start = out@;
        let mut i: usize = 0;
        while i < self.leaves.len()
            invariant
                i <= self.leaves.len(),
                self.wf(),
                keys_distinct(out@),
                forall|k: Seq<char>|
                    #[trigger] map_get(out@, k) == match map_get(source_entries(prefix@, self.leaves@.take(i as int)), k) {
                        Some(c) => Some(c),
                        None => map_get(start, k),
                    },
                start.len() == 0 && keys_distinct(source_entries(prefix@, self.leaves@)) ==> out@
                    == source_entries(prefix@, self.leaves@.take(i as int)),
            decreases self.leaves.len() - i,
        {
            let l = &self.leaves[i];
            let ghost before = source_entries(prefix@, self.leaves@.take(i as int));
            assert(self.leaves@.take(i + 1).drop_last() =~= self.leaves@.take(i as int));
            assert(self.leaves@.take(i + 1).last() == *l);
            if !l.skip {
                assert(l.history@.len() > 0);
                let mut path = String::from_str(prefix);
                if prefix.unicode_len() > 0 {
                    path.push('.');
                }
                path.append(l.key.as_str());
                assert(path@ =~= prefixed(prefix@, l.key@));
                let c = l.history.source().category();
                let ghost pk = path@;
                let ghost cv = c@;
                let ghost old_out = out@;
                out.insert(path, c);
                proof {
                    let after = source_entries(prefix@, self.leaves@.take(i + 1));
                    assert(after == before.push((pk, cv)));
                    assert forall|k: Seq<char>|
                        #[trigger] map_get(out@, k) == match map_get(after, k) {
                            Some(c) => Some(c),
                            None => map_get(start, k),
                        } by {
                        assert(after.drop_last() =~= before);
                    }
                    if start.len() == 0 && keys_distinct(source_entries(prefix@, self.leaves@)) {
                        lemma_source_entries_prefix(prefix@, self.leaves@, i + 1);
                        assert(keys_distinct(after));
                        lemma_map_get(before, pk);
                        assert forall|j: int| 0 <= j < before.len() implies #[trigger] before[j].0 != pk by {
                            assert(before[j] == after[j]);
                            assert(after[before.len() as int].0 == pk);
                        }
                        assert(map_get(old_out, pk) is None);
                    }
                }
            }
            i = i + 1;
        }
        assert(self.leaves@.take(self.leaves.len() as int) =~= self.leaves@);
    }

    /// Every tracked leaf's dotted key path with the category of the source
    /// of its active value: `collect_sources` into an empty map.
    pub fn sources_map(&self) -> (r: SourcesMap)
        ensures
            keys_distinct(r@),
            forall|k: Seq<char>|
                #[trigger] map_get(r@, k) == map_get(source_entries(Seq::empty(), self.entries()), k),
            keys_distinct(source_entries(Seq::empty(), self.entries())) ==> r@ == source_entries(
                Seq::empty(),
                self.entries(),
            ),
    {
        let mut m = SourcesMap::new();
        self.collect_sources("", &mut m);
        proof {
            reveal_strlit("");
            assert(""@ =~= Seq::<char>::empty());
        }
        m
    }

    /// Every tracked leaf with its active value, the category of its source
    /// and its secret flag, its path after `prefix`.
    pub fn walk_leaves(&self, prefix: &str) -> (r: Vec<LeafVisit>)
        ensures
            r@.map_values(|v: LeafVisit| v@) == visits(prefix@, self.entries()),
    {
        proof {
            use_type_invariant(self);
        }
        let mut out: Vec<LeafVisit> = Vec::new();
        let mut i: usize = 0;
        while i < self.leaves.len()
            invariant
                i <= self.leaves.len(),
                self.wf(),
                out@.map_values(|v: LeafVisit| v@) == visits(prefix@, self.leaves@.take(i as int)),
            decreases self.leaves.len() - i,
        {
            let l = &self.leaves[i];
            assert(self.leaves@.take(i + 1).drop_last() =~= self.leaves@.take(i as int));
            assert(self.leaves@.take(i + 1).last() == *l);
            if !l.skip {
                assert(l.history@.len() > 0);
                let mut path = String::from_str(prefix);
                if prefix.unicode_len() > 0 {
                    path.push('.');
                }
                path.append(l.key.as_str());
                assert(path@ =~= prefixed(prefix@, l.key@));
                let v = LeafVisit {
                    path,
                    value: l.history.value().duplicate(),
                    category: l.history.source().category(),
                    secret: l.history.is_secret(),
                };
                let ghost old_out = out@;
                let ghost vv = v@;
                out.push(v);
                assert(out@.map_values(|v: LeafVisit| v@) =~= old_out.map_values(|v: LeafVisit| v@).push(vv));
            }
            i = i + 1;
        }
        assert(self.leaves@.take(self.leaves.len() as int) =~= self.leaves@);
        out
    }

    /// The plain record: each leaf's field path with its active value.
    pub fn to_values(&self) -> (r: Partial)
        ensures
            r@ == record_of(self.entries()),
    {
        proof {
            use_type_invariant(self);
        }
        let mut r = Partial::new();
        let mut i: usize = 0;
        while i < self.leaves.len()
            invariant
                i <= self.leaves.len(),
                self.wf(),
                r@ == record_of(self.leaves@.take(i as int)),
            decreases self.leaves.len() - i,
        {
            let l = &self.leaves[i];
            assert(l.history@.len() > 0);
            r = r.with(l.field.as_str(), l.history.value().duplicate());
            assert(self.leaves@.take(i + 1) =~= self.leaves@.take(i as int).push(*l));
            assert(record_of(self.leaves@.take(i + 1)) =~= record_of(self.leaves@.take(i as int)).push((l.field@, l.history@.last().0)));
            i = i + 1;
        }
        assert(self.leaves@.take(self.leaves.len() as int) =~= self.leaves@);
        r
    }
}

/// A layered history is never empty and begins with the default.
pub proof fn lemma_layered_starts_with_default(
    default: SettingView,
    sources: Seq<(Seq<char>, CategoryView)>,
    vals: Seq<Option<SettingView>>,
)
    ensures
        layered(default, sources, vals).len() >= 1,
        layered(default, sources, vals)[0] == (default, defaults_source_view()),
    decreases sources.len(),
{
    if sources.len() > 0 && vals.len() > 0 {
        lemma_layered_starts_with_default(default, sources.drop_last(), vals.drop_last());
    }
}

/// A setting as a document node: an integer as its decimal text, a list as
/// an array of texts.
pub open spec fn setting_tree(v: SettingView) -> Tree {
    match v {
        SettingView::Text(s) => Tree::Text(s),
        SettingView::Bool(b) => Tree::Bool(b),
        SettingView::Int(i) => Tree::Number(int_text(i)),
        SettingView::List(l) => Tree::Array(l.map_values(|s: Seq<char>| Tree::Text(s))),
    }
}

pub fn setting_node(v: &Setting) -> (r: Node)
    ensures
        r@ == setting_tree(v@),
{
    match v {
        Setting::Text(s) => Node::Text(s.clone()),
        Setting::Bool(b) => Node::Bool(*b),
        Setting::Int(i) => Node::Number(integer_text(*i)),
        Setting::List(l) => {
            let ghost want = string_views(l@).map_values(|s: Seq<char>| Tree::Text(s));
            let mut items: Vec<Node> = Vec::new();
            let mut i: usize = 0;
            while i < l.len()
                invariant
                    i <= l.len(),
                    want == string_views(l@).map_values(|s: Seq<char>| Tree::Text(s)),
                    items@.len() == i,
                    forall|k: int| 0 <= k < i ==> #[trigger] items@[k]@ == want[k],
                decreases l.len() - i,
            {
                items.push(Node::Text(l[i].clone()));
                i = i + 1;
            }
            proof {
                assert forall|k: int| 0 <= k < items@.len() implies crate::node::tree_of(items@[k]) == #[trigger] want[k] by {
                    assert(items@[k]@ == want[k]);
                }
                lemma_trees_of_ext(items@, want);
            }
            Node::Array(items)
        },
    }
}

/// The active values as a document: each tracked leaf's value at its key
/// path, leaf after leaf.
pub open spec fn active_entries(es: Seq<LeafProv>) -> Seq<(Seq<char>, Tree)>
    decreases es.len(),
{
    if es.len() == 0 {
        Seq::empty()
    } else {
        let r = active_entries(es.drop_last());
        let l = es.last();
        if l.skip {
            r
        } else {
            tree_insert_path(r, string_views(l.keys@), setting_tree(l.history@.last().0))
        }
    }
}

impl Prov {
    /// The active values as a document, nested as the configuration struct
    /// is: what serialising the configuration writes.
    pub fn document(&self) -> (r: Node)
        ensures
            r@ == Tree::Object(active_entries(self.entries())),
    {
        proof {
            use_type_invariant(self);
        }
        let mut root: Vec<(String, Node)> = Vec::new();
        let mut i: usize = 0;
        assert(entries_of(root@) =~= Seq::<(Seq<char>, Tree)>::empty());
        while i < self.leaves.len()
            invariant
                i <= self.leaves.len(),
                self.wf(),
                entries_of(root@) == active_entries(self.leaves@.take(i as int)),
            decreases self.leaves.len() - i,
        {
            let l = &self.leaves[i];
            assert(self.leaves@.take(i + 1).drop_last() =~= self.leaves@.take(i as int));
            assert(self.leaves@.take(i + 1).last() == *l);
            if !l.skip {
                assert(l.history@.len() > 0);
                let n = setting_node(l.history.value());
                assert(string_views(l.keys@).skip(0) =~= string_views(l.keys@));
                insert_nested(&mut root, &l.keys, 0, n);
            }
            i = i + 1;
        }
        assert(self.leaves@.take(self.leaves.len() as int) =~= self.leaves@);
        Node::Object(root)
    }
}

} // verus!
