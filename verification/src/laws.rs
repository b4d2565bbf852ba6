//! What holds of every configuration built by layering sources.
use crate::category::{defaults_source_view, CategoryView};
use crate::config::{leaf_history, source_reading, source_readings, source_view, source_views, CliSource, Source};
use crate::env::{env_segments, env_value, first_min_index, lemma_first_min_index_bounds, with_prefix, EnvSource};
use crate::node::{first_key_index, lemma_first_key_index, tree_at, tree_get, tree_insert_path, tree_put, Tree};
use crate::node::string_views;
use crate::json::json_parse;
use crate::prov::{record_of, active_entries, column, keys_distinct, layered, leaf_prov_is, lemma_map_get, map_get, prefixed, setting_tree, source_entries, visits, LeafProv};
use crate::schema::{KeyView, all_text, assigned, partial_fits, tracked_assignments, convert, key_lookup, document_values, fits, leaf_reading, partial_values, texts_of, walk, Key, Leaf, LeafKind, SettingView};
use crate::text::{all_digits, digit_char, digits_value, has_prefix, int_text, join_dotted, integer_value, is_digit, nat_text, text_less};
use vstd::prelude::*;

verus! {

/// The index of the last source that sets a value, or -1.
pub open spec fn last_set(vals: Seq<Option<SettingView>>) -> int
    decreases vals.len(),
{
    if vals.len() == 0 {
        -1
    } else if vals.last() is Some {
        vals.len() - 1
    } else {
        last_set(vals.drop_last())
    }
}

/// The values that sources set, each with its source, in source order.
pub open spec fn set_entries(
    sources: Seq<(Seq<char>, CategoryView)>,
    vals: Seq<Option<SettingView>>,
) -> Seq<(SettingView, (Seq<char>, CategoryView))>
    decreases vals.len(),
{
    if vals.len() == 0 || sources.len() == 0 {
        Seq::empty()
    } else {
        let r = set_entries(sources.drop_last(), vals.drop_last());
        match vals.last() {
            Some(v) => r.push((v, sources.last())),
            None => r,
        }
    }
}

/// How many sources set a value.
pub open spec fn count_set(vals: Seq<Option<SettingView>>) -> nat
    decreases vals.len(),
{
    if vals.len() == 0 {
        0
    } else {
        count_set(vals.drop_last()) + if vals.last() is Some {
            1nat
        } else {
            0nat
        }
    }
}

/// A later source overrides an earlier one for any leaf it sets, and a leaf
/// that no source sets keeps its compiled-in default: the active value is
/// the one of the last source that sets the leaf, with that source, or else
/// the default, from the defaults source.
pub proof fn lemma_last_source_wins(
    default: SettingView,
    sources: Seq<(Seq<char>, CategoryView)>,
    vals: Seq<Option<SettingView>>,
)
    requires
        sources.len() == vals.len(),
    ensures
        layered(default, sources, vals).last() == if last_set(vals) >= 0 {
            (vals[last_set(vals)]->Some_0, sources[last_set(vals)])
        } else {
            (default, defaults_source_view())
        },
    decreases vals.len(),
{
    if vals.len() > 0 {
        lemma_last_source_wins(default, sources.drop_last(), vals.drop_last());
        if vals.last() is None {
            lemma_last_set_bounds(vals.drop_last());
            let k = last_set(vals.drop_last());
            if k >= 0 {
                assert(vals.drop_last()[k] == vals[k]);
                assert(sources.drop_last()[k] == sources[k]);
            }
        }
    }
}

pub proof fn lemma_last_set_bounds(vals: Seq<Option<SettingView>>)
    ensures
        -1 <= last_set(vals) < vals.len(),
        last_set(vals) >= 0 ==> vals[last_set(vals)] is Some,
        forall|j: int| last_set(vals) < j < vals.len() ==> #[trigger] vals[j] is None,
    decreases vals.len(),
{
    if vals.len() > 0 && vals.last() is None {
        lemma_last_set_bounds(vals.drop_last());
        assert forall|j: int| last_set(vals) < j < vals.len() implies #[trigger] vals[j] is None by {
            if j < vals.len() - 1 {
                assert(vals[j] == vals.drop_last()[j]);
            }
        }
    }
}

/// Overridden values stay in a leaf's history: it is the default, then
/// every value that a source set, in the order of the sources.
pub proof fn lemma_history_keeps_overridden(
    default: SettingView,
    sources: Seq<(Seq<char>, CategoryView)>,
    vals: Seq<Option<SettingView>>,
)
    requires
        sources.len() == vals.len(),
    ensures
        layered(default, sources, vals) == seq![(default, defaults_source_view())] + set_entries(sources, vals),
        layered(default, sources, vals).len() == 1 + count_set(vals),
    decreases vals.len(),
{
    if vals.len() == 0 {
        assert(seq![(default, defaults_source_view())] + set_entries(sources, vals) =~= seq![(default, defaults_source_view())]);
    } else {
        lemma_history_keeps_overridden(default, sources.drop_last(), vals.drop_last());
        lemma_set_entries_len(sources.drop_last(), vals.drop_last());
        match vals.last() {
            Some(v) => {
                assert(seq![(default, defaults_source_view())] + set_entries(sources, vals) =~= (seq![(default, defaults_source_view())] + set_entries(sources.drop_last(), vals.drop_last())).push((v, sources.last())));
            },
            None => {},
        }
    }
}

proof fn lemma_set_entries_len(sources: Seq<(Seq<char>, CategoryView)>, vals: Seq<Option<SettingView>>)
    requires
        sources.len() == vals.len(),
    ensures
        set_entries(sources, vals).len() == count_set(vals),
    decreases vals.len(),
{
    if vals.len() > 0 {
        lemma_set_entries_len(sources.drop_last(), vals.drop_last());
    }
}

/// With no source, every leaf's history is its default alone, from the
/// defaults source.
pub proof fn lemma_no_sources_gives_defaults(
    leaves: Seq<Leaf>,
    env: Seq<(Seq<char>, Seq<char>)>,
    width: nat,
    i: int,
)
    requires
        0 <= i < leaves.len(),
    ensures
        leaf_history(Seq::empty(), env, leaves, width, i) == seq![(leaves[i].default@, defaults_source_view())],
{
}

/// Adding a source after the others: where it sets a leaf, its value
/// becomes the active one and the earlier ones stay in the history before
/// it; where it does not, the leaf's history is unchanged.
pub proof fn lemma_added_source(
    sources: Seq<Source>,
    x: Source,
    env: Seq<(Seq<char>, Seq<char>)>,
    leaves: Seq<Leaf>,
    width: nat,
    i: int,
)
    requires
        0 <= i < leaves.len(),
        source_reading(x, env, leaves, width) is Some,
    ensures
        leaf_history(sources.push(x), env, leaves, width, i) == match source_reading(x, env, leaves, width)->Some_0[i] {
            Some(v) => leaf_history(sources, env, leaves, width, i).push((v, source_view(x))),
            None => leaf_history(sources, env, leaves, width, i),
        },
{
    let s2 = sources.push(x);
    assert(source_views(s2).drop_last() =~= source_views(sources));
    assert(source_readings(s2, env, leaves, width).drop_last() =~= source_readings(sources, env, leaves, width));
    assert(column(source_readings(s2, env, leaves, width), i).drop_last() =~= column(source_readings(sources, env, leaves, width), i));
}

/// Writing at a key path leaves the written value at that path: a later,
/// deeper write wins over an earlier value at one of its parents.
pub proof fn lemma_insert_path_reaches(es: Seq<(Seq<char>, Tree)>, path: Seq<Seq<char>>, v: Tree)
    requires
        path.len() >= 1,
    ensures
        tree_at(Tree::Object(tree_insert_path(es, path, v)), path) == Some(v),
    decreases path.len(),
{
    lemma_put_get(es, path[0], if path.len() == 1 {
        v
    } else {
        Tree::Object(
            tree_insert_path(
                match tree_get(es, path[0]) {
                    Some(Tree::Object(c)) => c,
                    _ => Seq::empty(),
                },
                path.drop_first(),
                v,
            ),
        )
    });
    if path.len() > 1 {
        let child = match tree_get(es, path[0]) {
            Some(Tree::Object(c)) => c,
            _ => Seq::empty(),
        };
        lemma_insert_path_reaches(child, path.drop_first(), v);
    } else {
        assert(path.drop_first().len() == 0);
    }
}

/// After setting a key, reading it gives the value set.
pub proof fn lemma_put_get(es: Seq<(Seq<char>, Tree)>, k: Seq<char>, v: Tree)
    ensures
        tree_get(tree_put(es, k, v), k) == Some(v),
{
    lemma_first_key_index(es, k);
    let j = first_key_index(es, k);
    let r = tree_put(es, k, v);
    lemma_first_key_index(r, k);
    let jr = first_key_index(r, k);
    if j >= 0 {
        assert(r[j].0 == k);
        if jr >= 0 && jr != j {
            if jr < j {
                assert(r[jr] == es[jr]);
            }
        }
    } else {
        assert(r[es.len() as int].0 == k);
        if jr >= 0 && jr < es.len() {
            assert(r[jr] == es[jr]);
        }
    }
}

/// A name that extends another comes after it, so a variable is always
/// applied after the shorter variables that name one of its parents.
pub proof fn lemma_extension_comes_after(a: Seq<char>, b: Seq<char>)
    requires
        has_prefix(b, a),
        a.len() < b.len(),
    ensures
        text_less(a, b),
    decreases a.len(),
{
    if a.len() > 0 {
        assert(a[0] == b.take(a.len() as int)[0]);
        assert(b.drop_first().take(a.drop_first().len() as int) =~= a.drop_first()) by {
            assert forall|i: int| 0 <= i < a.len() - 1 implies #[trigger] b.drop_first()[i] == a.drop_first()[i] by {
                assert(b.take(a.len() as int)[i + 1] == a[i + 1]);
            }
        }
        lemma_extension_comes_after(a.drop_first(), b.drop_first());
    }
}

/// No name stands for two different values: a variable may be listed more
/// than once, but always with the same value.
pub open spec fn consistent_vars(s: Seq<(Seq<char>, Seq<char>)>) -> bool {
    forall|x: (Seq<char>, Seq<char>), y: (Seq<char>, Seq<char>)|
        #[trigger] s.contains(x) && #[trigger] s.contains(y) && x.0 == y.0 ==> x == y
}

/// The two lists hold the same variables.
pub open spec fn same_vars(a: Seq<(Seq<char>, Seq<char>)>, b: Seq<(Seq<char>, Seq<char>)>) -> bool {
    forall|x: (Seq<char>, Seq<char>)| a.contains(x) <==> b.contains(x)
}

pub proof fn lemma_text_less_irreflexive(a: Seq<char>)
    ensures
        !text_less(a, a),
    decreases a.len(),
{
    if a.len() > 0 {
        lemma_text_less_irreflexive(a.drop_first());
    }
}

pub proof fn lemma_text_less_total(a: Seq<char>, b: Seq<char>)
    ensures
        a != b ==> text_less(a, b) || text_less(b, a),
        !(text_less(a, b) && text_less(b, a)),
    decreases a.len(),
{
    if a.len() > 0 && b.len() > 0 {
        lemma_text_less_total(a.drop_first(), b.drop_first());
        if a[0] != b[0] {
            assert((a[0] as int) != (b[0] as int));
        }
        if a[0] == b[0] && a != b {
            assert(a.drop_first() != b.drop_first()) by {
                if a.drop_first() == b.drop_first() {
                    assert(a =~= seq![a[0]] + a.drop_first());
                    assert(b =~= seq![b[0]] + b.drop_first());
                }
            }
        }
    } else if a.len() == 0 && b.len() == 0 {
        assert(a =~= b);
    }
}

pub proof fn lemma_text_less_transitive(a: Seq<char>, b: Seq<char>, c: Seq<char>)
    requires
        text_less(a, b),
        text_less(b, c),
    ensures
        text_less(a, c),
    decreases a.len(),
{
    if a.len() > 0 && b.len() > 0 && c.len() > 0 {
        if a[0] == b[0] && b[0] == c[0] {
            lemma_text_less_transitive(a.drop_first(), b.drop_first(), c.drop_first());
        }
    }
}

/// The variable that `first_min_index` picks has a least name.
pub proof fn lemma_first_min_is_least(s: Seq<(Seq<char>, Seq<char>)>)
    requires
        s.len() > 0,
    ensures
        forall|k: int| 0 <= k < s.len() ==> !text_less(#[trigger] s[k].0, s[first_min_index(s)].0),
    decreases s.len(),
{
    lemma_first_min_index_bounds(s);
    let m = first_min_index(s);
    if s.len() > 1 {
        let d = s.drop_last();
        lemma_first_min_is_least(d);
        lemma_first_min_index_bounds(d);
        let md = first_min_index(d);
        assert forall|k: int| 0 <= k < s.len() implies !text_less(#[trigger] s[k].0, s[m].0) by {
            if k < s.len() - 1 {
                assert(s[k] == d[k]);
                assert(!text_less(d[k].0, d[md].0));
                assert(d[md] == s[md]);
                if m == s.len() - 1 && text_less(s[k].0, s[m].0) {
                    lemma_text_less_transitive(s[k].0, s[m].0, s[md].0);
                }
            } else {
                if m == s.len() - 1 {
                    lemma_text_less_irreflexive(s[k].0);
                }
            }
        }
    } else {
        lemma_text_less_irreflexive(s[0].0);
    }
}

/// Setting a key twice leaves what the second setting makes.
proof fn lemma_put_twice(es: Seq<(Seq<char>, Tree)>, k: Seq<char>, v: Tree, w: Tree)
    ensures
        tree_put(tree_put(es, k, v), k, w) == tree_put(es, k, w),
{
    lemma_first_key_index(es, k);
    let j = first_key_index(es, k);
    let r = tree_put(es, k, v);
    lemma_first_key_index(r, k);
    let jr = first_key_index(r, k);
    if j >= 0 {
        assert(r[j].0 == k);
        if jr >= 0 && jr < j {
            assert(r[jr] == es[jr]);
        }
        assert(jr == j);
        assert(r.update(j, (k, w)) =~= es.update(j, (k, w)));
    } else {
        assert(r[es.len() as int].0 == k);
        if jr >= 0 && jr < es.len() {
            assert(r[jr] == es[jr]);
        }
        assert(jr == es.len());
        assert(r.update(jr, (k, w)) =~= es.push((k, w)));
    }
}

/// Writing the same value at the same path twice makes what writing it once
/// makes.
proof fn lemma_insert_path_twice(es: Seq<(Seq<char>, Tree)>, path: Seq<Seq<char>>, v: Tree)
    ensures
        tree_insert_path(tree_insert_path(es, path, v), path, v) == tree_insert_path(es, path, v),
    decreases path.len(),
{
    if path.len() == 1 {
        lemma_put_twice(es, path[0], v, v);
    } else if path.len() > 1 {
        let child = match tree_get(es, path[0]) {
            Some(Tree::Object(c)) => c,
            _ => Seq::empty(),
        };
        let c1 = tree_insert_path(child, path.drop_first(), v);
        let r1 = tree_put(es, path[0], Tree::Object(c1));
        lemma_put_get(es, path[0], Tree::Object(c1));
        lemma_insert_path_twice(child, path.drop_first(), v);
        lemma_put_twice(es, path[0], Tree::Object(c1), Tree::Object(c1));
        assert(tree_insert_path(r1, path, v) == tree_put(r1, path[0], Tree::Object(c1)));
    }
}

/// What a list without one of its entries still holds.
proof fn lemma_remove_members(s: Seq<(Seq<char>, Seq<char>)>, m: int)
    requires
        0 <= m < s.len(),
    ensures
        forall|x: (Seq<char>, Seq<char>)| #[trigger] s.remove(m).contains(x) ==> s.contains(x),
        forall|x: (Seq<char>, Seq<char>)| #[trigger] s.contains(x) && x != s[m] ==> s.remove(m).contains(x),
{
    let r = s.remove(m);
    assert forall|x: (Seq<char>, Seq<char>)| #[trigger] r.contains(x) implies s.contains(x) by {
        let i = choose|i: int| 0 <= i < r.len() && r[i] == x;
        if i < m {
            assert(s[i] == x);
        } else {
            assert(s[i + 1] == x);
        }
    }
    assert forall|x: (Seq<char>, Seq<char>)| #[trigger] s.contains(x) && x != s[m] implies r.contains(x) by {
        let i = choose|i: int| 0 <= i < s.len() && s[i] == x;
        if i < m {
            assert(r[i] == x);
        } else {
            assert(r[i - 1] == x);
        }
    }
}

/// Where the least variable is listed again, applying it twice makes what
/// applying it once makes: the list may drop that entry.
proof fn lemma_fold_drop_repeat(src: EnvSource, es: Seq<(Seq<char>, Tree)>, a: Seq<(Seq<char>, Seq<char>)>)
    requires
        consistent_vars(a),
        a.len() > 0,
        a.remove(first_min_index(a)).contains(a[first_min_index(a)]),
    ensures
        src.fold_vars(es, a) == src.fold_vars(es, a.remove(first_min_index(a))),
{
    lemma_first_min_index_bounds(a);
    lemma_first_min_is_least(a);
    let m = first_min_index(a);
    let x = a[m];
    let r = a.remove(m);
    lemma_remove_members(a, m);
    lemma_first_min_index_bounds(r);
    lemma_first_min_is_least(r);
    let m2 = first_min_index(r);
    let y = r[m2];
    assert(r.contains(y));
    assert(a.contains(y));
    let k = choose|k: int| 0 <= k < a.len() && a[k] == y;
    assert(!text_less(a[k].0, a[m].0));
    let kx = choose|k: int| 0 <= k < r.len() && r[k] == x;
    assert(!text_less(r[kx].0, r[m2].0));
    lemma_text_less_total(x.0, y.0);
    assert(a.contains(x));
    assert(x == y);
    let e1 = src.apply_var(es, x);
    let segs = env_segments(x.0.skip(src.prefix().len() as int));
    lemma_insert_path_twice(es, segs, env_value(x.1, src.list_keys().contains(join_dotted(segs))));
    assert(src.apply_var(e1, x) == e1);
    assert(src.fold_vars(es, a) == src.fold_vars(e1, r));
    assert(src.fold_vars(es, r) == src.fold_vars(e1, r.remove(m2)));
    assert(src.fold_vars(e1, r) == src.fold_vars(src.apply_var(e1, x), r.remove(m2)));
}

/// The variables are applied in the order of their names, and a repeated
/// variable is applied again to no effect, so the document depends only on
/// which variables are given.
proof fn lemma_fold_same_vars(
    src: EnvSource,
    es: Seq<(Seq<char>, Tree)>,
    a: Seq<(Seq<char>, Seq<char>)>,
    b: Seq<(Seq<char>, Seq<char>)>,
)
    requires
        consistent_vars(a),
        same_vars(a, b),
    ensures
        src.fold_vars(es, a) == src.fold_vars(es, b),
    decreases a.len() + b.len(),
{
    if a.len() == 0 {
        if b.len() > 0 {
            assert(b.contains(b[0]));
        }
    } else if b.len() == 0 {
        assert(a.contains(a[0]));
    } else {
        lemma_first_min_index_bounds(a);
        lemma_first_min_index_bounds(b);
        lemma_first_min_is_least(a);
        lemma_first_min_is_least(b);
        let ma = first_min_index(a);
        let mb = first_min_index(b);
        let x = a[ma];
        let y = b[mb];
        assert(a.contains(x));
        assert(b.contains(y));
        let kb = choose|k: int| 0 <= k < b.len() && b[k] == x;
        let ka = choose|k: int| 0 <= k < a.len() && a[k] == y;
        assert(!text_less(b[kb].0, b[mb].0));
        assert(!text_less(a[ka].0, a[ma].0));
        lemma_text_less_total(x.0, y.0);
        assert(x == y);
        let ra = a.remove(ma);
        let rb = b.remove(mb);
        lemma_remove_members(a, ma);
        lemma_remove_members(b, mb);
        assert(consistent_vars(b));
        if ra.contains(x) == rb.contains(x) {
            assert(same_vars(ra, rb)) by {
                assert forall|z: (Seq<char>, Seq<char>)| ra.contains(z) <==> rb.contains(z) by {
                    assert(a.contains(z) <==> b.contains(z));
                }
            }
            assert(consistent_vars(ra));
            lemma_fold_same_vars(src, src.apply_var(es, x), ra, rb);
        } else if ra.contains(x) {
            lemma_fold_drop_repeat(src, es, a);
            assert(same_vars(ra, b)) by {
                assert forall|z: (Seq<char>, Seq<char>)| ra.contains(z) <==> b.contains(z) by {
                    assert(a.contains(z) <==> b.contains(z));
                }
            }
            assert(consistent_vars(ra));
            lemma_fold_same_vars(src, es, ra, b);
        } else {
            lemma_fold_drop_repeat(src, es, b);
            assert(same_vars(a, rb)) by {
                assert forall|z: (Seq<char>, Seq<char>)| a.contains(z) <==> rb.contains(z) by {
                    assert(a.contains(z) <==> b.contains(z));
                }
            }
            lemma_fold_same_vars(src, es, a, rb);
        }
    }
}

/// The variables of a list whose names begin with a prefix.
proof fn lemma_with_prefix_vars(s: Seq<(Seq<char>, Seq<char>)>, p: Seq<char>)
    ensures
        forall|x: (Seq<char>, Seq<char>)| #[trigger] with_prefix(s, p).contains(x) <==> (s.contains(x) && has_prefix(x.0, p)),
    decreases s.len(),
{
    if s.len() > 0 {
        let d = s.drop_last();
        lemma_with_prefix_vars(d, p);
        let r = with_prefix(d, p);
        assert forall|x: (Seq<char>, Seq<char>)| s.contains(x) <==> (d.contains(x) || x == s.last()) by {
            if s.contains(x) {
                let i = choose|i: int| 0 <= i < s.len() && s[i] == x;
                if i < s.len() - 1 {
                    assert(d[i] == x);
                }
            }
            if d.contains(x) {
                let i = choose|i: int| 0 <= i < d.len() && d[i] == x;
                assert(s[i] == x);
            }
            if x == s.last() {
                assert(s[s.len() - 1] == x);
            }
        }
        if has_prefix(s.last().0, p) {
            let w = r.push(s.last());
            assert forall|x: (Seq<char>, Seq<char>)| w.contains(x) <==> (r.contains(x) || x == s.last()) by {
                if w.contains(x) {
                    let i = choose|i: int| 0 <= i < w.len() && w[i] == x;
                    if i < r.len() {
                        assert(r[i] == x);
                    }
                }
                if r.contains(x) {
                    let i = choose|i: int| 0 <= i < r.len() && r[i] == x;
                    assert(w[i] == x);
                }
                if x == s.last() {
                    assert(w[r.len() as int] == x);
                }
            }
        }
    }
}

/// Environment variables make the same document in whatever order they
/// are given, and however often each is repeated, as long as no name
/// stands for two values: a shorter name is always applied before a longer
/// one under it, so the collision policy is deterministic.
pub proof fn lemma_env_order_irrelevant(
    src: EnvSource,
    a: Seq<(Seq<char>, Seq<char>)>,
    b: Seq<(Seq<char>, Seq<char>)>,
)
    requires
        consistent_vars(a),
        same_vars(a, b),
    ensures
        src.tree(a) == src.tree(b),
{
    lemma_with_prefix_vars(a, src.prefix());
    lemma_with_prefix_vars(b, src.prefix());
    let pa = with_prefix(a, src.prefix());
    let pb = with_prefix(b, src.prefix());
    assert(same_vars(pa, pb)) by {
        assert forall|x: (Seq<char>, Seq<char>)| pa.contains(x) <==> pb.contains(x) by {
            assert(a.contains(x) <==> b.contains(x));
        }
    }
    assert(consistent_vars(pa));
    lemma_fold_same_vars(src, Seq::empty(), pa, pb);
}

/// Two key paths part ways: at some level both have a key, and the keys
/// differ. (Neither is then a prefix of the other.)
pub open spec fn diverge(p: Seq<Seq<char>>, q: Seq<Seq<char>>) -> bool {
    exists|k: int| 0 <= k < p.len() && k < q.len() && #[trigger] p[k] != #[trigger] q[k]
}

/// Setting a key leaves every other key as it was.
pub proof fn lemma_put_get_other(es: Seq<(Seq<char>, Tree)>, k: Seq<char>, v: Tree, other: Seq<char>)
    requires
        other != k,
    ensures
        tree_get(tree_put(es, k, v), other) == tree_get(es, other),
{
    lemma_first_key_index(es, k);
    lemma_first_key_index(es, other);
    let r = tree_put(es, k, v);
    lemma_first_key_index(r, other);
    let j = first_key_index(es, other);
    let jr = first_key_index(r, other);
    let jk = first_key_index(es, k);
    if jk >= 0 {
        assert(r.len() == es.len());
        assert(forall|i: int| 0 <= i < es.len() && i != jk ==> r[i] == es[i]);
        if j >= 0 {
            assert(j != jk);
            assert(r[j] == es[j]);
            if jr >= 0 && jr < j {
                if jr != jk {
                    assert(r[jr] == es[jr]);
                }
            }
        }
        if jr >= 0 {
            if jr != jk {
                assert(r[jr] == es[jr]);
            }
        }
    } else {
        assert(forall|i: int| 0 <= i < es.len() ==> r[i] == es[i]);
        if j >= 0 {
            assert(r[j] == es[j]);
        }
        if jr >= 0 && jr < es.len() {
            assert(r[jr] == es[jr]);
        }
    }
}

/// Writing at one key path leaves what is at any path that parts ways with
/// it as it was.
pub proof fn lemma_insert_path_keeps_others(
    es: Seq<(Seq<char>, Tree)>,
    p: Seq<Seq<char>>,
    v: Tree,
    q: Seq<Seq<char>>,
)
    requires
        diverge(p, q),
    ensures
        tree_at(Tree::Object(tree_insert_path(es, p, v)), q) == tree_at(Tree::Object(es), q),
    decreases p.len(),
{
    let k = choose|k: int| 0 <= k < p.len() && k < q.len() && #[trigger] p[k] != #[trigger] q[k];
    let child = match tree_get(es, p[0]) {
        Some(Tree::Object(c)) => c,
        _ => Seq::empty(),
    };
    let newv = if p.len() == 1 {
        v
    } else {
        Tree::Object(tree_insert_path(child, p.drop_first(), v))
    };
    if q[0] != p[0] {
        lemma_put_get_other(es, p[0], newv, q[0]);
    } else {
        assert(k >= 1);
        assert(p.len() > 1);
        lemma_put_get(es, p[0], newv);
        assert(p.drop_first()[k - 1] == p[k]);
        assert(q.drop_first()[k - 1] == q[k]);
        lemma_insert_path_keeps_others(child, p.drop_first(), v, q.drop_first());
        assert(q.drop_first().len() >= 1);
        match tree_get(es, p[0]) {
            Some(Tree::Object(c)) => {},
            _ => {
                assert(tree_get(Seq::<(Seq<char>, Tree)>::empty(), q.drop_first()[0]) is None) by {
                    lemma_first_key_index(Seq::<(Seq<char>, Tree)>::empty(), q.drop_first()[0]);
                }
            },
        }
    }
}

/// The key paths of the tracked leaves part ways pairwise, as those of a
/// struct's fields do.
pub open spec fn keys_part_ways(es: Seq<LeafProv>) -> bool {
    forall|i: int, j: int|
        0 <= i < j < es.len() && !es[i].skip && !es[j].skip ==> diverge(
            string_views(#[trigger] es[i].keys@),
            string_views(#[trigger] es[j].keys@),
        )
}

/// Serialising a built configuration writes each tracked leaf's active
/// value at the leaf's key path.
pub proof fn lemma_document_holds_active_values(es: Seq<LeafProv>, i: int)
    requires
        keys_part_ways(es),
        0 <= i < es.len(),
        !es[i].skip,
        es[i].keys@.len() >= 1,
    ensures
        tree_at(Tree::Object(active_entries(es)), string_views(es[i].keys@)) == Some(
            setting_tree(es[i].history@.last().0),
        ),
    decreases es.len(),
{
    let d = es.drop_last();
    let l = es.last();
    if i == es.len() - 1 {
        lemma_insert_path_reaches(active_entries(d), string_views(l.keys@), setting_tree(l.history@.last().0));
    } else {
        assert(es[i] == d[i]);
        assert(keys_part_ways(d)) by {
            assert forall|a: int, b: int|
                0 <= a < b < d.len() && !d[a].skip && !d[b].skip implies diverge(
                    string_views(#[trigger] d[a].keys@),
                    string_views(#[trigger] d[b].keys@),
                ) by {
                assert(d[a] == es[a] && d[b] == es[b]);
            }
        }
        lemma_document_holds_active_values(d, i);
        if !l.skip {
            let pi = string_views(es[i].keys@);
            let pl = string_views(l.keys@);
            assert(diverge(pi, pl));
            let k = choose|k: int| 0 <= k < pi.len() && k < pl.len() && #[trigger] pi[k] != #[trigger] pl[k];
            assert(pl[k] != pi[k]);
            assert(diverge(pl, pi));
            lemma_insert_path_keeps_others(active_entries(d), pl, setting_tree(l.history@.last().0), pi);
        }
    }
}

/// The sources map has an entry exactly for the path of each tracked leaf:
/// a skipped field never appears in it.
pub proof fn lemma_sources_map_keys(prefix: Seq<char>, es: Seq<LeafProv>, key: Seq<char>)
    ensures
        map_get(source_entries(prefix, es), key) is Some <==> exists|i: int|
            0 <= i < es.len() && !#[trigger] es[i].skip && prefixed(prefix, es[i].key@) == key,
    decreases es.len(),
{
    if es.len() > 0 {
        let d = es.drop_last();
        lemma_sources_map_keys(prefix, d, key);
        let l = es.last();
        if exists|i: int| 0 <= i < d.len() && !#[trigger] d[i].skip && prefixed(prefix, d[i].key@) == key {
            let i = choose|i: int| 0 <= i < d.len() && !#[trigger] d[i].skip && prefixed(prefix, d[i].key@) == key;
            assert(es[i] == d[i]);
        }
        if exists|i: int| 0 <= i < es.len() && !#[trigger] es[i].skip && prefixed(prefix, es[i].key@) == key {
            let i = choose|i: int| 0 <= i < es.len() && !#[trigger] es[i].skip && prefixed(prefix, es[i].key@) == key;
            if i < es.len() - 1 {
                assert(d[i] == es[i]);
            }
        }
        if !l.skip {
            let r = source_entries(prefix, d);
            assert(source_entries(prefix, es) == r.push((prefixed(prefix, l.key@), l.history@.last().1.1)));
            assert(r.push((prefixed(prefix, l.key@), l.history@.last().1.1)).drop_last() =~= r);
        }
    }
}

/// `walk_leaves` and the sources map go over the same leaves in the same
/// order: one visit per entry, with the entry's path and category.
pub proof fn lemma_visits_match_sources(prefix: Seq<char>, es: Seq<LeafProv>)
    ensures
        visits(prefix, es).len() == source_entries(prefix, es).len(),
        forall|i: int|
            0 <= i < visits(prefix, es).len() ==> (#[trigger] visits(prefix, es)[i]).0 == source_entries(
                prefix,
                es,
            )[i].0 && visits(prefix, es)[i].2 == source_entries(prefix, es)[i].1,
    decreases es.len(),
{
    if es.len() > 0 {
        lemma_visits_match_sources(prefix, es.drop_last());
    }
}

/// Where the paths of the tracked leaves are distinct, the sources map holds
/// one entry per visit of `walk_leaves` and nothing else: each visit's path
/// has the visit's category, and no other key has one.
pub proof fn lemma_sources_map_is_visits(prefix: Seq<char>, es: Seq<LeafProv>)
    requires
        keys_distinct(source_entries(prefix, es)),
    ensures
        source_entries(prefix, es).len() == visits(prefix, es).len(),
        forall|i: int|
            0 <= i < visits(prefix, es).len() ==> map_get(source_entries(prefix, es), #[trigger] visits(prefix, es)[i].0)
                == Some(visits(prefix, es)[i].2),
        forall|k: Seq<char>|
            #[trigger] map_get(source_entries(prefix, es), k) is Some ==> exists|i: int|
                0 <= i < visits(prefix, es).len() && #[trigger] visits(prefix, es)[i].0 == k,
{
    lemma_visits_match_sources(prefix, es);
    let m = source_entries(prefix, es);
    let w = visits(prefix, es);
    assert forall|i: int| 0 <= i < w.len() implies map_get(m, #[trigger] w[i].0) == Some(w[i].2) by {
        lemma_map_get(m, w[i].0);
    }
    assert forall|k: Seq<char>| #[trigger] map_get(m, k) is Some implies exists|i: int| 0 <= i < w.len() && #[trigger] w[i].0 == k by {
        lemma_map_get(m, k);
        let c = map_get(m, k)->Some_0;
        let i = choose|i: int| 0 <= i < m.len() && #[trigger] m[i] == (k, c);
        assert(w[i].0 == k);
    }
}

proof fn lemma_digit_char(d: nat)
    requires
        d < 10,
    ensures
        is_digit(digit_char(d)),
        (digit_char(d) as u32) - ('0' as u32) == d,
        digit_char(d) != '-',
{
}

proof fn lemma_nat_text_reads_back(n: nat)
    ensures
        all_digits(nat_text(n)),
        nat_text(n).len() > 0,
        digits_value(nat_text(n)) == n,
        nat_text(n)[0] != '-',
    decreases n,
{
    if n < 10 {
        lemma_digit_char(n);
        assert(nat_text(n).drop_last() =~= Seq::<char>::empty());
        assert(nat_text(n).last() == digit_char(n));
        assert(digits_value(nat_text(n)) == digits_value(Seq::<char>::empty()) * 10 + ((digit_char(n) as u32) - ('0' as u32)));
    } else {
        lemma_nat_text_reads_back(n / 10);
        lemma_digit_char(n % 10);
        let s = nat_text(n / 10);
        let t = s.push(digit_char(n % 10));
        assert(t.drop_last() =~= s);
        assert(nat_text(n) == t);
        assert(t.last() == digit_char(n % 10));
        assert(digits_value(t) == digits_value(s) * 10 + (n % 10));
        assert((n / 10) * 10 + n % 10 == n) by (nonlinear_arith);
        assert(all_digits(t)) by {
            assert forall|i: int| 0 <= i < t.len() implies is_digit(#[trigger] t[i]) by {
                if i < s.len() {
                    assert(t[i] == s[i]);
                }
            }
        }
    }
}

/// The decimal text of an integer reads back as the same integer.
pub proof fn lemma_int_text_reads_back(i: int)
    ensures
        integer_value(int_text(i)) == Some(i),
{
    if i < 0 {
        let n = (-i) as nat;
        lemma_nat_text_reads_back(n);
        assert((seq!['-'] + nat_text(n)).drop_first() =~= nat_text(n));
    } else {
        lemma_nat_text_reads_back(i as nat);
    }
}

/// A setting written as a document node reads back as itself for a leaf
/// whose kind it fits.
pub proof fn lemma_setting_reads_back(v: SettingView, kind: LeafKind, env_list: bool)
    requires
        fits(kind, v),
    ensures
        convert(setting_tree(v), kind, env_list) == Some(v),
{
    match v {
        SettingView::Int(i) => {
            lemma_int_text_reads_back(i);
        },
        SettingView::List(l) => {
            let items = l.map_values(|s: Seq<char>| Tree::Text(s));
            assert(all_text(items));
            assert(texts_of(items) =~= l);
        },
        _ => {},
    }
}

/// Whether no object along a key path holds a key's alias beside it.
pub open spec fn aliases_absent(es: Seq<(Seq<char>, Tree)>, keys: Seq<KeyView>) -> bool
    decreases keys.len(),
{
    if keys.len() == 0 {
        true
    } else {
        &&& match keys[0].1 {
            Some(a) => tree_get(es, a) is None,
            None => true,
        }
        &&& match tree_get(es, keys[0].0) {
            Some(Tree::Object(ces)) => aliases_absent(ces, keys.drop_first()),
            _ => true,
        }
    }
}

/// Where a path leads to a node that is not null, reading it with keys of
/// those names finds that node, unless an alias of a key stands beside it.
pub proof fn lemma_walk_finds_tree_at(
    es: Seq<(Seq<char>, Tree)>,
    keys: Seq<KeyView>,
    t: Tree,
    width: nat,
    strict: bool,
)
    requires
        keys.len() >= 1,
        tree_at(Tree::Object(es), keys.map_values(|k: KeyView| k.0)) == Some(t),
        !(t is Null),
        aliases_absent(es, keys),
    ensures
        walk(Tree::Object(es), keys, width, strict) == Ok::<Option<Tree>, ()>(Some(t)),
    decreases keys.len(),
{
    let names = keys.map_values(|k: KeyView| k.0);
    assert(names[0] == keys[0].0);
    match tree_get(es, names[0]) {
        Some(c) => {
            assert(key_lookup(es, keys[0]) == Ok::<Option<Tree>, ()>(Some(c)));
            assert(tree_at(Tree::Object(es), names) == tree_at(c, names.drop_first()));
            if keys.len() == 1 {
                assert(names.drop_first().len() == 0);
            } else {
                assert(names.drop_first() =~= keys.drop_first().map_values(|k: KeyView| k.0));
                match c {
                    Tree::Object(ces) => {
                        lemma_walk_finds_tree_at(ces, keys.drop_first(), t, keys[0].3, strict);
                    },
                    _ => {
                        assert(names.drop_first().len() > 0);
                    },
                }
            }
        },
        None => {},
    }
}

/// Reading a built configuration's own document against its schema gives
/// back every tracked leaf's active value, where that value fits the leaf
/// and no alias of the leaf's keys stands beside them in the document.
pub proof fn lemma_document_reads_back(es: Seq<LeafProv>, leaf: Leaf, width: nat, strict: bool, i: int)
    requires
        keys_part_ways(es),
        0 <= i < es.len(),
        !es[i].skip,
        es[i].keys@.len() >= 1,
        string_views(es[i].keys@) == leaf.keys@.map_values(|k: Key| k.name@),
        fits(leaf.kind, es[i].history@.last().0),
        aliases_absent(active_entries(es), leaf.key_path()),
    ensures
        leaf_reading(Tree::Object(active_entries(es)), leaf, width, strict) == Ok::<Option<SettingView>, ()>(
            Some(es[i].history@.last().0),
        ),
{
    let v = es[i].history@.last().0;
    lemma_document_holds_active_values(es, i);
    assert(leaf.key_path().map_values(|k: KeyView| k.0) =~= leaf.keys@.map_values(|k: Key| k.name@));
    assert(!(setting_tree(v) is Null));
    lemma_walk_finds_tree_at(active_entries(es), leaf.key_path(), setting_tree(v), width, strict);
    lemma_setting_reads_back(v, leaf.kind, leaf.env_list);
}

/// What a record gives back for a leaf after a round trip through its own
/// partial: the value it assigns to a tracked leaf, else the default.
pub open spec fn round_trip_value(x: Seq<(Seq<char>, SettingView)>, leaf: Leaf) -> SettingView {
    if !leaf.skip && assigned(x, leaf.field@) is Some {
        assigned(x, leaf.field@)->Some_0
    } else {
        leaf.default@
    }
}

/// A record's partial assigns only fields of tracked leaves.
proof fn lemma_tracked_assignments_fields(x: Seq<(Seq<char>, SettingView)>, leaves: Seq<Leaf>, f: Seq<char>)
    ensures
        assigned(tracked_assignments(x, leaves), f) is Some ==> exists|j: int|
            0 <= j < leaves.len() && !leaves[j].skip && #[trigger] leaves[j].field@ == f,
    decreases leaves.len(),
{
    if leaves.len() > 0 {
        let d = leaves.drop_last();
        lemma_tracked_assignments_fields(x, d, f);
        let r = tracked_assignments(x, d);
        let l = leaves.last();
        if assigned(r, f) is Some {
            let j = choose|j: int| 0 <= j < d.len() && !d[j].skip && #[trigger] d[j].field@ == f;
            assert(leaves[j] == d[j]);
        }
        if !l.skip && assigned(x, l.field@) is Some {
            let w = r.push((l.field@, assigned(x, l.field@)->Some_0));
            assert(w.drop_last() =~= r);
            assert(leaves[leaves.len() - 1] == l);
        }
    }
}

/// A record's partial assigns each tracked leaf what the record assigns it.
proof fn lemma_tracked_assignments_get(x: Seq<(Seq<char>, SettingView)>, leaves: Seq<Leaf>, i: int)
    requires
        0 <= i < leaves.len(),
        !leaves[i].skip,
    ensures
        assigned(tracked_assignments(x, leaves), leaves[i].field@) == assigned(x, leaves[i].field@),
    decreases leaves.len(),
{
    let d = leaves.drop_last();
    let r = tracked_assignments(x, d);
    let l = leaves.last();
    let f = leaves[i].field@;
    let pushed = !l.skip && assigned(x, l.field@) is Some;
    if pushed {
        let w = r.push((l.field@, assigned(x, l.field@)->Some_0));
        assert(w.drop_last() =~= r);
    }
    if pushed && l.field@ == f {
    } else if i < leaves.len() - 1 {
        assert(d[i] == leaves[i]);
        lemma_tracked_assignments_get(x, d, i);
    } else {
        lemma_tracked_assignments_fields(x, d, f);
        if assigned(r, f) is Some {
            let j = choose|j: int| 0 <= j < d.len() && !d[j].skip && #[trigger] d[j].field@ == f;
            assert(d[j] == leaves[j]);
            lemma_tracked_assignments_get(x, d, j);
        }
    }
}

/// Building from one CLI source that holds a record's own partial gives the
/// record back: every tracked leaf has the value the record assigns it (the
/// default where it assigns none) and every skipped leaf its default, the
/// record's values fitting their leaves.
pub proof fn lemma_record_round_trip(
    leaves: Seq<Leaf>,
    x: Seq<(Seq<char>, SettingView)>,
    c: CliSource,
    env: Seq<(Seq<char>, Seq<char>)>,
    width: nat,
    p: LeafProv,
    i: int,
)
    requires
        partial_fits(x, leaves),
        c.values() == tracked_assignments(x, leaves),
        0 <= i < leaves.len(),
        leaf_prov_is(
            p,
            leaves[i],
            source_views(seq![Source::Cli(c)]),
            source_readings(seq![Source::Cli(c)], env, leaves, width),
            i,
        ),
    ensures
        source_reading(Source::Cli(c), env, leaves, width) is Some,
        p.history@.last().0 == round_trip_value(x, leaves[i]),
{
    let pa = tracked_assignments(x, leaves);
    assert(partial_fits(pa, leaves)) by {
        assert forall|j: int| 0 <= j < leaves.len() && !leaves[j].skip implies match #[trigger] assigned(pa, leaves[j].field@) {
            Some(v) => fits(leaves[j].kind, v),
            None => true,
        } by {
            lemma_tracked_assignments_get(x, leaves, j);
        }
    }
    if !leaves[i].skip {
        lemma_tracked_assignments_get(x, leaves, i);
    }
    let vals = partial_values(pa, leaves);
    let rd = source_readings(seq![Source::Cli(c)], env, leaves, width);
    assert(rd =~= seq![vals]);
    let col = column(rd, i);
    assert(col =~= seq![vals[i]]);
    let srcs = source_views(seq![Source::Cli(c)]);
    assert(srcs.len() == 1);
    assert(srcs.drop_last().len() == 0);
    assert(col.drop_last().len() == 0);
    let l = leaves[i];
    let base = layered(l.default@, srcs.drop_last(), col.drop_last());
    assert(base == seq![(l.default@, defaults_source_view())]);
    assert(col.last() == vals[i]);
    if !l.skip {
        assert(vals[i] == assigned(x, l.field@));
        match assigned(x, l.field@) {
            Some(v) => {
                assert(layered(l.default@, srcs, col) == base.push((v, srcs.last())));
            },
            None => {
                assert(layered(l.default@, srcs, col) == base);
            },
        }
    }
}

/// Whether `q` is a prefix of `p`.
pub open spec fn path_prefix(q: Seq<Seq<char>>, p: Seq<Seq<char>>) -> bool {
    q.len() <= p.len() && q == p.take(q.len() as int)
}

/// Writing a value that is not an object at a path adds no key path but the
/// prefixes of that path.
proof fn lemma_insert_path_adds_only(es: Seq<(Seq<char>, Tree)>, p: Seq<Seq<char>>, v: Tree, q: Seq<Seq<char>>)
    requires
        !(v is Object),
        q.len() >= 1,
        tree_at(Tree::Object(tree_insert_path(es, p, v)), q) is Some,
    ensures
        tree_at(Tree::Object(es), q) is Some || path_prefix(q, p),
    decreases p.len(),
{
    if p.len() >= 1 {
        let c = if p.len() == 1 {
            v
        } else {
            let child = match tree_get(es, p[0]) {
                Some(Tree::Object(c)) => c,
                _ => Seq::empty(),
            };
            Tree::Object(tree_insert_path(child, p.drop_first(), v))
        };
        let r = tree_insert_path(es, p, v);
        assert(r == tree_put(es, p[0], c));
        if q[0] != p[0] {
            lemma_put_get_other(es, p[0], c, q[0]);
        } else {
            lemma_put_get(es, p[0], c);
            if q.len() == 1 {
                assert(q =~= p.take(1));
            } else if p.len() == 1 {
                assert(tree_at(v, q.drop_first()) is None);
            } else {
                let child = match tree_get(es, p[0]) {
                    Some(Tree::Object(c)) => c,
                    _ => Seq::empty(),
                };
                lemma_insert_path_adds_only(child, p.drop_first(), v, q.drop_first());
                if tree_at(Tree::Object(child), q.drop_first()) is Some {
                    if !(tree_get(es, p[0]) matches Some(Tree::Object(_))) {
                        assert(tree_get(child, q.drop_first()[0]) is None);
                    }
                } else {
                    assert(q =~= seq![q[0]] + q.drop_first());
                    assert(p.take(q.len() as int) =~= seq![p[0]] + p.drop_first().take(q.len() - 1));
                }
            }
        }
    }
}

/// Serialising a built configuration writes no key path but the prefixes
/// of the tracked leaves' key paths: a skipped field, or any other key,
/// never appears in the document.
pub proof fn lemma_document_keys(es: Seq<LeafProv>, q: Seq<Seq<char>>)
    requires
        q.len() >= 1,
        tree_at(Tree::Object(active_entries(es)), q) is Some,
    ensures
        exists|i: int| 0 <= i < es.len() && !es[i].skip && path_prefix(q, string_views(#[trigger] es[i].keys@)),
    decreases es.len(),
{
    if es.len() == 0 {
        assert(active_entries(es) == Seq::<(Seq<char>, Tree)>::empty());
        assert(tree_get(Seq::<(Seq<char>, Tree)>::empty(), q[0]) is None);
        assert(tree_at(Tree::Object(active_entries(es)), q) is None);
    } else {
        let d = es.drop_last();
        let l = es.last();
        if l.skip {
            assert(active_entries(es) == active_entries(d));
        } else {
            assert(active_entries(es) == tree_insert_path(active_entries(d), string_views(l.keys@), setting_tree(l.history@.last().0)));
            lemma_insert_path_adds_only(active_entries(d), string_views(l.keys@), setting_tree(l.history@.last().0), q);
        }
        if tree_at(Tree::Object(active_entries(d)), q) is Some {
            lemma_document_keys(d, q);
            let i = choose|i: int| 0 <= i < d.len() && !d[i].skip && path_prefix(q, string_views(#[trigger] d[i].keys@));
            assert(es[i] == d[i]);
            assert(path_prefix(q, string_views(es[i].keys@)));
        } else {
            assert(!l.skip);
            assert(es[es.len() - 1] == l);
            assert(path_prefix(q, string_views(es[es.len() - 1].keys@)));
        }
    }
}

/// A number read for an integer field takes exactly the range of the field's
/// Rust type: a value within `MIN..=MAX` of the type is that value, any
/// other is refused.
pub proof fn lemma_integer_kinds_take_their_type_range(t: Seq<char>, v: int, env_list: bool)
    requires
        integer_value(t) == Some(v),
    ensures
        convert(Tree::Number(t), LeafKind::U8, env_list) == if 0 <= v <= u8::MAX {
            Some(SettingView::Int(v))
        } else {
            None
        },
        convert(Tree::Number(t), LeafKind::U16, env_list) == if 0 <= v <= u16::MAX {
            Some(SettingView::Int(v))
        } else {
            None
        },
        convert(Tree::Number(t), LeafKind::U32, env_list) == if 0 <= v <= u32::MAX {
            Some(SettingView::Int(v))
        } else {
            None
        },
        convert(Tree::Number(t), LeafKind::U64, env_list) == if 0 <= v <= u64::MAX {
            Some(SettingView::Int(v))
        } else {
            None
        },
        convert(Tree::Number(t), LeafKind::USize, env_list) == if 0 <= v <= usize::MAX {
            Some(SettingView::Int(v))
        } else {
            None
        },
        convert(Tree::Number(t), LeafKind::I8, env_list) == if i8::MIN <= v <= i8::MAX {
            Some(SettingView::Int(v))
        } else {
            None
        },
        convert(Tree::Number(t), LeafKind::I16, env_list) == if i16::MIN <= v <= i16::MAX {
            Some(SettingView::Int(v))
        } else {
            None
        },
        convert(Tree::Number(t), LeafKind::I32, env_list) == if i32::MIN <= v <= i32::MAX {
            Some(SettingView::Int(v))
        } else {
            None
        },
        convert(Tree::Number(t), LeafKind::I64, env_list) == if i64::MIN <= v <= i64::MAX {
            Some(SettingView::Int(v))
        } else {
            None
        },
        convert(Tree::Number(t), LeafKind::ISize, env_list) == if isize::MIN <= v <= isize::MAX {
            Some(SettingView::Int(v))
        } else {
            None
        },
{
}

/// A variable that is not a list key becomes the JSON document its value
/// parses as, and the value as text only where it does not parse: with that
/// variable alone, its key path holds exactly that.
pub proof fn lemma_env_value_is_json_or_text(e: EnvSource, n: Seq<char>, v: Seq<char>)
    requires
        has_prefix(n, e.prefix()),
        env_segments(n.skip(e.prefix().len() as int)).len() >= 1,
        !e.list_keys().contains(join_dotted(env_segments(n.skip(e.prefix().len() as int)))),
    ensures
        tree_at(e.tree(seq![(n, v)]), env_segments(n.skip(e.prefix().len() as int))) == Some(
            match json_parse(v) {
                Some(t) => t,
                None => Tree::Text(v),
            },
        ),
{
    let vars = seq![(n, v)];
    let segs = env_segments(n.skip(e.prefix().len() as int));
    assert(vars.drop_last() =~= Seq::<(Seq<char>, Seq<char>)>::empty());
    assert(with_prefix(vars.drop_last(), e.prefix()) == Seq::<(Seq<char>, Seq<char>)>::empty());
    assert(Seq::<(Seq<char>, Seq<char>)>::empty().push((n, v)) =~= vars);
    assert(with_prefix(vars, e.prefix()) == vars);
    assert(first_min_index(vars) == 0);
    assert(vars.remove(0) =~= Seq::<(Seq<char>, Seq<char>)>::empty());
    let first = e.apply_var(Seq::empty(), (n, v));
    assert(e.fold_vars(Seq::empty(), vars) == e.fold_vars(first, vars.remove(0)));
    assert(e.fold_vars(first, Seq::empty()) == first);
    lemma_insert_path_reaches(Seq::empty(), segs, env_value(v, false));
}

/// How many of the leaves are tracked.
pub open spec fn tracked_count(es: Seq<LeafProv>) -> nat
    decreases es.len(),
{
    if es.len() == 0 {
        0
    } else {
        tracked_count(es.drop_last()) + if es.last().skip {
            0nat
        } else {
            1nat
        }
    }
}

/// `walk_leaves` visits the tracked leaves in order, once each, and the visit
/// of a leaf carries its path after `prefix`, its active value (the last
/// entry of its history), the category of the source of that value, and its
/// secret flag.
pub proof fn lemma_visits_are_the_active_values(prefix: Seq<char>, es: Seq<LeafProv>)
    ensures
        visits(prefix, es).len() == tracked_count(es),
        forall|k: int|
            0 <= k < es.len() && !es[k].skip ==> #[trigger] visits(prefix, es)[tracked_count(es.take(k)) as int] == (
                prefixed(prefix, es[k].key@),
                es[k].history@.last().0,
                es[k].history@.last().1.1,
                es[k].history.secret_flag(),
            ),
    decreases es.len(),
{
    if es.len() > 0 {
        let d = es.drop_last();
        lemma_visits_are_the_active_values(prefix, d);
        assert forall|k: int|
            0 <= k < es.len() && !es[k].skip implies #[trigger] visits(prefix, es)[tracked_count(es.take(k)) as int] == (
                prefixed(prefix, es[k].key@),
                es[k].history@.last().0,
                es[k].history@.last().1.1,
                es[k].history.secret_flag(),
            ) by {
            if k < es.len() - 1 {
                assert(es.take(k) =~= d.take(k));
                assert(es[k] == d[k]);
                assert(!d[k].skip);
                assert(visits(prefix, d)[tracked_count(d.take(k)) as int] == (
                    prefixed(prefix, d[k].key@),
                    d[k].history@.last().0,
                    d[k].history@.last().1.1,
                    d[k].history.secret_flag(),
                ));
                lemma_tracked_count_prefix(d, k);
            } else {
                assert(es.take(k) =~= d);
            }
        }
    }
}

/// Fewer leaves have no more tracked ones.
proof fn lemma_tracked_count_prefix(es: Seq<LeafProv>, k: int)
    requires
        0 <= k < es.len(),
        !es[k].skip,
    ensures
        tracked_count(es.take(k)) < tracked_count(es),
    decreases es.len(),
{
    let d = es.drop_last();
    if k == es.len() - 1 {
        assert(es.take(k) =~= d);
    } else {
        assert(es.take(k) =~= d.take(k));
        assert(d[k] == es[k]);
        lemma_tracked_count_prefix(d, k);
    }
}

/// The plain record assigns every leaf's active value under the leaf's Rust
/// field path, whatever its document key (where two leaves share a path, the
/// later one's), and assigns nothing under any other path.
pub proof fn lemma_record_keyed_by_field(es: Seq<LeafProv>)
    ensures
        forall|k: int|
            0 <= k < es.len() && (forall|j: int| k < j < es.len() ==> es[j].field@ != es[k].field@) ==> #[trigger] assigned(
                record_of(es),
                es[k].field@,
            ) == Some(es[k].history@.last().0),
        forall|f: Seq<char>|
            #[trigger] assigned(record_of(es), f) is Some ==> exists|k: int| 0 <= k < es.len() && #[trigger] es[k].field@ == f,
    decreases es.len(),
{
    if es.len() > 0 {
        let d = es.drop_last();
        let l = es.last();
        lemma_record_keyed_by_field(d);
        let r = record_of(es);
        assert(r.drop_last() =~= record_of(d));
        assert(r[es.len() - 1] == (l.field@, l.history@.last().0));
        assert(r.last() == (l.field@, l.history@.last().0));
        assert forall|k: int|
            0 <= k < es.len() && (forall|j: int| k < j < es.len() ==> es[j].field@ != es[k].field@) implies #[trigger] assigned(
                record_of(es),
                es[k].field@,
            ) == Some(es[k].history@.last().0) by {
            if k < es.len() - 1 {
                assert(es[k] == d[k]);
                assert(es[es.len() - 1].field@ != es[k].field@);
                assert forall|j: int| k < j < d.len() implies d[j].field@ != d[k].field@ by {
                    assert(d[j] == es[j]);
                }
                assert(assigned(r, es[k].field@) == assigned(record_of(d), d[k].field@));
            } else {
                assert(es[k] == l);
            }
        }
        assert forall|f: Seq<char>| #[trigger] assigned(record_of(es), f) is Some implies exists|k: int|
            0 <= k < es.len() && #[trigger] es[k].field@ == f by {
            if l.field@ == f {
                assert(es[es.len() - 1].field@ == f);
            } else {
                assert(assigned(r, f) == assigned(record_of(d), f));
                assert(assigned(record_of(d), f) is Some);
                let k = choose|k: int| 0 <= k < d.len() && #[trigger] d[k].field@ == f;
                assert(es[k] == d[k]);
            }
        }
    }
}

/// A value that a source sets enters the history under that source's own
/// name and category: the name it was given, and the category of its kind.
pub proof fn lemma_history_names_its_source(
    sources: Seq<Source>,
    x: Source,
    env: Seq<(Seq<char>, Seq<char>)>,
    leaves: Seq<Leaf>,
    width: nat,
    i: int,
)
    requires
        0 <= i < leaves.len(),
        source_reading(x, env, leaves, width) is Some,
        source_reading(x, env, leaves, width)->Some_0[i] is Some,
    ensures
        leaf_history(sources.push(x), env, leaves, width, i).last() == (
            source_reading(x, env, leaves, width)->Some_0[i]->Some_0,
            match x {
                Source::Json(j) => (j.label(), CategoryView::File),
                Source::Toml(t) => (t.label(), CategoryView::File),
                Source::Env(e) => (e.label(), CategoryView::Env),
                Source::Cli(c) => (c.label(), CategoryView::Cli),
                Source::Custom(c) => (c.label(), c.kind()@),
            },
        ),
{
    lemma_added_source(sources, x, env, leaves, width, i);
}

} // verus!
