//! The document tree that every source hands to the schema reader: the
//! shape of a JSON value, with numbers kept as their decimal text.
use vstd::prelude::*;

verus! {

/// A configuration document: what a JSON or TOML text parses into, what the
/// environment variables of a prefix are folded into, or what a custom source
/// supplies. Numbers are kept as their text, so that no float ever enters the
/// library; the schema reader parses integer text where a leaf wants one.
#[derive(Debug)]
pub enum Node {
    Null,
    Bool(bool),
    Number(String),
    Text(String),
    Array(Vec<Node>),
    Object(Vec<(String, Node)>),
}

/// The mathematical model of a [`Node`].
pub enum Tree {
    Null,
    Bool(bool),
    Number(Seq<char>),
    Text(Seq<char>),
    Array(Seq<Tree>),
    Object(Seq<(Seq<char>, Tree)>),
}

/// The model of one node.
pub open spec fn tree_of(n: Node) -> Tree
    decreases n,
{
    match n {
        Node::Null => Tree::Null,
        Node::Bool(b) => Tree::Bool(b),
        Node::Number(t) => Tree::Number(t@),
        Node::Text(t) => Tree::Text(t@),
        Node::Array(items) => Tree::Array(trees_of(items@)),
        Node::Object(es) => Tree::Object(entries_of(es@)),
    }
}

/// The models of a sequence of nodes, element by element.
pub open spec fn trees_of(s: Seq<Node>) -> Seq<Tree>
    decreases s,
{
    if s.len() == 0 {
        Seq::empty()
    } else {
        trees_of(s.drop_last()).push(tree_of(s.last()))
    }
}

/// The models of the entries of an object, entry by entry.
pub open spec fn entries_of(s: Seq<(String, Node)>) -> Seq<(Seq<char>, Tree)>
    decreases s,
{
    if s.len() == 0 {
        Seq::empty()
    } else {
        entries_of(s.drop_last()).push((s.last().0@, tree_of(s.last().1)))
    }
}

impl View for Node {
    type V = Tree;

    open spec fn view(&self) -> Tree {
        tree_of(*self)
    }
}

pub proof fn lemma_trees_of(s: Seq<Node>)
    ensures
        trees_of(s).len() == s.len(),
        forall|i: int| 0 <= i < s.len() ==> #[trigger] trees_of(s)[i] == tree_of(s[i]),
    decreases s.len(),
{
    if s.len() > 0 {
        lemma_trees_of(s.drop_last());
    }
}

pub proof fn lemma_entries_of(s: Seq<(String, Node)>)
    ensures
        entries_of(s).len() == s.len(),
        forall|i: int|
            0 <= i < s.len() ==> #[trigger] entries_of(s)[i] == (s[i].0@, tree_of(s[i].1)),
    decreases s.len(),
{
    if s.len() > 0 {
        lemma_entries_of(s.drop_last());
    }
}

/// Two entry lists with the same models entry by entry have the same model.
pub proof fn lemma_entries_of_ext(s: Seq<(String, Node)>, m: Seq<(Seq<char>, Tree)>)
    requires
        s.len() == m.len(),
        forall|i: int| 0 <= i < s.len() ==> (s[i].0@, tree_of(s[i].1)) == #[trigger] m[i],
    ensures
        entries_of(s) == m,
{
    lemma_entries_of(s);
    assert(entries_of(s) =~= m);
}

pub proof fn lemma_trees_of_ext(s: Seq<Node>, m: Seq<Tree>)
    requires
        s.len() == m.len(),
        forall|i: int| 0 <= i < s.len() ==> tree_of(s[i]) == #[trigger] m[i],
    ensures
        trees_of(s) == m,
{
    lemma_trees_of(s);
    assert(trees_of(s) =~= m);
}

/// Index of the first entry whose key is `k`, or -1.
pub open spec fn first_key_index(es: Seq<(Seq<char>, Tree)>, k: Seq<char>) -> int
    decreases es.len(),
{
    if es.len() == 0 {
        -1
    } else {
        let j = first_key_index(es.drop_last(), k);
        if j >= 0 {
            j
        } else if es.last().0 == k {
            es.len() - 1
        } else {
            -1
        }
    }
}

/// What `first_key_index` is, said directly.
pub proof fn lemma_first_key_index(es: Seq<(Seq<char>, Tree)>, k: Seq<char>)
    ensures
        -1 <= first_key_index(es, k) < es.len(),
        first_key_index(es, k) >= 0 ==> es[first_key_index(es, k)].0 == k,
        forall|j: int|
            0 <= j < es.len() && (first_key_index(es, k) < 0 || j < first_key_index(es, k))
                ==> #[trigger] es[j].0 != k,
    decreases es.len(),
{
    if es.len() > 0 {
        lemma_first_key_index(es.drop_last(), k);
        let d = es.drop_last();
        assert forall|j: int|
            0 <= j < es.len() && (first_key_index(es, k) < 0 || j < first_key_index(es, k))
                implies #[trigger] es[j].0 != k by {
            if j < es.len() - 1 {
                assert(es[j] == d[j]);
            }
        }
    }
}

/// `first_key_index` looks at the keys only.
pub proof fn lemma_first_key_index_same_keys(
    a: Seq<(Seq<char>, Tree)>,
    b: Seq<(Seq<char>, Tree)>,
    k: Seq<char>,
)
    requires
        a.len() == b.len(),
        forall|i: int| 0 <= i < a.len() ==> #[trigger] a[i].0 == b[i].0,
    ensures
        first_key_index(a, k) == first_key_index(b, k),
    decreases a.len(),
{
    if a.len() > 0 {
        let da = a.drop_last();
        let db = b.drop_last();
        assert forall|i: int| 0 <= i < da.len() implies #[trigger] da[i].0 == db[i].0 by {
            assert(da[i] == a[i] && db[i] == b[i]);
        }
        lemma_first_key_index_same_keys(da, db, k);
    }
}

/// The value under key `k` of an object's entries (the first entry with that key).
pub open spec fn tree_get(es: Seq<(Seq<char>, Tree)>, k: Seq<char>) -> Option<Tree> {
    let j = first_key_index(es, k);
    if j >= 0 {
        Some(es[j].1)
    } else {
        None
    }
}

/// The entries after setting key `k` to `v`: the first entry with that key
/// takes the new value in place; with no such entry, one is appended.
pub open spec fn tree_put(es: Seq<(Seq<char>, Tree)>, k: Seq<char>, v: Tree) -> Seq<
    (Seq<char>, Tree),
> {
    let j = first_key_index(es, k);
    if j >= 0 {
        es.update(j, (k, v))
    } else {
        es.push((k, v))
    }
}

/// The entries after writing `v` at the key path `path`. Along the way every
/// missing object is created, and every value that is not an object is
/// replaced by an empty object, so a later, deeper write wins over an earlier
/// value at one of its parents.
pub open spec fn tree_insert_path(
    es: Seq<(Seq<char>, Tree)>,
    path: Seq<Seq<char>>,
    v: Tree,
) -> Seq<(Seq<char>, Tree)>
    decreases path.len(),
{
    if path.len() == 0 {
        es
    } else if path.len() == 1 {
        tree_put(es, path[0], v)
    } else {
        let child = match tree_get(es, path[0]) {
            Some(Tree::Object(c)) => c,
            _ => Seq::empty(),
        };
        tree_put(es, path[0], Tree::Object(tree_insert_path(child, path.drop_first(), v)))
    }
}

/// The subtree at a key path, if there is one.
pub open spec fn tree_at(t: Tree, path: Seq<Seq<char>>) -> Option<Tree>
    decreases path.len(),
{
    if path.len() == 0 {
        Some(t)
    } else {
        match t {
            Tree::Object(es) => match tree_get(es, path[0]) {
                Some(c) => tree_at(c, path.drop_first()),
                None => None,
            },
            _ => None,
        }
    }
}

pub open spec fn string_views(s: Seq<String>) -> Seq<Seq<char>> {
    s.map_values(|x: String| x@)
}

/// Index of the first entry with key `key`.
pub fn find_key(entries: &Vec<(String, Node)>, key: &String) -> (r: Option<usize>)
    ensures
        match r {
            Some(i) => i as int == first_key_index(entries_of(entries@), key@),
            None => first_key_index(entries_of(entries@), key@) == -1,
        },
{
    proof {
        lemma_entries_of(entries@);
        lemma_first_key_index(entries_of(entries@), key@);
    }
    let mut i: usize = 0;
    while i < entries.len()
        invariant
            0 <= i <= entries.len(),
            entries_of(entries@).len() == entries@.len(),
            forall|j: int| 0 <= j < i ==> #[trigger] entries@[j].0@ != key@,
            forall|j: int|
                0 <= j < entries@.len() ==> #[trigger] entries_of(entries@)[j] == (
                    entries@[j].0@,
                    tree_of(entries@[j].1),
                ),
            -1 <= first_key_index(entries_of(entries@), key@) < entries@.len(),
            first_key_index(entries_of(entries@), key@) >= 0 ==> entries_of(entries@)[first_key_index(
                entries_of(entries@),
                key@,
            )].0 == key@,
            forall|j: int|
                0 <= j < entries@.len() && (first_key_index(entries_of(entries@), key@) < 0 || j
                    < first_key_index(entries_of(entries@), key@)) ==> #[trigger] entries_of(
                    entries@,
                )[j].0 != key@,
        decreases entries.len() - i,
    {
        if entries[i].0 == *key {
            proof {
                let f = first_key_index(entries_of(entries@), key@);
                assert(entries_of(entries@)[i as int].0 == key@);
                if f >= 0 && f != i {
                    if f < i {
                        assert(entries@[f].0@ != key@);
                    }
                }
            }
            return Some(i);
        }
        i = i + 1;
    }
    proof {
        let f = first_key_index(entries_of(entries@), key@);
        if f >= 0 {
            assert(entries@[f].0@ != key@);
        }
    }
    None
}

/// Set `key` to `value` in an object's entries, as `tree_put` says.
pub fn object_put(entries: &mut Vec<(String, Node)>, key: String, value: Node)
    ensures
        entries_of(final(entries)@) == tree_put(entries_of(old(entries)@), key@, value@),
{
    let ghost old_es = entries@;
    proof {
        lemma_entries_of(old_es);
    }
    let found = find_key(entries, &key);
    proof {
        lemma_first_key_index(entries_of(old_es), key@);
    }
    match found {
        Some(i) => {
            let ghost kv = key@;
            let ghost vv = value@;
            entries.set(i, (key, value));
            proof {
                lemma_entries_of_ext(
                    entries@,
                    entries_of(old_es).update(i as int, (kv, vv)),
                );
            }
        },
        None => {
            let ghost kv = key@;
            let ghost vv = value@;
            entries.push((key, value));
            proof {
                lemma_entries_of_ext(entries@, entries_of(old_es).push((kv, vv)));
            }
        },
    }
}

/// Write `value` at the key path `path[start..]`, as `tree_insert_path` says.
pub fn insert_nested(
    root: &mut Vec<(String, Node)>,
    path: &Vec<String>,
    start: usize,
    value: Node,
)
    requires
        start <= path.len(),
    ensures
        entries_of(final(root)@) == tree_insert_path(
            entries_of(old(root)@),
            string_views(path@).skip(start as int),
            value@,
        ),
    decreases path.len() - start,
{
    let ghost keys = string_views(path@).skip(start as int);
    if start == path.len() {
        assert(keys.len() == 0);
        return ;
    }
    assert(keys[0] == path@[start as int]@);
    if start + 1 == path.len() {
        object_put(root, path[start].clone(), value);
        return ;
    }
    let ghost old_es = root@;
    proof {
        lemma_entries_of(old_es);
        lemma_first_key_index(entries_of(old_es), keys[0]);
    }
    let head = path[start].clone();
    let found = find_key(root, &head);
    let mut child: Vec<(String, Node)> = Vec::new();
    match found {
        Some(i) => {
            let ghost cur = root@[i as int].1;
            let mut taken = Node::Null;
            std::mem::swap(&mut taken, &mut root[i].1);
            assert(taken == cur);
            match taken {
                Node::Object(c) => {
                    child = c;
                },
                _ => {},
            }
            proof {
                lemma_entries_of(root@);
                assert(tree_get(entries_of(old_es), keys[0]) == Some(tree_of(cur)));
            }
        },
        None => {},
    }
    let ghost mid_es = root@;
    proof {
        lemma_entries_of(mid_es);
        lemma_entries_of(child@);
        let c0 = match tree_get(entries_of(old_es), keys[0]) {
            Some(Tree::Object(c)) => c,
            _ => Seq::empty(),
        };
        assert(entries_of(child@) == c0) by {
            if found is Some {
                let i = found->0 as int;
                match old_es[i].1 {
                    Node::Object(c) => {},
                    _ => {},
                }
            } else {
            }
        }
        assert(string_views(path@).skip(start + 1) == keys.drop_first());
        // The head key's entry now holds `Null`; its position is the same.
        assert(first_key_index(entries_of(mid_es), keys[0]) == first_key_index(
            entries_of(old_es),
            keys[0],
        )) by {
            assert forall|i: int| 0 <= i < mid_es.len() implies #[trigger] entries_of(
                mid_es,
            )[i].0 == entries_of(old_es)[i].0 by {
                assert(mid_es[i].0 == old_es[i].0);
            }
            lemma_first_key_index_same_keys(entries_of(mid_es), entries_of(old_es), keys[0]);
        }
    }
    insert_nested(&mut child, path, start + 1, value);
    let ghost new_child = child@;
    object_put(root, head, Node::Object(child));
    proof {
        let j = first_key_index(entries_of(old_es), keys[0]);
        if j >= 0 {
            assert(entries_of(mid_es).update(j, (keys[0], Tree::Object(entries_of(new_child))))
                =~= entries_of(old_es).update(j, (keys[0], Tree::Object(entries_of(new_child)))));
        } else {
            assert(found is None);
            assert(mid_es == old_es);
        }
    }
}

} // verus!
