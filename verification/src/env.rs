//! Environment variables as a source: the variables of one prefix folded
//! into a nested document.
use crate::category::Category;
use crate::json::{json_parse, parse_json};
use crate::node::{
    tree_of, entries_of, insert_nested, lemma_trees_of_ext, string_views, tree_insert_path, Node, Tree,
};
use crate::text::{
    chars_of, join_dotted, join_dotted_strings, less_text, lowercase, split, split_chars,
    starts_with, string_of, text_less, has_prefix, to_lowercase, trim, trim_chars,
};
use vstd::prelude::*;
use vstd::string::*;

verus! {

/// The models of environment variables: name and value.
pub open spec fn var_views(vars: Seq<(String, String)>) -> Seq<(Seq<char>, Seq<char>)> {
    vars.map_values(|v: (String, String)| (v.0@, v.1@))
}

/// The variables whose names begin with `p`, in their order.
pub open spec fn with_prefix(vars: Seq<(Seq<char>, Seq<char>)>, p: Seq<char>) -> Seq<
    (Seq<char>, Seq<char>),
>
    decreases vars.len(),
{
    if vars.len() == 0 {
        Seq::empty()
    } else {
        let r = with_prefix(vars.drop_last(), p);
        if has_prefix(vars.last().0, p) {
            r.push(vars.last())
        } else {
            r
        }
    }
}

/// The index of the first variable whose name is least; 0 for no variables.
pub open spec fn first_min_index(vars: Seq<(Seq<char>, Seq<char>)>) -> int
    decreases vars.len(),
{
    if vars.len() <= 1 {
        0
    } else {
        let j = first_min_index(vars.drop_last());
        if text_less(vars.last().0, vars[j].0) {
            vars.len() - 1
        } else {
            j
        }
    }
}

pub proof fn lemma_first_min_index_bounds(vars: Seq<(Seq<char>, Seq<char>)>)
    ensures
        vars.len() > 0 ==> 0 <= first_min_index(vars) < vars.len(),
    decreases vars.len(),
{
    if vars.len() > 1 {
        lemma_first_min_index_bounds(vars.drop_last());
    }
}

/// The key path of a variable's name after the prefix: the pieces between
/// `__`, each lower-cased.
pub open spec fn env_segments(rest: Seq<char>) -> Seq<Seq<char>> {
    split(rest, seq!['_', '_']).map_values(|s: Seq<char>| lowercase(s))
}

/// What a variable's value becomes. For a list key: an array of the pieces
/// between commas, each trimmed, and an empty array for an empty value.
/// Otherwise the JSON document that the value parses as, or else the value
/// as text.
pub open spec fn env_value(v: Seq<char>, is_list: bool) -> Tree {
    if is_list {
        if v.len() == 0 {
            Tree::Array(Seq::empty())
        } else {
            Tree::Array(split(v, seq![',']).map_values(|s: Seq<char>| Tree::Text(trim(s))))
        }
    } else {
        match json_parse(v) {
            Some(t) => t,
            None => Tree::Text(v),
        }
    }
}

/// Reads configuration values from environment variables.
///
/// All variables whose names start with `<prefix>_` are collected into a
/// document. Each `__` in the rest of the name introduces a nested level, and
/// the segments are lower-cased to match field names. The variables are
/// applied in the order of their names, so a shorter name (`PREFIX_A`) is
/// always applied before a deeper one (`PREFIX_A__B`), and the deeper one wins
/// where the two collide.
pub struct EnvSource {
    name: String,
    prefix_with_sep: String,
    list_keys: Vec<String>,
}

impl EnvSource {
    /// The human-readable label used in error messages.
    pub closed spec fn label(&self) -> Seq<char> {
        self.name@
    }

    /// `<prefix>_`: what the names of the variables read begin with.
    pub closed spec fn prefix(&self) -> Seq<char> {
        self.prefix_with_sep@
    }

    /// The dotted paths, lower-cased, whose values are comma-separated lists.
    pub closed spec fn list_keys(&self) -> Seq<Seq<char>> {
        string_views(self.list_keys@)
    }

    /// The entries after one variable is applied.
    pub open spec fn apply_var(&self, es: Seq<(Seq<char>, Tree)>, var: (Seq<char>, Seq<char>)) -> Seq<
        (Seq<char>, Tree),
    > {
        let segs = env_segments(var.0.skip(self.prefix().len() as int));
        tree_insert_path(es, segs, env_value(var.1, self.list_keys().contains(join_dotted(segs))))
    }

    /// The entries after the variables are applied, least name first (and
    /// among equal names, the earlier first).
    pub open spec fn fold_vars(
        &self,
        es: Seq<(Seq<char>, Tree)>,
        vars: Seq<(Seq<char>, Seq<char>)>,
    ) -> Seq<(Seq<char>, Tree)>
        decreases vars.len(),
    {
        if vars.len() == 0 {
            es
        } else {
            let i = first_min_index(vars);
            if 0 <= i < vars.len() {
                self.fold_vars(self.apply_var(es, vars[i]), vars.remove(i))
            } else {
                es
            }
        }
    }

    /// The document that the variables make.
    pub open spec fn tree(&self, vars: Seq<(Seq<char>, Seq<char>)>) -> Tree {
        Tree::Object(self.fold_vars(Seq::empty(), with_prefix(vars, self.prefix())))
    }

    /// An environment source. `name` is a human-readable label used in error
    /// messages; only variables starting with `<prefix>_` are read.
    pub fn new(name: &str, prefix: &str) -> (r: EnvSource)
        ensures
            r.label() == name@,
            r.prefix() == prefix@.push('_'),
            r.list_keys() == Seq::<Seq<char>>::empty(),
    {
        let mut p = String::from_str(prefix);
        p.push('_');
        let r = EnvSource { name: String::from_str(name), prefix_with_sep: p, list_keys: Vec::new() };
        assert(r.list_keys() =~= Seq::<Seq<char>>::empty());
        r
    }

    /// Marks dotted paths (`"section.field"`) as comma-separated lists. They
    /// are lower-cased, as the variables' segments are, so either case matches.
    pub fn with_list_keys(self, keys: &[&str]) -> (r: EnvSource)
        ensures
            r.label() == self.label(),
            r.prefix() == self.prefix(),
            r.list_keys() == self.list_keys() + keys@.map_values(|k: &str| lowercase(k@)),
    {
        let EnvSource { name, prefix_with_sep, list_keys } = self;
        let mut list_keys = list_keys;
        let ghost start = string_views(list_keys@);
        let mut i: usize = 0;
        while i < keys.len()
            invariant
                i <= keys.len(),
                string_views(list_keys@) == start + keys@.take(i as int).map_values(
                    |k: &str| lowercase(k@),
                ),
            decreases keys.len() - i,
        {
            let k = to_lowercase(keys[i]);
            let ghost old_lk = list_keys@;
            list_keys.push(k);
            proof {
                assert(string_views(list_keys@) =~= string_views(old_lk).push(k@));
                assert(keys@.take(i + 1) =~= keys@.take(i as int).push(keys@[i as int]));
                assert(string_views(list_keys@) =~= start + keys@.take(i + 1).map_values(
                    |k: &str| lowercase(k@),
                ));
            }
            i = i + 1;
        }
        assert(keys@.take(keys.len() as int) =~= keys@);
        EnvSource { name, prefix_with_sep, list_keys }
    }

    pub fn name(&self) -> (r: &str)
        ensures
            r@ == self.label(),
    {
        self.name.as_str()
    }

    pub fn category(&self) -> (r: Category)
        ensures
            r == Category::Env,
    {
        Category::Env
    }

    fn is_list_key(&self, dotted: &String) -> (r: bool)
        ensures
            r == self.list_keys().contains(dotted@),
    {
        let mut i: usize = 0;
        while i < self.list_keys.len()
            invariant
                i <= self.list_keys.len(),
                forall|j: int| 0 <= j < i ==> self.list_keys@[j]@ != dotted@,
            decreases self.list_keys.len() - i,
        {
            if self.list_keys[i] == *dotted {
                assert(self.list_keys()[i as int] == dotted@);
                return true;
            }
            i = i + 1;
        }
        proof {
            if self.list_keys().contains(dotted@) {
                let j = choose|j: int|
                    0 <= j < self.list_keys().len() && self.list_keys()[j] == dotted@;
                assert(self.list_keys@[j]@ == dotted@);
            }
        }
        false
    }

    /// Applies one variable, whose name begins with the prefix.
    fn apply(&self, root: &mut Vec<(String, Node)>, key: &String, value: &String)
        requires
            has_prefix(key@, self.prefix()),
        ensures
            entries_of(final(root)@) == self.apply_var(entries_of(old(root)@), (key@, value@)),
    {
        let kc = chars_of(key.as_str());
        let plen = self.prefix_with_sep.unicode_len();
        let mut rest: Vec<char> = Vec::new();
        let mut i: usize = plen;
        while i < kc.len()
            invariant
                plen <= i <= kc.len(),
                rest@ == kc@.subrange(plen as int, i as int),
            decreases kc.len() - i,
        {
            rest.push(kc[i]);
            assert(kc@.subrange(plen as int, i + 1) =~= kc@.subrange(plen as int, i as int).push(
                kc@[i as int],
            ));
            i = i + 1;
        }
        assert(rest@ =~= key@.skip(plen as int));
        let mut sep: Vec<char> = Vec::new();
        sep.push('_');
        sep.push('_');
        assert(sep@ =~= seq!['_', '_']);
        let pieces = split_chars(&rest, &sep);
        let ghost pieces_v = pieces@.map_values(|p: Vec<char>| p@);
        let mut segs: Vec<String> = Vec::new();
        let mut j: usize = 0;
        while j < pieces.len()
            invariant
                j <= pieces.len(),
                pieces_v == pieces@.map_values(|p: Vec<char>| p@),
                string_views(segs@) == pieces_v.take(j as int).map_values(
                    |s: Seq<char>| lowercase(s),
                ),
            decreases pieces.len() - j,
        {
            let piece = string_of(&pieces[j]);
            let low = to_lowercase(piece.as_str());
            let ghost old_segs = segs@;
            segs.push(low);
            proof {
                assert(string_views(segs@) =~= string_views(old_segs).push(low@));
                assert(pieces_v.take(j + 1) =~= pieces_v.take(j as int).push(pieces_v[j as int]));
                assert(string_views(segs@) =~= pieces_v.take(j + 1).map_values(
                    |s: Seq<char>| lowercase(s),
                ));
            }
            j = j + 1;
        }
        assert(pieces_v.take(pieces.len() as int) =~= pieces_v);
        let ghost segs_v = string_views(segs@);
        assert(segs_v == env_segments(key@.skip(self.prefix().len() as int)));
        let dotted = join_dotted_strings(&segs);
        let is_list = self.is_list_key(&dotted);
        let parsed = env_value_node(value, is_list);
        assert(string_views(segs@).skip(0) =~= segs_v);
        insert_nested(root, &segs, 0, parsed);
    }

    /// The document that the variables of this source's prefix make.
    pub fn document(&self, vars: &Vec<(String, String)>) -> (r: Node)
        ensures
            r@ == self.tree(var_views(vars@)),
    {
        let pc = chars_of(self.prefix_with_sep.as_str());
        let ghost all = var_views(vars@);
        let mut pending: Vec<(String, String)> = Vec::new();
        let mut i: usize = 0;
        while i < vars.len()
            invariant
                i <= vars.len(),
                pc@ == self.prefix(),
                all == var_views(vars@),
                var_views(pending@) == with_prefix(all.take(i as int), self.prefix()),
                forall|j: int| 0 <= j < pending@.len() ==> has_prefix(#[trigger] pending@[j].0@, self.prefix()),
            decreases vars.len() - i,
        {
            let kc = chars_of(vars[i].0.as_str());
            assert(all.take(i + 1).drop_last() =~= all.take(i as int));
            if starts_with(&kc, &pc) {
                pending.push((vars[i].0.clone(), vars[i].1.clone()));
                assert(var_views(pending@) =~= with_prefix(all.take(i as int), self.prefix()).push(all[i as int]));
            }
            i = i + 1;
        }
        assert(all.take(vars.len() as int) =~= all);
        let ghost target = self.fold_vars(Seq::empty(), with_prefix(all, self.prefix()));
        let mut root: Vec<(String, Node)> = Vec::new();
        assert(entries_of(root@) =~= Seq::<(Seq<char>, Tree)>::empty());
        while pending.len() > 0
            invariant
                self.fold_vars(entries_of(root@), var_views(pending@)) == target,
                forall|j: int| 0 <= j < pending@.len() ==> has_prefix(#[trigger] pending@[j].0@, self.prefix()),
            decreases pending.len(),
        {
            let m = min_index(&pending);
            proof {
                lemma_first_min_index_bounds(var_views(pending@));
            }
            let ghost before = pending@;
            let (k, v) = pending.remove(m);
            proof {
                assert(var_views(pending@) =~= var_views(before).remove(m as int));
                assert(has_prefix(before[m as int].0@, self.prefix()));
                assert(forall|j: int| 0 <= j < pending@.len() ==> #[trigger] pending@[j] == before.remove(m as int)[j]);
                assert forall|j: int| 0 <= j < pending@.len() implies has_prefix(#[trigger] pending@[j].0@, self.prefix()) by {
                    if j < m {
                        assert(pending@[j] == before[j]);
                    } else {
                        assert(pending@[j] == before[j + 1]);
                    }
                }
            }
            self.apply(&mut root, &k, &v);
        }
        Node::Object(root)
    }
}

/// The index of the first variable with the least name.
fn min_index(vars: &Vec<(String, String)>) -> (m: usize)
    requires
        vars.len() > 0,
    ensures
        m as int == first_min_index(var_views(vars@)),
{
    let ghost all = var_views(vars@);
    let mut best: usize = 0;
    let mut j: usize = 1;
    while j < vars.len()
        invariant
            1 <= j <= vars.len(),
            all == var_views(vars@),
            best < j,
            best as int == first_min_index(all.take(j as int)),
        decreases vars.len() - j,
    {
        proof {
            assert(all.take(j + 1).drop_last() =~= all.take(j as int));
            assert(all.take(j + 1)[best as int] == all[best as int]);
        }
        if less_text(vars[j].0.as_str(), vars[best].0.as_str()) {
            best = j;
        }
        j = j + 1;
    }
    assert(all.take(vars.len() as int) =~= all);
    best
}

/// What a variable's value becomes, as `env_value` says.
fn env_value_node(value: &String, is_list: bool) -> (r: Node)
    ensures
        r@ == env_value(value@, is_list),
{
    if is_list {
        if value.as_str().unicode_len() == 0 {
            let items: Vec<Node> = Vec::new();
            proof {
                lemma_trees_of_ext(items@, Seq::empty());
            }
            return Node::Array(items);
        }
        let vc = chars_of(value.as_str());
        let mut comma: Vec<char> = Vec::new();
        comma.push(',');
        assert(comma@ =~= seq![',']);
        let pieces = split_chars(&vc, &comma);
        let ghost pieces_v = pieces@.map_values(|p: Vec<char>| p@);
        let ghost want = split(value@, seq![',']).map_values(|s: Seq<char>| Tree::Text(trim(s)));
        let mut items: Vec<Node> = Vec::new();
        let mut j: usize = 0;
        while j < pieces.len()
            invariant
                j <= pieces.len(),
                pieces_v == pieces@.map_values(|p: Vec<char>| p@),
                pieces_v == split(value@, seq![',']),
                want == split(value@, seq![',']).map_values(|s: Seq<char>| Tree::Text(trim(s))),
                items@.len() == j,
                forall|k: int| 0 <= k < j ==> #[trigger] items@[k]@ == want[k],
            decreases pieces.len() - j,
        {
            let t = trim_chars(&pieces[j]);
            let s = string_of(&t);
            items.push(Node::Text(s));
            assert(items@[j as int]@ == want[j as int]);
            j = j + 1;
        }
        proof {
            assert forall|k: int| 0 <= k < items@.len() implies tree_of(items@[k]) == #[trigger] want[k] by {
                assert(items@[k]@ == want[k]);
            }
            lemma_trees_of_ext(items@, want);
        }
        Node::Array(items)
    } else {
        match parse_json(value.as_str()) {
            Ok(n) => n,
            Err(_) => Node::Text(value.clone()),
        }
    }
}

} // verus!
