//! The tree that the parsers produce: a node may hold a string, a map from
//! strings to nodes and a list of nodes, each of them optional.
use vstd::prelude::*;

use crate::text::{StrMap, entries_map};

verus! {

/// What a `ParsedString` stands for.
pub struct ParsedModel {
    pub string: Option<Seq<char>>,
    pub map: Option<Map<Seq<char>, ParsedModel>>,
    pub list: Option<Seq<ParsedModel>>,
}

/// The node with nothing in it.
pub open spec fn empty_model() -> ParsedModel {
    ParsedModel { string: None, map: None, list: None }
}

/// `m` with `s` as its string.
pub open spec fn with_string(m: ParsedModel, s: Seq<char>) -> ParsedModel {
    ParsedModel { string: Some(s), ..m }
}

/// `m` with `v` appended to its list (which is created when absent).
pub open spec fn with_list_item(m: ParsedModel, v: ParsedModel) -> ParsedModel {
    let items = match m.list {
        Some(l) => l,
        None => Seq::empty(),
    };
    ParsedModel { list: Some(items.push(v)), ..m }
}

/// `m` with `k` mapped to `v` in its map (which is created when absent).
pub open spec fn with_map_entry(m: ParsedModel, k: Seq<char>, v: ParsedModel) -> ParsedModel {
    let entries = match m.map {
        Some(e) => e,
        None => Map::empty(),
    };
    ParsedModel { map: Some(entries.insert(k, v)), ..m }
}

/// A node of the tree: an optional string, an optional map from strings to
/// nodes and an optional list of nodes.
#[derive(Debug)]
pub struct ParsedString {
    ps_string: Option<String>,
    ps_hashmap: Option<StrMap<ParsedString>>,
    ps_list: Option<Vec<ParsedString>>,
}

/// The models of a sequence of nodes.
pub closed spec fn models_of(s: Seq<ParsedString>) -> Seq<ParsedModel>
    decreases s,
{
    if s.len() == 0 {
        Seq::empty()
    } else {
        models_of(s.drop_last()).push(s.last().model())
    }
}

/// The map of models that a sequence of map entries stands for.
pub closed spec fn entries_models(s: Seq<(String, ParsedString)>) -> Map<Seq<char>, ParsedModel>
    decreases s,
{
    if s.len() == 0 {
        Map::empty()
    } else {
        entries_models(s.drop_last()).insert(s.last().0@, s.last().1.model())
    }
}

impl ParsedString {
    /// What this node stands for.
    pub closed spec fn model(self) -> ParsedModel
        decreases self,
    {
        ParsedModel {
            string: match self.ps_string {
                Some(s) => Some(s@),
                None => None,
            },
            map: match self.ps_hashmap {
                Some(m) => Some(entries_models(m.entries@)),
                None => None,
            },
            list: match self.ps_list {
                Some(l) => Some(models_of(l@)),
                None => None,
            },
        }
    }
}

impl View for ParsedString {
    type V = ParsedModel;

    open spec fn view(&self) -> ParsedModel {
        self.model()
    }
}

proof fn lemma_models_of_same(a: Seq<ParsedString>, b: Seq<ParsedString>)
    requires
        a.len() == b.len(),
        forall|q: int| 0 <= q < a.len() ==> (#[trigger] a[q]).model() == b[q].model(),
    ensures
        models_of(a) == models_of(b),
    decreases a.len(),
{
    if a.len() > 0 {
        lemma_models_of_same(a.drop_last(), b.drop_last());
        assert(a.last().model() == b.last().model());
    }
}

proof fn lemma_entries_models_same(a: Seq<(String, ParsedString)>, b: Seq<(String, ParsedString)>)
    requires
        a.len() == b.len(),
        forall|q: int|
            0 <= q < a.len() ==> (#[trigger] a[q]).0@ == b[q].0@ && a[q].1.model() == b[q].1.model(),
    ensures
        entries_models(a) == entries_models(b),
    decreases a.len(),
{
    if a.len() > 0 {
        lemma_entries_models_same(a.drop_last(), b.drop_last());
        assert(a.last().0@ == b.last().0@);
    }
}

/// A copy of a node and of everything below it.
fn copy_node(p: &ParsedString) -> (r: ParsedString)
    ensures
        r@ == p@,
    decreases *p,
{
    let ps_string = match &p.ps_string {
        Some(s) => Some(s.clone()),
        None => None,
    };
    let ps_hashmap = match &p.ps_hashmap {
        Some(m) => {
            let mut e: Vec<(String, ParsedString)> = Vec::new();
            let n = m.entries.len();
            for j in 0..n
                invariant
                    p.ps_hashmap == Some(*m),
                    n == m.entries@.len(),
                    e@.len() == j,
                    forall|q: int|
                        0 <= q < j ==> (#[trigger] e@[q]).0@ == m.entries@[q].0@ && e@[q].1.model()
                            == m.entries@[q].1.model(),
            {
                assert(decreases_to!(*p => p.ps_hashmap));
                assert(decreases_to!(p.ps_hashmap => p.ps_hashmap->Some_0));
                assert(decreases_to!(*m => m.entries));
                assert(decreases_to!(m.entries => m.entries@));
                assert(decreases_to!(m.entries@ => m.entries@[j as int]));
                assert(decreases_to!(m.entries@[j as int] => m.entries@[j as int].1));
                let k = m.entries[j].0.clone();
                let v = copy_node(&m.entries[j].1);
                e.push((k, v));
            }
            proof {
                lemma_entries_models_same(e@, m.entries@);
            }
            Some(StrMap { entries: e })
        },
        None => None,
    };
    let ps_list = match &p.ps_list {
        Some(l) => {
            let mut c: Vec<ParsedString> = Vec::new();
            let n = l.len();
            for j in 0..n
                invariant
                    p.ps_list == Some(*l),
                    n == l@.len(),
                    c@.len() == j,
                    forall|q: int| 0 <= q < j ==> (#[trigger] c@[q]).model() == l@[q].model(),
            {
                assert(decreases_to!(*p => p.ps_list));
                assert(decreases_to!(p.ps_list => p.ps_list->Some_0));
                assert(decreases_to!(*l => l@));
                assert(decreases_to!(l@ => l@[j as int]));
                c.push(copy_node(&l[j]));
            }
            proof {
                lemma_models_of_same(c@, l@);
            }
            Some(c)
        },
        None => None,
    };
    ParsedString { ps_string, ps_hashmap, ps_list }
}

impl Clone for ParsedString {
    /// A copy of this node and of everything below it.
    fn clone(&self) -> (r: Self)
        ensures
            r@ == self@,
    {
        copy_node(self)
    }
}

impl ParsedString {
    /// A node with nothing in it.
    pub fn new() -> (r: Self)
        ensures
            r@ == empty_model(),
    {
        ParsedString { ps_string: None, ps_hashmap: None, ps_list: None }
    }

    /// Maps `key` to `ps` in this node's map, creating the map when absent.
    pub fn add_to_hashmap(&mut self, key: String, ps: ParsedString)
        ensures
            final(self)@ == with_map_entry(old(self)@, key@, ps@),
    {
        let mut m = match self.ps_hashmap.take() {
            Some(m) => m,
            None => StrMap::new(),
        };
        let ghost before = m.entries@;
        proof {
            m.lemma_view();
            lemma_entries_models(before);
            if old(self).ps_hashmap is None {
                assert(entries_models(before) =~= Map::empty());
            }
        }
        m.insert(key, ps);
        proof {
            m.lemma_view();
            lemma_entries_models(before);
            lemma_entries_models(m.entries@);
            assert(entries_models(m.entries@) =~= entries_models(before).insert(key@, ps@));
        }
        self.ps_hashmap = Some(m);
    }

    /// Appends `ps` to this node's list, creating the list when absent.
    pub fn add_to_list(&mut self, ps: ParsedString)
        ensures
            final(self)@ == with_list_item(old(self)@, ps@),
    {
        let mut l = match self.ps_list.take() {
            Some(l) => l,
            None => Vec::new(),
        };
        let ghost before = l@;
        l.push(ps);
        assert(l@.drop_last() =~= before);
        assert(models_of(l@) == models_of(before).push(ps@));
        self.ps_list = Some(l);
        assert(self@.list == Some(models_of(before).push(ps@)));
    }

    /// Sets this node's string.
    pub fn set_string(&mut self, s: String)
        ensures
            final(self)@ == with_string(old(self)@, s@),
    {
        self.ps_string = Some(s);
    }

    /// A copy of this node's string.
    pub fn get_string(&self) -> (r: String)
        requires
            self@.string is Some,
        ensures
            r@ == self@.string.unwrap(),
    {
        match &self.ps_string {
            Some(v) => v.clone(),
            None => String::new(),
        }
    }

    /// This node's map.
    pub fn get_map(&self) -> (r: &StrMap<ParsedString>)
        requires
            self@.map is Some,
        ensures
            r@.dom() == self@.map.unwrap().dom(),
            forall|k: Seq<char>| #[trigger] r@.contains_key(k) ==> r@[k]@ == self@.map.unwrap()[k],
    {
        match &self.ps_hashmap {
            Some(v) => {
                proof {
                    v.lemma_view();
                    lemma_entries_models(v.entries@);
                }
                v
            },
            None => unreached(),
        }
    }

    /// This node's map (the name under which callers of the map accessor
    /// know it too).
    pub fn get_hashmap(&self) -> (r: &StrMap<ParsedString>)
        requires
            self@.map is Some,
        ensures
            r@.dom() == self@.map.unwrap().dom(),
            forall|k: Seq<char>| #[trigger] r@.contains_key(k) ==> r@[k]@ == self@.map.unwrap()[k],
    {
        self.get_map()
    }

    /// This node's list.
    pub fn get_list(&self) -> (r: &Vec<ParsedString>)
        requires
            self@.list is Some,
        ensures
            r@.len() == self@.list.unwrap().len(),
            forall|i: int| 0 <= i < r@.len() ==> #[trigger] r@[i]@ == self@.list.unwrap()[i],
    {
        match &self.ps_list {
            Some(v) => {
                proof {
                    lemma_models_of(v@);
                }
                v
            },
            None => unreached(),
        }
    }

    /// The node that this node's map holds for `key`.
    pub fn get_from_map(&self, key: &str) -> (r: &ParsedString)
        requires
            self@.map is Some,
            self@.map.unwrap().contains_key(key@),
        ensures
            r@ == self@.map.unwrap()[key@],
    {
        let m = self.get_map();
        match m.get(key) {
            Some(v) => v,
            None => unreached(),
        }
    }
}

/// Adding a map entry: the map then holds the new node under its key and
/// what it held before under every other key; the string and the list are
/// left as they were.
pub proof fn law_map_entry_read_back(m: ParsedModel, k: Seq<char>, v: ParsedModel)
    ensures
        with_map_entry(m, k, v).map is Some,
        with_map_entry(m, k, v).map.unwrap().contains_key(k),
        with_map_entry(m, k, v).map.unwrap()[k] == v,
        forall|k2: Seq<char>|
            k2 != k ==> (#[trigger] with_map_entry(m, k, v).map.unwrap().contains_key(k2) <==> (
            m.map is Some && m.map.unwrap().contains_key(k2))),
        forall|k2: Seq<char>|
            k2 != k && #[trigger] with_map_entry(m, k, v).map.unwrap().contains_key(k2)
                ==> with_map_entry(m, k, v).map.unwrap()[k2] == m.map.unwrap()[k2],
        with_map_entry(m, k, v).string == m.string,
        with_map_entry(m, k, v).list == m.list,
{
}

/// Appending to the list: the list then ends with the new node, after the
/// nodes it held before; the string and the map are left as they were.
pub proof fn law_list_item_read_back(m: ParsedModel, v: ParsedModel)
    ensures
        with_list_item(m, v).list is Some,
        with_list_item(m, v).list.unwrap().len() == (if m.list is Some {
            m.list.unwrap().len() + 1
        } else {
            1
        }),
        with_list_item(m, v).list.unwrap().last() == v,
        m.list is Some ==> with_list_item(m, v).list.unwrap().drop_last() == m.list.unwrap(),
        with_list_item(m, v).string == m.string,
        with_list_item(m, v).map == m.map,
{
    if m.list is Some {
        assert(with_list_item(m, v).list.unwrap().drop_last() =~= m.list.unwrap());
    }
}

/// Setting the string: the string is then the new one; the map and the
/// list are left as they were.
pub proof fn law_string_read_back(m: ParsedModel, s: Seq<char>)
    ensures
        with_string(m, s).string == Some(s),
        with_string(m, s).map == m.map,
        with_string(m, s).list == m.list,
{
}

/// The models of a sequence of nodes are the nodes' models, one by one.
pub proof fn lemma_models_of(s: Seq<ParsedString>)
    ensures
        models_of(s).len() == s.len(),
        forall|i: int| 0 <= i < s.len() ==> #[trigger] models_of(s)[i] == s[i]@,
    decreases s.len(),
{
    if s.len() > 0 {
        lemma_models_of(s.drop_last());
        assert forall|i: int| 0 <= i < s.len() implies #[trigger] models_of(s)[i] == s[i]@ by {
            if i < s.len() - 1 {
                assert(s.drop_last()[i] == s[i]);
            }
        }
    }
}

/// The map of models of some entries is the map of the entries with each
/// node replaced by its model.
pub proof fn lemma_entries_models(s: Seq<(String, ParsedString)>)
    ensures
        entries_models(s).dom() == entries_map(s).dom(),
        forall|k: Seq<char>|
            #[trigger] entries_map(s).contains_key(k) ==> entries_models(s)[k] == entries_map(s)[k]@,
    decreases s.len(),
{
    if s.len() > 0 {
        lemma_entries_models(s.drop_last());
        assert(entries_models(s).dom() =~= entries_map(s).dom());
    }
}

} // verus!
