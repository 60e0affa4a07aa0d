//! Document tree: nodes, elements and their attributes.
use vstd::prelude::*;

verus! {

/// Whether no two pairs share a key.
pub open spec fn keys_unique(p: Seq<(Seq<char>, Seq<char>)>) -> bool {
    forall|i: int, j: int|
        0 <= i < p.len() && 0 <= j < p.len() && i != j ==> #[trigger] p[i].0 != #[trigger] p[j].0
}

/// The mapping that a list of key/value pairs with unique keys stands for.
pub open spec fn pairs_to_map(p: Seq<(Seq<char>, Seq<char>)>) -> Map<Seq<char>, Seq<char>>
    decreases p.len(),
{
    if p.len() == 0 {
        Map::empty()
    } else {
        pairs_to_map(p.drop_last()).insert(p.last().0, p.last().1)
    }
}

proof fn lemma_pairs_to_map_index(p: Seq<(Seq<char>, Seq<char>)>)
    requires
        keys_unique(p),
    ensures
        forall|i: int|
            0 <= i < p.len() ==> #[trigger] pairs_to_map(p).contains_key(p[i].0) && pairs_to_map(
                p,
            )[p[i].0] == p[i].1,
        forall|k: Seq<char>|
            #[trigger] pairs_to_map(p).contains_key(k) ==> exists|i: int|
                0 <= i < p.len() && p[i].0 == k,
    decreases p.len(),
{
    if p.len() > 0 {
        let q = p.drop_last();
        assert(keys_unique(q));
        lemma_pairs_to_map_index(q);
        assert forall|i: int| 0 <= i < p.len() implies #[trigger] pairs_to_map(p).contains_key(
            p[i].0,
        ) && pairs_to_map(p)[p[i].0] == p[i].1 by {
            if i < p.len() - 1 {
                assert(q[i] == p[i]);
                assert(pairs_to_map(q).contains_key(q[i].0));
                assert(p[i].0 != p[p.len() - 1].0);
            }
        }
        assert forall|k: Seq<char>| #[trigger] pairs_to_map(p).contains_key(k) implies exists|
            i: int,
        | 0 <= i < p.len() && p[i].0 == k by {
            if k != p.last().0 {
                assert(pairs_to_map(q).contains_key(k));
                let i = choose|i: int| 0 <= i < q.len() && q[i].0 == k;
                assert(p[i] == q[i]);
            } else {
                assert(p[p.len() - 1].0 == k);
            }
        }
    }
}

proof fn lemma_pairs_to_map_update(p: Seq<(Seq<char>, Seq<char>)>, i: int, v: Seq<char>)
    requires
        keys_unique(p),
        0 <= i < p.len(),
    ensures
        keys_unique(p.update(i, (p[i].0, v))),
        pairs_to_map(p.update(i, (p[i].0, v))) == pairs_to_map(p).insert(p[i].0, v),
    decreases p.len(),
{
    let k = p[i].0;
    let u = p.update(i, (k, v));
    assert(keys_unique(u)) by {
        assert forall|a: int, b: int|
            0 <= a < u.len() && 0 <= b < u.len() && a != b implies #[trigger] u[a].0
            != #[trigger] u[b].0 by {
            assert(u[a].0 == p[a].0);
            assert(u[b].0 == p[b].0);
        }
    }
    if i == p.len() - 1 {
        assert(u.drop_last() =~= p.drop_last());
        assert(pairs_to_map(u) =~= pairs_to_map(p).insert(k, v));
    } else {
        let q = p.drop_last();
        assert(keys_unique(q));
        lemma_pairs_to_map_update(q, i, v);
        assert(u.drop_last() =~= q.update(i, (k, v)));
        assert(p.last().0 != k);
        assert(pairs_to_map(u) =~= pairs_to_map(p).insert(k, v));
    }
}

/// An element's attributes: names mapped to values, each name at most once.
pub struct AttrMap {
    entries: Vec<(String, String)>,
}

impl AttrMap {
    /// The attributes as pairs, in the order in which their names were first inserted.
    pub closed spec fn pairs(&self) -> Seq<(Seq<char>, Seq<char>)> {
        self.entries@.map_values(|e: (String, String)| (e.0@, e.1@))
    }

    #[verifier::type_invariant]
    spec fn inv(&self) -> bool {
        keys_unique(self.pairs())
    }

    /// An empty attribute map.
    pub fn new() -> (r: AttrMap)
        ensures
            r@ == Map::<Seq<char>, Seq<char>>::empty(),
    {
        let r = AttrMap { entries: Vec::new() };
        assert(r.pairs() =~= Seq::empty());
        r
    }

    /// Sets `key` to `value`, replacing any earlier value of `key`.
    pub fn insert(&mut self, key: String, value: String)
        ensures
            final(self)@ == old(self)@.insert(key@, value@),
    {
        proof {
            use_type_invariant(&*self);
        }
        let mut entries: Vec<(String, String)> = Vec::new();
        std::mem::swap(&mut entries, &mut self.entries);
        let ghost p = entries@.map_values(|e: (String, String)| (e.0@, e.1@));
        assert(p == old(self).pairs());
        let mut i: usize = 0;
        while i < entries.len()
            invariant
                p == entries@.map_values(|e: (String, String)| (e.0@, e.1@)),
                keys_unique(p),
                p == old(self).pairs(),
                i <= entries.len(),
                forall|j: int| 0 <= j < i ==> p[j].0 != key@,
            decreases entries.len() - i,
        {
            if entries[i].0 == key {
                proof {
                    lemma_pairs_to_map_update(p, i as int, value@);
                }
                let ghost kv = (key@, value@);
                assert(p[i as int] == (entries@[i as int].0@, entries@[i as int].1@));
                entries.set(i, (key, value));
                assert(entries@.map_values(|e: (String, String)| (e.0@, e.1@)) =~= p.update(
                    i as int,
                    (p[i as int].0, value@),
                ));
                self.entries = entries;
                assert(self.pairs() =~= p.update(i as int, (p[i as int].0, value@)));
                assert(p[i as int].0 == kv.0);
                return;
            }
            i = i + 1;
        }
        entries.push((key, value));
        proof {
            let np = entries@.map_values(|e: (String, String)| (e.0@, e.1@));
            assert(np =~= p.push((key@, value@)));
            assert(np.drop_last() =~= p);
        }
        self.entries = entries;
    }

    /// The value of `key`, if it is present.
    pub fn get(&self, key: &String) -> (r: Option<&String>)
        ensures
            r.is_some() == self@.contains_key(key@),
            r.is_some() ==> r.unwrap()@ == self@[key@],
    {
        proof {
            use_type_invariant(self);
        }
        let mut i: usize = 0;
        while i < self.entries.len()
            invariant
                keys_unique(self.pairs()),
                i <= self.entries.len(),
                forall|j: int| 0 <= j < i ==> self.pairs()[j].0 != key@,
            decreases self.entries.len() - i,
        {
            if self.entries[i].0 == *key {
                proof {
                    lemma_pairs_to_map_index(self.pairs());
                    assert(self.pairs()[i as int] == (self.entries@[i as int].0@, self.entries@[i as int].1@));
                    assert(pairs_to_map(self.pairs()).contains_key(self.pairs()[i as int].0));
                }
                return Some(&self.entries[i].1);
            }
            i = i + 1;
        }
        proof {
            lemma_pairs_to_map_index(self.pairs());
        }
        None
    }
}

/// The attributes as written in a tree dump: ` name="value"` for each pair, in order.
pub open spec fn attrs_text(p: Seq<(Seq<char>, Seq<char>)>) -> Seq<char>
    decreases p.len(),
{
    if p.len() == 0 {
        Seq::empty()
    } else {
        attrs_text(p.drop_last()) + " "@ + p.last().0 + "=\""@ + p.last().1 + "\""@
    }
}

impl AttrMap {
    /// The attributes as they appear on an element's line of a tree dump.
    pub fn describe(&self) -> (r: String)
        ensures
            r@ == attrs_text(self.pairs()),
    {
        let mut out = String::new();
        let mut i: usize = 0;
        assert(self.pairs().take(0) =~= Seq::empty());
        while i < self.entries.len()
            invariant
                i <= self.entries.len(),
                out@ == attrs_text(self.pairs().take(i as int)),
            decreases self.entries.len() - i,
        {
            assert(self.pairs().take(i + 1).drop_last() =~= self.pairs().take(i as int));
            out.append(" ");
            out.append(self.entries[i].0.as_str());
            out.append("=\"");
            out.append(self.entries[i].1.as_str());
            out.append("\"");
            i = i + 1;
        }
        assert(self.pairs().take(i as int) =~= self.pairs());
        out
    }
}

impl View for AttrMap {
    type V = Map<Seq<char>, Seq<char>>;

    closed spec fn view(&self) -> Map<Seq<char>, Seq<char>> {
        pairs_to_map(self.pairs())
    }
}

/// A document node: its content and the nodes it owns.
pub struct Node {
    pub children: Vec<Node>,
    pub node_type: NodeType,
}

/// What a node holds.
pub enum NodeType {
    Element(ElementData),
    Text(String),
    Comment(String),
}

/// A markup element: its tag name and attributes.
pub struct ElementData {
    pub tag_name: String,
    pub attributes: AttrMap,
}

/// A leaf node holding raw text.
pub fn text(data: String) -> (r: Node)
    ensures
        r.children@.len() == 0,
        r.node_type == NodeType::Text(data),
{
    Node { children: Vec::new(), node_type: NodeType::Text(data) }
}

/// An element node that owns `children`.
pub fn elem(name: String, attrs: AttrMap, children: Vec<Node>) -> (r: Node)
    ensures
        r.children == children,
        r.node_type == NodeType::Element(ElementData { tag_name: name, attributes: attrs }),
{
    Node {
        children: children,
        node_type: NodeType::Element(ElementData { tag_name: name, attributes: attrs }),
    }
}

/// A leaf node holding a comment.
pub fn comment(data: String) -> (r: Node)
    ensures
        r.children@.len() == 0,
        r.node_type == NodeType::Comment(data),
{
    Node { children: Vec::new(), node_type: NodeType::Comment(data) }
}

/// A node's own line in a tree dump, without indentation.
pub open spec fn node_line(n: Node) -> Seq<char> {
    match n.node_type {
        NodeType::Element(d) => d.tag_name@ + ":"@ + attrs_text(d.attributes.pairs()) + "\n"@,
        NodeType::Text(t) => "text: "@ + t@ + "\n"@,
        NodeType::Comment(t) => "comment: "@ + t@ + "\n"@,
    }
}

/// The dump of the subtree at `n`: its line behind `indent`, then each child's
/// dump one `-` deeper.
pub open spec fn dump_text(n: Node, indent: Seq<char>) -> Seq<char>
    decreases n, 1int, 0int,
{
    indent + node_line(n) + children_text(n, n.children@.len() as int, indent + "-"@)
}

/// The dumps of the first `k` children of `n`, one after the other.
pub open spec fn children_text(n: Node, k: int, indent: Seq<char>) -> Seq<char>
    decreases n, 0int, k,
{
    if k <= 0 || k > n.children@.len() {
        Seq::empty()
    } else {
        children_text(n, k - 1, indent) + dump_text(n.children@[k - 1], indent)
    }
}

/// The indentation of a dump at `level`: `level` dashes.
pub open spec fn dashes(level: nat) -> Seq<char> {
    Seq::new(level, |_i: int| '-')
}

impl Node {
    /// A readable trace of the subtree: one line per node, each child one dash
    /// deeper than its parent, starting at `level` dashes.
    pub fn dump(&self, level: usize) -> (r: String)
        ensures
            r@ == dump_text(*self, dashes(level as nat)),
    {
        let mut indent = String::new();
        let mut i: usize = 0;
        while i < level
            invariant
                i <= level,
                indent@ == dashes(i as nat),
            decreases level - i,
        {
            indent.append("-");
            proof {
                reveal_strlit("-");
            }
            assert(indent@ =~= dashes((i + 1) as nat));
            i = i + 1;
        }
        let mut out = String::new();
        self.dump_into(&indent, &mut out);
        assert(out@ =~= dump_text(*self, dashes(level as nat)));
        out
    }

    fn dump_into(&self, indent: &String, out: &mut String)
        ensures
            final(out)@ == old(out)@ + dump_text(*self, indent@),
        decreases self,
    {
        out.append(indent.as_str());
        match &self.node_type {
            NodeType::Element(d) => {
                out.append(d.tag_name.as_str());
                out.append(":");
                let a = d.attributes.describe();
                out.append(a.as_str());
            },
            NodeType::Text(t) => {
                out.append("text: ");
                out.append(t.as_str());
            },
            NodeType::Comment(t) => {
                out.append("comment: ");
                out.append(t.as_str());
            },
        }
        out.append("\n");
        assert(out@ =~= old(out)@ + indent@ + node_line(*self));
        let deeper = indent.clone().concat("-");
        let mut i: usize = 0;
        while i < self.children.len()
            invariant
                i <= self.children.len(),
                deeper@ == indent@ + "-"@,
                out@ == old(out)@ + indent@ + node_line(*self) + children_text(
                    *self,
                    i as int,
                    deeper@,
                ),
            decreases self.children.len() - i,
        {
            self.children[i].dump_into(&deeper, out);
            assert(out@ =~= old(out)@ + indent@ + node_line(*self) + children_text(
                *self,
                i + 1,
                deeper@,
            ));
            i = i + 1;
        }
        assert(out@ =~= old(out)@ + dump_text(*self, indent@));
    }
}

/// The pieces of `s` between single spaces, empty pieces included
/// (`"a  b"` gives `"a"`, `""`, `"b"`).
pub open spec fn split_on_space(s: Seq<char>) -> Seq<Seq<char>>
    decreases s.len(),
{
    if s.len() == 0 {
        seq![Seq::empty()]
    } else {
        let r = split_on_space(s.drop_last());
        if s.last() == ' ' {
            r.push(Seq::empty())
        } else {
            r.update(r.len() - 1, r.last().push(s.last()))
        }
    }
}

/// The class names in a class attribute's value: its non-empty space-separated tokens.
pub open spec fn class_tokens(s: Seq<char>) -> Set<Seq<char>> {
    split_on_space(s).to_set().filter(|t: Seq<char>| t.len() > 0)
}

/// The views of a list of strings.
pub open spec fn string_views(v: Seq<String>) -> Seq<Seq<char>> {
    v.map_values(|x: String| x@)
}

/// Appends `item` to `out` unless an equal string is already there.
fn push_unique(out: &mut Vec<String>, item: String)
    requires
        string_views(old(out)@).no_duplicates(),
    ensures
        string_views(final(out)@).no_duplicates(),
        string_views(final(out)@).to_set() == string_views(old(out)@).to_set().insert(item@),
{
    let mut i: usize = 0;
    while i < out.len()
        invariant
            i <= out.len(),
            out@ == old(out)@,
            string_views(out@).no_duplicates(),
            forall|j: int| 0 <= j < i ==> string_views(out@)[j] != item@,
        decreases out.len() - i,
    {
        if out[i] == item {
            assert(string_views(out@)[i as int] == item@);
            assert(string_views(out@).to_set() =~= string_views(out@).to_set().insert(item@));
            return;
        }
        i = i + 1;
    }
    let ghost before = string_views(out@);
    out.push(item);
    assert(string_views(out@) =~= before.push(item@));
    proof {
        before.lemma_push_to_set_commute(item@);
    }
}

impl ElementData {
    /// The value of attribute `k`, if present.
    pub open spec fn attr(&self, k: Seq<char>) -> Option<Seq<char>> {
        if self.attributes@.contains_key(k) {
            Some(self.attributes@[k])
        } else {
            None
        }
    }

    /// The element's class names: none without a class attribute.
    pub open spec fn class_set(&self) -> Set<Seq<char>> {
        match self.attr("class"@) {
            Some(v) => class_tokens(v),
            None => Set::empty(),
        }
    }

    /// The value of attribute `key`, if present.
    pub fn get_attribute(&self, key: &str) -> (r: Option<&String>)
        ensures
            r matches Some(v) ==> self.attr(key@) == Some(v@),
            r is None ==> self.attr(key@) is None,
    {
        let k = key.to_owned();
        self.attributes.get(&k)
    }

    /// The value of the `id` attribute, if present.
    pub fn id(&self) -> (r: Option<&String>)
        ensures
            r matches Some(v) ==> self.attr("id"@) == Some(v@),
            r is None ==> self.attr("id"@) is None,
    {
        self.get_attribute("id")
    }

    /// The element's class names, each once, in no particular order.
    pub fn classes(&self) -> (r: Vec<String>)
        ensures
            string_views(r@).to_set() == self.class_set(),
            string_views(r@).no_duplicates(),
    {
        let mut out: Vec<String> = Vec::new();
        let value = match self.get_attribute("class") {
            Some(v) => v,
            None => {
                assert(string_views(out@).to_set() =~= Set::empty());
                return out;
            },
        };
        let s = value.as_str();
        let n = s.unicode_len();
        let ghost mut parts: Seq<Seq<char>> = Seq::empty();
        let mut start: usize = 0;
        let mut i: usize = 0;
        assert(s@.take(0) =~= Seq::<char>::empty());
        assert(split_on_space(s@.take(0)) =~= parts.push(s@.subrange(0, 0)));
        while i < n
            invariant
                n == s@.len(),
                start <= i <= n,
                split_on_space(s@.take(i as int)) == parts.push(s@.subrange(start as int, i as int)),
                string_views(out@).no_duplicates(),
                string_views(out@).to_set() == parts.to_set().filter(|t: Seq<char>| t.len() > 0),
            decreases n - i,
        {
            let c = s.get_char(i);
            let ghost cur = s@.subrange(start as int, i as int);
            assert(s@.take(i + 1).drop_last() =~= s@.take(i as int));
            assert(s@.take(i + 1).last() == c);
            if c == ' ' {
                let ghost old_set = string_views(out@).to_set();
                if start < i {
                    let tok = s.substring_char(start, i).to_owned();
                    push_unique(&mut out, tok);
                }
                proof {
                    parts.lemma_push_to_set_commute(cur);
                }
                assert(string_views(out@).to_set() =~= parts.push(cur).to_set().filter(
                    |t: Seq<char>| t.len() > 0,
                ));
                proof {
                    parts = parts.push(cur);
                }
                start = i + 1;
                assert(s@.subrange(start as int, start as int) =~= Seq::<char>::empty());
            } else {
                assert(s@.subrange(start as int, i + 1) =~= cur.push(c));
            }
            i = i + 1;
        }
        let ghost last = s@.subrange(start as int, n as int);
        if start < n {
            let tok = s.substring_char(start, n).to_owned();
            push_unique(&mut out, tok);
        }
        assert(s@.take(n as int) =~= s@);
        proof {
            parts.lemma_push_to_set_commute(last);
        }
        assert(string_views(out@).to_set() =~= parts.push(last).to_set().filter(
            |t: Seq<char>| t.len() > 0,
        ));
        out
    }
}

} // verus!
