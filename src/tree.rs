use vstd::prelude::*;
use crate::value::{JsonValue, JValue};
use crate::text::{decimal, segments, split_path};

verus! {

broadcast use vstd::std_specs::vec::group_vec_axioms, vstd::seq::group_seq_axioms;

/// A node of a [`VariableTree`]: a name, the value found under it, and the
/// indices of its children in the tree's arena.
#[derive(Debug)]
pub struct Node {
    pub variable: String,
    pub value: JsonValue,
    pub children: Vec<usize>,
}

/// An append-only arena of nodes; `root` is the node that holds the whole
/// variable mapping.
#[derive(Debug)]
pub struct VariableTree {
    pub root: usize,
    pub nodes: Vec<Node>,
}

/// The index in `names` of the first name equal to `name`.
pub open spec fn first_index(names: Seq<Seq<char>>, name: Seq<char>) -> Option<int>
    decreases names.len(),
{
    if names.len() == 0 {
        None
    } else if names[0] == name {
        Some(0)
    } else {
        match first_index(names.drop_first(), name) {
            Some(k) => Some(k + 1),
            None => None,
        }
    }
}

pub proof fn lemma_first_index(names: Seq<Seq<char>>, name: Seq<char>)
    ensures
        match first_index(names, name) {
            Some(k) => 0 <= k < names.len() && names[k] == name
                && forall|j: int| 0 <= j < k ==> names[j] != name,
            None => forall|j: int| 0 <= j < names.len() ==> names[j] != name,
        },
    decreases names.len(),
{
    if names.len() > 0 {
        lemma_first_index(names.drop_first(), name);
        if names[0] != name {
            assert forall|j: int| 0 < j < names.len() implies names[j] == names.drop_first()[j - 1] by {}
        }
    }
}

/// The names of the nodes `kids`.
pub open spec fn child_names(nodes: Seq<Node>, kids: Seq<usize>) -> Seq<Seq<char>> {
    kids.map_values(|c: usize| nodes[c as int].variable@)
}

/// The node reached from `n` by following the names `segs`, one level each,
/// always into the first child of the name.
pub open spec fn walk(nodes: Seq<Node>, n: int, segs: Seq<Seq<char>>) -> Option<int>
    decreases segs.len(),
{
    if segs.len() == 0 {
        Some(n)
    } else if !(0 <= n < nodes.len()) {
        None
    } else {
        let kids = nodes[n].children@;
        match first_index(child_names(nodes, kids), segs[0]) {
            Some(k) => walk(nodes, kids[k] as int, segs.drop_first()),
            None => None,
        }
    }
}

pub open spec fn node_value(nodes: Seq<Node>, o: Option<int>) -> Option<JValue> {
    match o {
        Some(n) => if 0 <= n < nodes.len() {
            Some(nodes[n].value.view())
        } else {
            None
        },
        None => None,
    }
}

/// The named parts of a value: an object's entries, or an array's elements
/// under their decimal indices. A scalar has none.
pub open spec fn entries_of(v: JValue) -> Seq<(Seq<char>, JValue)> {
    match v {
        JValue::Object(es) => es,
        JValue::Array(items) => Seq::new(items.len(), |i: int| (decimal(i as nat), items[i])),
        _ => Seq::empty(),
    }
}

pub open spec fn entry_keys(v: JValue) -> Seq<Seq<char>> {
    entries_of(v).map_values(|e: (Seq<char>, JValue)| e.0)
}

/// The part of `v` that the names `segs` lead to, one level each: into the
/// first object entry with the name, or into the array element whose decimal
/// index it is.
pub open spec fn value_at(v: JValue, segs: Seq<Seq<char>>) -> Option<JValue>
    decreases segs.len(),
{
    if segs.len() == 0 {
        Some(v)
    } else {
        match first_index(entry_keys(v), segs[0]) {
            Some(k) => value_at(entries_of(v)[k].1, segs.drop_first()),
            None => None,
        }
    }
}

/// The value that the dotted `path` names inside `v`.
pub open spec fn lookup(v: JValue, path: Seq<char>) -> Option<JValue> {
    value_at(v, segments(path))
}

/// Node `c` is in the children list of some node.
pub open spec fn is_child(nodes: Seq<Node>, c: int) -> bool {
    exists|n: int, k: int|
        0 <= n < nodes.len() && 0 <= k < nodes[n].children@.len() && #[trigger] nodes[n].children@[k] == c
}

/// The children of node `n` carry the names of the parts of its value, in
/// order, and hold those parts.
pub open spec fn node_mirrors(nodes: Seq<Node>, n: int) -> bool {
    let kids = nodes[n].children@;
    let v = nodes[n].value.view();
    &&& child_names(nodes, kids) == entry_keys(v)
    &&& forall|k: int| 0 <= k < kids.len() ==> #[trigger] nodes[kids[k] as int].value.view() == entries_of(v)[k].1
}

/// Every walk from node `n` ends at the part of `v` that the same names lead to.
pub open spec fn resolves_to(nodes: Seq<Node>, n: int, v: JValue) -> bool {
    forall|segs: Seq<Seq<char>>|
        #[trigger] node_value(nodes, walk(nodes, n, segs)) == value_at(v, segs)
}

/// The nodes in `lo..hi` have all their children in `lo..hi`.
pub open spec fn closed(nodes: Seq<Node>, lo: int, hi: int) -> bool {
    0 <= lo <= hi <= nodes.len() && forall|m: int, j: int|
        lo <= m < hi && 0 <= j < nodes[m].children@.len() ==> lo
            <= #[trigger] nodes[m].children@[j] < hi
}

pub open spec fn unchanged_in(a: Seq<Node>, b: Seq<Node>, lo: int, hi: int) -> bool {
    hi <= a.len() && hi <= b.len() && forall|i: int| lo <= i < hi ==> #[trigger] a[i] == b[i]
}

/// A walk inside a closed range of nodes depends on those nodes alone.
pub proof fn lemma_walk_frame(a: Seq<Node>, b: Seq<Node>, lo: int, hi: int, n: int, segs: Seq<Seq<char>>)
    requires
        closed(a, lo, hi),
        unchanged_in(a, b, lo, hi),
        lo <= n < hi,
    ensures
        walk(a, n, segs) == walk(b, n, segs),
        node_value(a, walk(a, n, segs)) == node_value(b, walk(b, n, segs)),
    decreases segs.len(),
{
    if segs.len() > 0 {
        let kids = a[n].children@;
        assert(b[n] == a[n]);
        assert(child_names(a, kids) =~= child_names(b, kids)) by {
            assert forall|j: int| 0 <= j < kids.len() implies a[kids[j] as int] == b[kids[j] as int] by {
                assert(lo <= a[n].children@[j] < hi);
            }
        }
        lemma_first_index(child_names(a, kids), segs[0]);
        match first_index(child_names(a, kids), segs[0]) {
            Some(k) => {
                assert(lo <= a[n].children@[k] < hi);
                lemma_walk_frame(a, b, lo, hi, kids[k] as int, segs.drop_first());
            },
            None => {},
        }
    } else {
        assert(a[n] == b[n]);
    }
}

/// A node's mirroring inside a closed range of nodes depends on those nodes alone.
pub proof fn lemma_mirrors_frame(a: Seq<Node>, b: Seq<Node>, lo: int, hi: int, n: int)
    requires
        closed(a, lo, hi),
        unchanged_in(a, b, lo, hi),
        lo <= n < hi,
        node_mirrors(a, n),
    ensures
        node_mirrors(b, n),
{
    let kids = a[n].children@;
    assert(b[n] == a[n]);
    assert forall|j: int| 0 <= j < kids.len() implies a[kids[j] as int] == b[kids[j] as int] by {
        assert(lo <= a[n].children@[j] < hi);
    }
    assert(child_names(a, kids) =~= child_names(b, kids));
    assert forall|k: int| 0 <= k < kids.len() implies #[trigger] b[kids[k] as int].value.view()
        == entries_of(b[n].value.view())[k].1 by {
        assert(a[kids[k] as int].value.view() == entries_of(a[n].value.view())[k].1);
    }
}

/// A node whose value is `v`, and whose children carry the names of `v`'s
/// parts in order and resolve to those parts, resolves to `v`.
pub proof fn lemma_resolves_step(nodes: Seq<Node>, n: int, v: JValue)
    requires
        0 <= n < nodes.len(),
        nodes[n].value.view() == v,
        child_names(nodes, nodes[n].children@) == entry_keys(v),
        forall|k: int| 0 <= k < entries_of(v).len() ==>
            resolves_to(nodes, #[trigger] nodes[n].children@[k] as int, entries_of(v)[k].1),
    ensures
        resolves_to(nodes, n, v),
{
    assert forall|segs: Seq<Seq<char>>|
        #[trigger] node_value(nodes, walk(nodes, n, segs)) == value_at(v, segs) by {
        if segs.len() > 0 {
            let kids = nodes[n].children@;
            lemma_first_index(entry_keys(v), segs[0]);
            match first_index(entry_keys(v), segs[0]) {
                Some(k) => {
                    assert(resolves_to(nodes, kids[k] as int, entries_of(v)[k].1));
                    assert(node_value(nodes, walk(nodes, kids[k] as int, segs.drop_first()))
                        == value_at(entries_of(v)[k].1, segs.drop_first()));
                },
                None => {},
            }
        }
    }
}

impl VariableTree {
    /// Every child index points past its parent and into the arena.
    pub open spec fn wf(&self) -> bool {
        &&& self.root < self.nodes@.len()
        &&& forall|i: int, j: int|
            0 <= i < self.nodes@.len() && 0 <= j < self.nodes@[i].children@.len() ==> i
                < #[trigger] self.nodes@[i].children@[j] < self.nodes@.len()
    }

    /// Every node other than the root is in the children list of exactly one
    /// node, once.
    pub open spec fn one_parent_each(&self) -> bool {
        &&& forall|n1: int, k1: int, n2: int, k2: int|
            0 <= n1 < self.nodes@.len() && 0 <= k1 < self.nodes@[n1].children@.len() && 0 <= n2
                < self.nodes@.len() && 0 <= k2 < self.nodes@[n2].children@.len()
                && #[trigger] self.nodes@[n1].children@[k1] == #[trigger] self.nodes@[n2].children@[k2]
                ==> n1 == n2 && k1 == k2
        &&& forall|c: int|
            0 <= c < self.nodes@.len() && c != self.root ==> #[trigger] is_child(self.nodes@, c)
    }

    /// Each node's children mirror its value: they carry the names of the
    /// value's parts, in order (an object's keys, an array's indices `0`,
    /// `1`, ...), and hold those parts. A scalar's node has no children.
    pub open spec fn mirrors_values(&self) -> bool {
        forall|n: int| 0 <= n < self.nodes@.len() ==> #[trigger] node_mirrors(self.nodes@, n)
    }

    /// The value that `path` names in this tree: the segments of the path are
    /// followed from the root, one level each.
    pub open spec fn resolve(&self, path: Seq<char>) -> Option<JValue> {
        node_value(self.nodes@, walk(self.nodes@, self.root as int, segments(path)))
    }

    /// A tree of one node, the root, which holds `root`.
    pub fn new(root: JsonValue) -> (r: VariableTree)
        ensures
            r.wf(),
            r.root == 0,
            r.nodes@.len() == 1,
            r.nodes@[0].value.view() == root.view(),
            r.nodes@[0].children@.len() == 0,
            r.one_parent_each(),
    {
        let node = Node { variable: String::from_str("variables"), value: root, children: Vec::new() };
        let mut nodes: Vec<Node> = Vec::new();
        nodes.push(node);
        VariableTree { root: 0, nodes }
    }

    /// The root node.
    pub fn get_root(&self) -> (r: Option<&Node>)
        ensures
            self.nodes@.len() > 0 ==> r == Some(&self.nodes@[0]),
            self.nodes@.len() == 0 ==> r.is_none(),
    {
        if self.nodes.len() > 0 {
            Some(&self.nodes[0])
        } else {
            None
        }
    }

    /// Appends a node named `variable` holding `value`, and lists it among the
    /// children of `parent` where `parent` is a node of the tree. Returns the
    /// index of the new node.
    pub fn add_child(&mut self, parent: usize, variable: String, value: JsonValue) -> (id: usize)
        requires
            old(self).nodes@.len() < usize::MAX,
        ensures
            id == old(self).nodes@.len(),
            final(self).root == old(self).root,
            final(self).nodes@.len() == id + 1,
            final(self).nodes@[id as int].variable@ == variable@,
            final(self).nodes@[id as int].value.view() == value.view(),
            final(self).nodes@[id as int].children@.len() == 0,
            forall|i: int| 0 <= i < id && i != parent ==> #[trigger] final(self).nodes@[i] == old(self).nodes@[i],
            parent < id ==> final(self).nodes@[parent as int].variable == old(self).nodes@[parent as int].variable,
            parent < id ==> final(self).nodes@[parent as int].value == old(self).nodes@[parent as int].value,
            parent < id ==> final(self).nodes@[parent as int].children@
                == old(self).nodes@[parent as int].children@.push(id),
            old(self).wf() ==> final(self).wf(),
            old(self).wf() && old(self).one_parent_each() && parent < id ==> final(self).one_parent_each(),
    {
        let id = self.nodes.len();
        if parent < self.nodes.len() {
            let mut node = self.nodes.remove(parent);
            node.children.push(id);
            self.nodes.insert(parent, node);
            assert(self.nodes@ =~= old(self).nodes@.update(parent as int, self.nodes@[parent as int]));
        }
        let node = Node { children: Vec::new(), variable, value };
        self.nodes.push(node);
        proof {
            if old(self).wf() {
                assert forall|i: int, j: int|
                    0 <= i < self.nodes@.len() && 0 <= j < self.nodes@[i].children@.len() implies i
                        < #[trigger] self.nodes@[i].children@[j] < self.nodes@.len() by {
                    if i == parent && (parent as int) < id {
                        if j < old(self).nodes@[i].children@.len() {
                            assert(self.nodes@[i].children@[j] == old(self).nodes@[i].children@[j]);
                        }
                    } else if i < id {
                        assert(self.nodes@[i] == old(self).nodes@[i]);
                    }
                }
                if old(self).one_parent_each() && (parent as int) < id {
                    self.lemma_add_child_one_parent(old(self), parent, id);
                }
            }
        }
        id
    }

    proof fn lemma_add_child_one_parent(&self, prev: &VariableTree, parent: usize, id: usize)
        requires
            prev.wf(),
            prev.one_parent_each(),
            0 <= parent < id,
            id == prev.nodes@.len(),
            self.nodes@.len() == id + 1,
            self.root == prev.root,
            self.nodes@[id as int].children@.len() == 0,
            forall|i: int| 0 <= i < id && i != parent ==> #[trigger] self.nodes@[i] == prev.nodes@[i],
            self.nodes@[parent as int].children@ == prev.nodes@[parent as int].children@.push(id),
        ensures
            self.one_parent_each(),
    {
        let o = prev.nodes@;
        let f = self.nodes@;
        let parent = parent as int;
        let id = id as int;
        assert forall|n: int, k: int| 0 <= n < id && 0 <= k < o[n].children@.len() implies
            #[trigger] f[n].children@[k] == o[n].children@[k] && k < f[n].children@.len() by {
            if n != parent {
                assert(f[n] == o[n]);
            }
        }
        assert forall|n1: int, k1: int, n2: int, k2: int|
            0 <= n1 < f.len() && 0 <= k1 < f[n1].children@.len() && 0 <= n2 < f.len() && 0 <= k2
                < f[n2].children@.len() && #[trigger] f[n1].children@[k1] == #[trigger] f[n2].children@[k2]
            implies n1 == n2 && k1 == k2 by {
            if n1 != parent && n1 < id {
                assert(f[n1] == o[n1]);
            }
            if n2 != parent && n2 < id {
                assert(f[n2] == o[n2]);
            }
            let old1 = n1 < id && k1 < o[n1].children@.len();
            let old2 = n2 < id && k2 < o[n2].children@.len();
            if old1 && old2 {
                assert(o[n1].children@[k1] == o[n2].children@[k2]);
            } else if old1 {
                assert(o[n1].children@[k1] < id);
                assert(n2 == parent && k2 == o[parent].children@.len());
            } else if old2 {
                assert(o[n2].children@[k2] < id);
                assert(n1 == parent && k1 == o[parent].children@.len());
            } else {
                assert(n1 == parent && k1 == o[parent].children@.len());
                assert(n2 == parent && k2 == o[parent].children@.len());
            }
        }
        assert forall|c: int| 0 <= c < f.len() && c != self.root implies #[trigger] is_child(f, c) by {
            if c == id {
                let k = o[parent].children@.len() as int;
                assert(f[parent].children@[k] == c);
            } else {
                assert(is_child(o, c));
                let (n, k) = choose|n: int, k: int|
                    0 <= n < o.len() && 0 <= k < o[n].children@.len() && #[trigger] o[n].children@[k] == c;
                assert(f[n].children@[k] == c);
            }
        }
    }

    /// The first child of `node` named `name`.
    fn find_child(&self, node: usize, name: &String) -> (r: Option<usize>)
        requires
            self.wf(),
            node < self.nodes@.len(),
        ensures
            match first_index(child_names(self.nodes@, self.nodes@[node as int].children@), name@) {
                Some(k) => r == Some(self.nodes@[node as int].children@[k]),
                None => r.is_none(),
            },
    {
        let kids = &self.nodes[node].children;
        let ghost names = child_names(self.nodes@, kids@);
        let mut k: usize = 0;
        assert(names.subrange(0, names.len() as int) =~= names);
        while k < kids.len()
            invariant
                self.wf(),
                node < self.nodes@.len(),
                kids == &self.nodes@[node as int].children,
                names == child_names(self.nodes@, kids@),
                k <= kids.len(),
                first_index(names, name@) == match first_index(names.subrange(k as int, names.len() as int), name@) {
                    Some(x) => Some(x + k),
                    None => None,
                },
            decreases kids.len() - k,
        {
            let c = kids[k];
            assert(c < self.nodes@.len());
            let ghost rest = names.subrange(k as int, names.len() as int);
            if self.nodes[c].variable == *name {
                assert(rest[0] == name@);
                return Some(c);
            }
            assert(rest.drop_first() =~= names.subrange(k + 1, names.len() as int));
            k = k + 1;
        }
        None
    }

    /// The node that the segments `segs` lead to from the root.
    pub(crate) fn resolve_node(&self, segs: &Vec<String>) -> (r: Option<usize>)
        requires
            self.wf(),
        ensures
            match r {
                Some(n) => n < self.nodes@.len()
                    && walk(self.nodes@, self.root as int, segs@.map_values(|s: String| s@)) == Some(n as int),
                None => walk(self.nodes@, self.root as int, segs@.map_values(|s: String| s@)).is_none(),
            },
    {
        let ghost all = segs@.map_values(|s: String| s@);
        let mut cur = self.root;
        let mut i: usize = 0;
        assert(all.subrange(0, all.len() as int) =~= all);
        while i < segs.len()
            invariant
                self.wf(),
                cur < self.nodes@.len(),
                i <= segs.len(),
                all == segs@.map_values(|s: String| s@),
                walk(self.nodes@, self.root as int, all) == walk(self.nodes@, cur as int, all.subrange(i as int, all.len() as int)),
            decreases segs.len() - i,
        {
            let ghost rest = all.subrange(i as int, all.len() as int);
            assert(rest.drop_first() =~= all.subrange(i + 1, all.len() as int));
            proof {
                lemma_first_index(child_names(self.nodes@, self.nodes@[cur as int].children@), rest[0]);
            }
            match self.find_child(cur, &segs[i]) {
                Some(c) => {
                    cur = c;
                },
                None => {
                    return None;
                },
            }
            i = i + 1;
        }
        assert(all.subrange(i as int, all.len() as int).len() == 0);
        Some(cur)
    }

    /// The value that the dotted `variable` path names: the first segment is a
    /// child of the root, each further one a child of the node before it.
    pub fn get_variable_value(&self, variable: &str) -> (r: Option<JsonValue>)
        requires
            self.wf(),
        ensures
            match r {
                Some(v) => self.resolve(variable@) == Some(v.view()),
                None => self.resolve(variable@).is_none(),
            },
    {
        let segs = split_path(variable);
        assert(segs@.map_values(|s: String| s@) =~= segments(variable@));
        match self.resolve_node(&segs) {
            Some(n) => Some(self.nodes[n].value.duplicate()),
            None => None,
        }
    }
}

} // verus!

verus! {

/// Paths descend to any depth: following `s1` and then `s2` reaches what
/// following `s2` reaches from the end of `s1`.
pub proof fn lemma_value_at_concat(v: JValue, s1: Seq<Seq<char>>, s2: Seq<Seq<char>>)
    requires
        value_at(v, s1) is Some,
    ensures
        value_at(v, s1 + s2) == value_at(value_at(v, s1)->Some_0, s2),
    decreases s1.len(),
{
    if s1.len() == 0 {
        assert(s1 + s2 =~= s2);
    } else {
        assert((s1 + s2)[0] == s1[0]);
        assert((s1 + s2).drop_first() =~= s1.drop_first() + s2);
        let k = first_index(entry_keys(v), s1[0])->Some_0;
        lemma_value_at_concat(entries_of(v)[k].1, s1.drop_first(), s2);
    }
}

/// The element of an array at index `i` is reached by the segment that is the
/// decimal text of `i`; an index past the end reaches nothing.
pub proof fn lemma_array_index(items: Seq<JValue>, i: nat, rest: Seq<Seq<char>>)
    ensures
        i < items.len() ==> value_at(JValue::Array(items), seq![decimal(i)] + rest)
            == value_at(items[i as int], rest),
        i >= items.len() ==> value_at(JValue::Array(items), seq![decimal(i)] + rest) is None,
{
    let v = JValue::Array(items);
    let segs = seq![decimal(i)] + rest;
    assert(segs[0] == decimal(i));
    assert(segs.drop_first() =~= rest);
    let keys = entry_keys(v);
    assert forall|j: int| 0 <= j < keys.len() implies keys[j] == decimal(j as nat) by {}
    lemma_first_index(keys, decimal(i));
    match first_index(keys, decimal(i)) {
        Some(k) => {
            crate::text::lemma_decimal_injective(k as nat, i);
        },
        None => {
            if i < items.len() {
                assert(keys[i as int] == decimal(i));
            }
        },
    }
}

} // verus!
