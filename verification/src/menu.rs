//! The battle menu: a tree of labelled nodes kept in one vector, each node
//! naming its children and its parent by their positions.
use vstd::prelude::*;
use crate::text::same_text;

verus! {

pub type NodeHandle = usize;

#[derive(Debug)]
pub struct Menu {
    pub root: NodeHandle,
    pub nodes: Vec<Node>,
}

#[derive(Debug)]
pub struct Node {
    pub data: String,
    pub children: Vec<NodeHandle>,
    pub parent: NodeHandle,
}

/// A node as contracts see it.
pub ghost struct NodeView {
    pub data: Seq<char>,
    pub children: Seq<NodeHandle>,
    pub parent: NodeHandle,
}

impl View for Node {
    type V = NodeView;

    open spec fn view(&self) -> NodeView {
        NodeView { data: self.data@, children: self.children@, parent: self.parent }
    }
}

/// The views of a vector of nodes.
pub open spec fn node_views(nodes: Seq<Node>) -> Seq<NodeView> {
    nodes.map_values(|n: Node| n@)
}

/// A node without children.
pub open spec fn leaf(data: Seq<char>, parent: NodeHandle) -> NodeView {
    NodeView { data, children: Seq::empty(), parent }
}

/// Whether every child and every parent that a node names is a node.
pub open spec fn tree_wf(nodes: Seq<NodeView>) -> bool {
    &&& nodes.len() > 0
    &&& forall|i: int| 0 <= i < nodes.len() ==> (#[trigger] nodes[i]).parent < nodes.len()
    &&& forall|i: int, k: int|
        0 <= i < nodes.len() && 0 <= k < nodes[i].children.len() ==> #[trigger] nodes[i].children[k] < nodes.len()
}

/// The nodes after a new leaf labelled `data` joins as the last child of `parent`.
pub open spec fn with_child(nodes: Seq<NodeView>, parent: int, data: Seq<char>) -> Seq<NodeView> {
    nodes.update(
        parent,
        NodeView { children: nodes[parent].children.push(nodes.len() as NodeHandle), ..nodes[parent] },
    ).push(leaf(data, parent as NodeHandle))
}

/// The first of `kids` whose node is labelled `name`.
pub open spec fn first_match(nodes: Seq<NodeView>, kids: Seq<NodeHandle>, name: Seq<char>) -> Option<NodeHandle>
    decreases kids.len(),
{
    if kids.len() == 0 {
        None
    } else if nodes[kids[0] as int].data == name {
        Some(kids[0])
    } else {
        first_match(nodes, kids.skip(1), name)
    }
}

/// Where `path` leads from node `current`: each name picks the first child so
/// labelled.
pub open spec fn walk(nodes: Seq<NodeView>, current: NodeHandle, path: Seq<Seq<char>>) -> Option<NodeHandle>
    decreases path.len(),
{
    if path.len() == 0 {
        Some(current)
    } else {
        match first_match(nodes, nodes[current as int].children, path[0]) {
            Some(next) => walk(nodes, next, path.skip(1)),
            None => None,
        }
    }
}

/// The first node labelled `name`.
pub open spec fn first_labelled(nodes: Seq<NodeView>, name: Seq<char>, i: int) -> bool {
    &&& 0 <= i < nodes.len()
    &&& nodes[i].data == name
    &&& forall|j: int| 0 <= j < i ==> nodes[j].data != name
}

/// The texts of a path of string slices.
pub open spec fn path_view(path: Seq<&str>) -> Seq<Seq<char>> {
    path.map_values(|s: &str| s@)
}

/// A new child keeps every child and parent a node.
pub proof fn lemma_with_child_wf(nodes: Seq<NodeView>, parent: int, data: Seq<char>)
    requires
        tree_wf(nodes),
        0 <= parent < nodes.len(),
    ensures
        tree_wf(with_child(nodes, parent, data)),
        with_child(nodes, parent, data).len() == nodes.len() + 1,
{
    let t = with_child(nodes, parent, data);
    assert forall|i: int| 0 <= i < t.len() implies (#[trigger] t[i]).parent < t.len() by {
        if i < nodes.len() && i != parent {
            assert(t[i] == nodes[i]);
        }
    }
    assert forall|i: int, k: int| 0 <= i < t.len() && 0 <= k < t[i].children.len() implies #[trigger] t[i].children[k] < t.len() by {
        if i < nodes.len() && i != parent {
            assert(t[i] == nodes[i]);
        } else if i == parent {
            if k < nodes[parent].children.len() {
                assert(t[i].children[k] == nodes[parent].children[k]);
            }
        }
    }
}

/// A new child does not change which of some earlier children first bears a name.
pub proof fn lemma_first_match_grows(nodes: Seq<NodeView>, parent: int, data: Seq<char>, kids: Seq<NodeHandle>, name: Seq<char>)
    requires
        0 <= parent < nodes.len(),
        forall|k: int| 0 <= k < kids.len() ==> #[trigger] kids[k] < nodes.len(),
        first_match(nodes, kids, name) is Some,
    ensures
        first_match(with_child(nodes, parent, data), kids, name) == first_match(nodes, kids, name),
        first_match(with_child(nodes, parent, data), kids.push(nodes.len() as NodeHandle), name) == first_match(nodes, kids, name),
    decreases kids.len(),
{
    let t = with_child(nodes, parent, data);
    let h = nodes.len() as NodeHandle;
    assert(kids.push(h)[0] == kids[0]);
    assert(t[kids[0] as int].data == nodes[kids[0] as int].data);
    if nodes[kids[0] as int].data != name {
        assert(kids.push(h).skip(1) == kids.skip(1).push(h));
        lemma_first_match_grows(nodes, parent, data, kids.skip(1), name);
    }
}

/// A first match is one of the kids.
pub proof fn lemma_first_match_member(nodes: Seq<NodeView>, kids: Seq<NodeHandle>, name: Seq<char>)
    requires
        first_match(nodes, kids, name) is Some,
    ensures
        exists|k: int| 0 <= k < kids.len() && kids[k] == first_match(nodes, kids, name)->0,
    decreases kids.len(),
{
    if nodes[kids[0] as int].data != name {
        lemma_first_match_member(nodes, kids.skip(1), name);
        let k = choose|k: int| 0 <= k < kids.skip(1).len() && kids.skip(1)[k] == first_match(nodes, kids.skip(1), name)->0;
        assert(kids[k + 1] == kids.skip(1)[k]);
    } else {
        assert(kids[0] == first_match(nodes, kids, name)->0);
    }
}

/// A new child never changes where a path that already led somewhere leads.
pub proof fn lemma_walk_stable(nodes: Seq<NodeView>, parent: int, data: Seq<char>, current: NodeHandle, path: Seq<Seq<char>>)
    requires
        tree_wf(nodes),
        0 <= parent < nodes.len(),
        current < nodes.len(),
        walk(nodes, current, path) is Some,
    ensures
        walk(with_child(nodes, parent, data), current, path) == walk(nodes, current, path),
    decreases path.len(),
{
    if path.len() > 0 {
        let t = with_child(nodes, parent, data);
        let kids = nodes[current as int].children;
        assert(forall|k: int| 0 <= k < kids.len() ==> #[trigger] kids[k] < nodes.len());
        lemma_first_match_grows(nodes, parent, data, kids, path[0]);
        lemma_first_match_member(nodes, kids, path[0]);
        if current as int == parent {
            assert(t[current as int].children == kids.push(nodes.len() as NodeHandle));
        } else {
            assert(t[current as int] == nodes[current as int]);
        }
        let next = first_match(nodes, kids, path[0])->0;
        lemma_walk_stable(nodes, parent, data, next, path.skip(1));
    }
}

/// A path one name longer leads to the first child so named of where the path led.
pub proof fn lemma_walk_push(nodes: Seq<NodeView>, current: NodeHandle, path: Seq<Seq<char>>, name: Seq<char>)
    ensures
        walk(nodes, current, path.push(name)) == (match walk(nodes, current, path) {
            Some(p) => first_match(nodes, nodes[p as int].children, name),
            None => None,
        }),
    decreases path.len(),
{
    if path.len() == 0 {
        assert(path.push(name)[0] == name);
        assert(path.push(name).skip(1) =~= Seq::<Seq<char>>::empty());
        assert(walk(nodes, current, path) == Some(current));
        match first_match(nodes, nodes[current as int].children, name) {
            Some(next) => {
                assert(walk(nodes, next, path.push(name).skip(1)) == Some(next));
            },
            None => {},
        }
    } else {
        assert(path.push(name)[0] == path[0]);
        assert(path.push(name).skip(1) =~= path.skip(1).push(name));
        match first_match(nodes, nodes[current as int].children, path[0]) {
            Some(next) => {
                lemma_walk_push(nodes, next, path.skip(1), name);
            },
            None => {},
        }
    }
}

/// A child labelled `name` at the end of the kids makes some kid match.
pub proof fn lemma_first_match_last(nodes: Seq<NodeView>, kids: Seq<NodeHandle>, h: NodeHandle, name: Seq<char>)
    requires
        nodes[h as int].data == name,
    ensures
        first_match(nodes, kids.push(h), name) is Some,
    decreases kids.len(),
{
    assert(kids.push(h)[0] == (if kids.len() == 0 { h } else { kids[0] }));
    if kids.len() > 0 && nodes[kids[0] as int].data != name {
        assert(kids.push(h).skip(1) =~= kids.skip(1).push(h));
        lemma_first_match_last(nodes, kids.skip(1), h, name);
    }
}

/// Where a path leads is a node.
pub proof fn lemma_walk_in_bounds(nodes: Seq<NodeView>, current: NodeHandle, path: Seq<Seq<char>>)
    requires
        tree_wf(nodes),
        current < nodes.len(),
        walk(nodes, current, path) is Some,
    ensures
        walk(nodes, current, path)->0 < nodes.len(),
    decreases path.len(),
{
    if path.len() > 0 {
        let kids = nodes[current as int].children;
        lemma_first_match_member(nodes, kids, path[0]);
        let next = first_match(nodes, kids, path[0])->0;
        let k = choose|k: int| 0 <= k < kids.len() && kids[k] == next;
        assert(nodes[current as int].children[k] < nodes.len());
        lemma_walk_in_bounds(nodes, next, path.skip(1));
    }
}

/// After a leaf joins under where `path` leads, the path with its label added
/// leads somewhere, and every path that led somewhere still leads there.
pub proof fn lemma_insert_reaches(nodes: Seq<NodeView>, path: Seq<Seq<char>>, data: Seq<char>)
    requires
        tree_wf(nodes),
        nodes.len() < usize::MAX,
        walk(nodes, 0, path) is Some,
    ensures
        walk(with_child(nodes, walk(nodes, 0, path)->0 as int, data), 0, path.push(data)) is Some,
        forall|q: Seq<Seq<char>>| walk(nodes, 0, q) is Some ==> #[trigger] walk(
            with_child(nodes, walk(nodes, 0, path)->0 as int, data),
            0,
            q,
        ) == walk(nodes, 0, q),
{
    let p = walk(nodes, 0, path)->0;
    lemma_walk_in_bounds(nodes, 0, path);
    let t = with_child(nodes, p as int, data);
    assert forall|q: Seq<Seq<char>>| walk(nodes, 0, q) is Some implies #[trigger] walk(t, 0, q) == walk(nodes, 0, q) by {
        lemma_walk_stable(nodes, p as int, data, 0, q);
    }
    lemma_walk_push(t, 0, path, data);
    assert(t[p as int].children == nodes[p as int].children.push(nodes.len() as NodeHandle));
    assert(t[nodes.len() as int].data == data);
    lemma_first_match_last(t, nodes[p as int].children, nodes.len() as NodeHandle, data);
}

/// Whether every node but the first comes after its parent, and every child
/// comes after the node that names it and names that node as its parent.
pub open spec fn ordered(nodes: Seq<NodeView>) -> bool {
    &&& forall|i: int| 0 < i < nodes.len() ==> (#[trigger] nodes[i]).parent < i
    &&& forall|i: int, k: int| 0 <= i < nodes.len() && 0 <= k < nodes[i].children.len() ==> {
        &&& i < #[trigger] nodes[i].children[k]
        &&& nodes[nodes[i].children[k] as int].parent == i
    }
}

/// The labels from below the first node down to node `i`: the path that leads
/// there.
pub open spec fn label_path(nodes: Seq<NodeView>, i: int) -> Seq<Seq<char>>
    decreases i,
{
    if 0 < i < nodes.len() && nodes[i].parent < i {
        label_path(nodes, nodes[i].parent as int).push(nodes[i].data)
    } else {
        Seq::empty()
    }
}

/// A new child keeps the nodes ordered, leaves the label path of every node
/// as it was, and has the label path of its parent with its own label added.
pub proof fn lemma_with_child_labels(nodes: Seq<NodeView>, parent: int, data: Seq<char>)
    requires
        tree_wf(nodes),
        ordered(nodes),
        0 <= parent < nodes.len(),
        nodes.len() < usize::MAX,
    ensures
        ordered(with_child(nodes, parent, data)),
        forall|i: int| 0 <= i < nodes.len() ==> #[trigger] label_path(with_child(nodes, parent, data), i) == label_path(nodes, i),
        label_path(with_child(nodes, parent, data), nodes.len() as int) == label_path(nodes, parent).push(data),
{
    let t = with_child(nodes, parent, data);
    let n = nodes.len() as int;
    assert forall|i: int, k: int| 0 <= i < t.len() && 0 <= k < t[i].children.len() implies {
        &&& i < #[trigger] t[i].children[k]
        &&& t[t[i].children[k] as int].parent == i
    } by {
        if i == parent && k == nodes[parent].children.len() {
            assert(t[i].children[k] == n);
        } else if i < n {
            assert(t[i].children[k] == nodes[i].children[k]);
            assert(nodes[i].children[k] < n);
            assert(t[nodes[i].children[k] as int].parent == nodes[nodes[i].children[k] as int].parent);
        }
    }
    assert forall|i: int| 0 < i < t.len() implies (#[trigger] t[i]).parent < i by {
        if i < n {
            assert(t[i].parent == nodes[i].parent);
        }
    }
    assert forall|i: int| 0 <= i < nodes.len() implies #[trigger] label_path(t, i) == label_path(nodes, i) by {
        lemma_label_path_kept(nodes, parent, data, i);
    }
    assert(t[n].parent == parent);
    assert(t[n].data == data);
    lemma_label_path_kept(nodes, parent, data, parent);
}

/// A new child leaves the label path of an earlier node as it was.
proof fn lemma_label_path_kept(nodes: Seq<NodeView>, parent: int, data: Seq<char>, i: int)
    requires
        0 <= parent < nodes.len(),
        0 <= i < nodes.len(),
    ensures
        label_path(with_child(nodes, parent, data), i) == label_path(nodes, i),
    decreases i,
{
    let t = with_child(nodes, parent, data);
    assert(t[i].parent == nodes[i].parent && t[i].data == nodes[i].data);
    if 0 < i && nodes[i].parent < i {
        lemma_label_path_kept(nodes, parent, data, nodes[i].parent as int);
    }
}

/// A first match is labelled with the name looked for.
pub proof fn lemma_first_match_data(nodes: Seq<NodeView>, kids: Seq<NodeHandle>, name: Seq<char>)
    requires
        first_match(nodes, kids, name) is Some,
    ensures
        nodes[first_match(nodes, kids, name)->0 as int].data == name,
    decreases kids.len(),
{
    if nodes[kids[0] as int].data != name {
        lemma_first_match_data(nodes, kids.skip(1), name);
    }
}

/// In ordered nodes, where a path leads from a node has that node's label
/// path followed by the path.
pub proof fn lemma_walk_label(nodes: Seq<NodeView>, current: NodeHandle, path: Seq<Seq<char>>)
    requires
        tree_wf(nodes),
        ordered(nodes),
        current < nodes.len(),
        walk(nodes, current, path) is Some,
    ensures
        label_path(nodes, walk(nodes, current, path)->0 as int) == label_path(nodes, current as int) + path,
    decreases path.len(),
{
    if path.len() == 0 {
        assert(label_path(nodes, current as int) + path =~= label_path(nodes, current as int));
    } else {
        let kids = nodes[current as int].children;
        lemma_first_match_member(nodes, kids, path[0]);
        lemma_first_match_data(nodes, kids, path[0]);
        let next = first_match(nodes, kids, path[0])->0;
        let k = choose|k: int| 0 <= k < kids.len() && kids[k] == next;
        assert(nodes[current as int].children[k] == next);
        assert(current < next);
        assert(nodes[next as int].parent == current);
        assert(label_path(nodes, next as int) == label_path(nodes, current as int).push(path[0]));
        lemma_walk_label(nodes, next, path.skip(1));
        assert(label_path(nodes, current as int).push(path[0]) + path.skip(1) =~= label_path(nodes, current as int) + path);
    }
}

/// The labels of the children, in order, of the node that `q` leads to from
/// the first node; none where `q` leads nowhere.
pub open spec fn kids_at(nodes: Seq<NodeView>, q: Seq<Seq<char>>) -> Seq<Seq<char>> {
    match walk(nodes, 0, q) {
        Some(n) => nodes[n as int].children.map_values(|c: NodeHandle| nodes[c as int].data),
        None => Seq::empty(),
    }
}

/// Whether inserting `data` under where `path` leads took the children labels
/// of `old` to those of `new`: the labels under `path` gain `data` at the end,
/// those under every other path that led somewhere stay.
pub open spec fn kids_after(old: Seq<NodeView>, new: Seq<NodeView>, path: Seq<Seq<char>>, data: Seq<char>) -> bool {
    forall|q: Seq<Seq<char>>| walk(old, 0, q) is Some ==> #[trigger] kids_at(new, q) == (if q == path {
        kids_at(old, q).push(data)
    } else {
        kids_at(old, q)
    })
}

/// A kid labelled `name` added after kids none of which is so labelled is the
/// first match.
pub proof fn lemma_first_match_fresh(nodes: Seq<NodeView>, kids: Seq<NodeHandle>, h: NodeHandle, name: Seq<char>)
    requires
        forall|k: int| 0 <= k < kids.len() ==> nodes[#[trigger] kids[k] as int].data != name,
        nodes[h as int].data == name,
    ensures
        first_match(nodes, kids.push(h), name) == Some(h),
    decreases kids.len(),
{
    if kids.len() == 0 {
        assert(kids.push(h)[0] == h);
    } else {
        assert(kids.push(h)[0] == kids[0]);
        assert(nodes[kids[0] as int].data != name);
        assert(kids.push(h).skip(1) =~= kids.skip(1).push(h));
        assert forall|k: int| 0 <= k < kids.skip(1).len() implies nodes[#[trigger] kids.skip(1)[k] as int].data != name by {
            assert(kids.skip(1)[k] == kids[k + 1]);
        }
        lemma_first_match_fresh(nodes, kids.skip(1), h, name);
    }
}

/// Inserting a leaf under where `path` leads changes the children labels only
/// under `path`, where the label joins at the end; a label new there leads to
/// the new leaf, which has no children.
pub proof fn lemma_kids_after_insert(nodes: Seq<NodeView>, path: Seq<Seq<char>>, data: Seq<char>)
    requires
        tree_wf(nodes),
        ordered(nodes),
        nodes.len() < usize::MAX,
        walk(nodes, 0, path) is Some,
    ensures
        kids_after(nodes, with_child(nodes, walk(nodes, 0, path)->0 as int, data), path, data),
        !kids_at(nodes, path).contains(data) ==> kids_at(with_child(nodes, walk(nodes, 0, path)->0 as int, data), path.push(data))
            == Seq::<Seq<char>>::empty(),
{
    let p = walk(nodes, 0, path)->0;
    lemma_walk_in_bounds(nodes, 0, path);
    let t = with_child(nodes, p as int, data);
    let n = nodes.len() as int;
    lemma_with_child_wf(nodes, p as int, data);
    lemma_with_child_labels(nodes, p as int, data);
    lemma_walk_label(nodes, 0, path);
    assert(label_path(nodes, 0) + path =~= path);
    assert forall|q: Seq<Seq<char>>| walk(nodes, 0, q) is Some implies #[trigger] kids_at(t, q) == (if q == path {
        kids_at(nodes, q).push(data)
    } else {
        kids_at(nodes, q)
    }) by {
        lemma_walk_stable(nodes, p as int, data, 0, q);
        lemma_walk_in_bounds(nodes, 0, q);
        lemma_walk_label(nodes, 0, q);
        assert(label_path(nodes, 0) + q =~= q);
        let w = walk(nodes, 0, q)->0;
        let old_kids = nodes[w as int].children;
        assert forall|k: int| 0 <= k < old_kids.len() implies t[old_kids[k] as int].data == nodes[old_kids[k] as int].data by {
            assert(old_kids[k] < n);
        }
        if w == p {
            assert(q == path);
            assert(t[w as int].children == old_kids.push(n as NodeHandle));
            assert(t[w as int].children.map_values(|c: NodeHandle| t[c as int].data) =~= old_kids.map_values(
                |c: NodeHandle| nodes[c as int].data,
            ).push(data));
        } else {
            assert(q != path);
            assert(t[w as int] == nodes[w as int]);
            assert(t[w as int].children.map_values(|c: NodeHandle| t[c as int].data) =~= old_kids.map_values(
                |c: NodeHandle| nodes[c as int].data,
            ));
        }
    }
    if !kids_at(nodes, path).contains(data) {
        let old_kids = nodes[p as int].children;
        assert forall|k: int| 0 <= k < old_kids.len() implies t[#[trigger] old_kids[k] as int].data != data by {
            assert(old_kids[k] < n);
            assert(kids_at(nodes, path)[k] == nodes[old_kids[k] as int].data);
        }
        assert(t[n].data == data);
        assert(t[p as int].children == old_kids.push(n as NodeHandle));
        lemma_first_match_fresh(t, old_kids, n as NodeHandle, data);
        lemma_walk_stable(nodes, p as int, data, 0, path);
        lemma_walk_push(t, 0, path, data);
        assert(walk(t, 0, path.push(data)) == Some(n as NodeHandle));
        assert(t[n].children.len() == 0);
        assert(kids_at(t, path.push(data)) =~= Seq::<Seq<char>>::empty());
    }
}

/// The nodes after a leaf labelled `op.1` joins as the last child of the node
/// that path `op.0` leads to; the same nodes where the path leads nowhere.
#[verifier::opaque]
pub open spec fn insert_step(nodes: Seq<NodeView>, op: (Seq<Seq<char>>, Seq<char>)) -> Seq<NodeView> {
    match walk(nodes, 0, op.0) {
        Some(p) => with_child(nodes, p as int, op.1),
        None => nodes,
    }
}

/// The nodes after each insertion of `ops`, in order, starting from `nodes`.
pub open spec fn replay(nodes: Seq<NodeView>, ops: Seq<(Seq<Seq<char>>, Seq<char>)>) -> Seq<NodeView>
    decreases ops.len(),
{
    if ops.len() == 0 {
        nodes
    } else {
        insert_step(replay(nodes, ops.drop_last()), ops.last())
    }
}

/// One more insertion at the end is one more step.
pub proof fn lemma_replay_push(nodes: Seq<NodeView>, ops: Seq<(Seq<Seq<char>>, Seq<char>)>, op: (Seq<Seq<char>>, Seq<char>))
    ensures
        replay(nodes, ops.push(op)) == insert_step(replay(nodes, ops), op),
{
    assert(ops.push(op).drop_last() =~= ops);
}

impl Node {
    pub fn new(data: &str) -> (n: Self)
        ensures
            n@ == leaf(data@, 0),
    {
        Node { data: String::from_str(data), children: Vec::new(), parent: 0 }
    }

    pub fn new_with_parent(data: &str, parent: NodeHandle) -> (n: Self)
        ensures
            n@ == leaf(data@, parent),
    {
        Node { data: String::from_str(data), children: Vec::new(), parent }
    }
}

impl View for Menu {
    type V = Seq<NodeView>;

    open spec fn view(&self) -> Seq<NodeView> {
        node_views(self.nodes@)
    }
}

impl Menu {
    pub open spec fn wf(&self) -> bool {
        &&& tree_wf(self@)
        &&& self.root < self@.len()
    }

    /// A menu of one node, the root, labelled "root".
    pub fn new() -> (m: Self)
        ensures
            m.root == 0,
            m@ == seq![leaf("root"@, 0)],
            m.wf(),
    {
        let mut nodes: Vec<Node> = Vec::new();
        nodes.push(Node::new("root"));
        let m = Menu { root: 0, nodes };
        assert(m@ =~= seq![leaf("root"@, 0)]);
        m
    }

    /// Adds a leaf labelled `data` as the last child of `parent`; returns its handle.
    fn alloc_node(&mut self, data: &str, parent: NodeHandle) -> (h: NodeHandle)
        requires
            old(self).wf(),
            parent < old(self)@.len(),
        ensures
            h == old(self)@.len(),
            final(self)@ == old(self)@.push(leaf(data@, parent)),
            final(self).root == old(self).root,
    {
        self.nodes.push(Node::new_with_parent(data, parent));
        proof {
            assert(self@ =~= old(self)@.push(leaf(data@, parent)));
        }
        self.nodes.len() - 1
    }

    /// Makes a leaf labelled `data` the root, unless the root is already a node other than the first.
    pub fn insert(&mut self, data: &str)
        requires
            old(self).wf(),
        ensures
            old(self).root == 0 ==> final(self)@ == old(self)@.push(leaf(data@, 0)) && final(self).root
                == old(self)@.len(),
            old(self).root != 0 ==> final(self)@ == old(self)@ && final(self).root == old(self).root,
            final(self).wf(),
    {
        if self.root == 0 {
            self.root = self.alloc_node(data, 0);
        }
    }

    /// The first node labelled `name`.
    fn find_node_handle(&self, name: &str) -> (r: Option<NodeHandle>)
        ensures
            r matches Some(i) ==> first_labelled(self@, name@, i as int),
            r is None ==> forall|j: int| 0 <= j < self@.len() ==> self@[j].data != name@,
    {
        let mut i: usize = 0;
        while i < self.nodes.len()
            invariant
                i <= self.nodes.len(),
                forall|j: int| 0 <= j < i ==> self@[j].data != name@,
            decreases self.nodes.len() - i,
        {
            if same_text(&self.nodes[i].data, name) {
                return Some(i);
            }
            i = i + 1;
        }
        None
    }

    /// Adds a leaf labelled `data` under the first node labelled `parent_name`.
    pub fn insert_at(&mut self, parent_name: &str, data: &str)
        requires
            old(self).wf(),
            exists|j: int| 0 <= j < old(self)@.len() && old(self)@[j].data == parent_name@,
        ensures
            forall|p: int| first_labelled(old(self)@, parent_name@, p) ==> final(self)@ == with_child(old(self)@, p, data@),
            final(self).root == old(self).root,
            final(self).wf(),
    {
        match self.find_node_handle(parent_name) {
            Some(parent_handle) => {
                self.add_child(parent_handle, data);
            },
            None => {},
        }
    }

    /// Adds a leaf labelled `data` as the last child of `parent`.
    fn add_child(&mut self, parent: NodeHandle, data: &str)
        requires
            old(self).wf(),
            parent < old(self)@.len(),
        ensures
            final(self)@ == with_child(old(self)@, parent as int, data@),
            final(self).root == old(self).root,
            final(self).wf(),
    {
        let ghost before = self@;
        let child_handle = self.alloc_node(data, parent);
        assert(self.nodes@.len() == self@.len());
        let ghost mid = self.nodes@;
        let mut node = self.nodes.remove(parent);
        node.children.push(child_handle);
        let ghost changed = node;
        self.nodes.insert(parent, node);
        proof {
            assert(self.nodes@ =~= mid.update(parent as int, changed));
            assert(node_views(mid)[parent as int] == mid[parent as int]@);
            assert(node_views(mid) == before.push(leaf(data@, parent)));
            assert(mid[parent as int]@ == before[parent as int]);
            assert(changed@ == NodeView { children: before[parent as int].children.push(before.len() as NodeHandle), ..before[parent as int] });
            let w = with_child(before, parent as int, data@);
            assert forall|i: int| 0 <= i < w.len() implies #[trigger] self@[i] == w[i] by {
                assert(self@[i] == self.nodes@[i]@);
                if i != parent {
                    assert(self.nodes@[i] == mid[i]);
                    assert(node_views(mid)[i] == mid[i]@);
                }
            }
            assert(self@ =~= w);
            lemma_with_child_wf(before, parent as int, data@);
        }
    }

    /// The first child of `current` labelled `name`.
    fn child_named(&self, current: NodeHandle, name: &str) -> (r: Option<NodeHandle>)
        requires
            self.wf(),
            current < self@.len(),
        ensures
            r == first_match(self@, self@[current as int].children, name@),
    {
        let kids = &self.nodes[current].children;
        let ghost all = kids@;
        let mut j: usize = 0;
        proof {
            assert(all.skip(0) == all);
        }
        while j < kids.len()
            invariant
                self.wf(),
                current < self@.len(),
                all == kids@,
                all == self@[current as int].children,
                j <= all.len(),
                first_match(self@, all, name@) == first_match(self@, all.skip(j as int), name@),
            decreases kids.len() - j,
        {
            let h = kids[j];
            assert(h < self@.len());
            assert(all.skip(j as int)[0] == h);
            if same_text(&self.nodes[h].data, name) {
                return Some(h);
            }
            assert(all.skip(j as int).skip(1) == all.skip(j + 1));
            j = j + 1;
        }
        None
    }

    /// Where a path leads from the first node; its first name stands for that node.
    fn find_node_handle_by_path(&self, path: &[&str]) -> (r: Option<NodeHandle>)
        requires
            self.wf(),
            path@.len() >= 1,
        ensures
            r == walk(self@, 0, path_view(path@).skip(1)),
            r matches Some(h) ==> h < self@.len(),
    {
        let ghost full = path_view(path@).skip(1);
        let mut current: usize = 0;
        let mut i: usize = 1;
        proof {
            assert(full.skip(0) == full);
        }
        while i < path.len()
            invariant
                self.wf(),
                1 <= i <= path@.len(),
                current < self@.len(),
                full == path_view(path@).skip(1),
                walk(self@, 0, full) == walk(self@, current, full.skip(i - 1)),
            decreases path.len() - i,
        {
            let ghost rest = full.skip(i - 1);
            assert(rest[0] == path@[i as int]@);
            match self.child_named(current, path[i]) {
                Some(next) => {
                    assert(rest.skip(1) == full.skip(i as int));
                    let ghost kids = self@[current as int].children;
                    proof {
                        lemma_first_match_member(self@, kids, rest[0]);
                    }
                    current = next;
                },
                None => {
                    return None;
                },
            }
            i = i + 1;
        }
        assert(full.skip(i - 1).len() == 0);
        Some(current)
    }

    /// Adds a leaf labelled `data` under the node that the path leads to; the
    /// path's first name stands for the first node.
    pub fn insert_at_path(&mut self, path_name: &[&str], data: &str)
        requires
            old(self).wf(),
            path_name@.len() >= 1,
            walk(old(self)@, 0, path_view(path_name@).skip(1)) is Some,
        ensures
            final(self)@ == with_child(old(self)@, walk(old(self)@, 0, path_view(path_name@).skip(1))->0 as int, data@),
            final(self).root == old(self).root,
            final(self).wf(),
    {
        match self.find_node_handle_by_path(path_name) {
            Some(parent_handle) => {
                self.add_child(parent_handle, data);
            },
            None => {},
        }
    }
}

} // verus!
