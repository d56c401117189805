//! The prefix tree: below a node, one child per key, where a key is a
//! token or the wildcard marker; at a leaf, the identifiers of the
//! clusters reached along that path.

use crate::cluster::{ClusterView, LogCluster};
use crate::keyed::{
    distinct_keys, has_key, lemma_position, lemma_position_absent, lemma_position_found,
    lemma_position_is, lemma_position_update, position,
};
use crate::store::{cache_contains, cache_entries};
use crate::token::{contains_digit, has_number, views};
use lru::LruCache;
use vstd::prelude::*;

verus! {

/// What a node is, as plain values: its children by key, in the order in
/// which they were made, and its cluster identifiers.
pub struct NodeView {
    pub children: Seq<(Seq<char>, NodeView)>,
    pub ids: Seq<usize>,
}

/// A node of the prefix tree.
#[derive(Debug)]
pub struct Node {
    key_to_child_node: Vec<(String, Node)>,
    cluster_ids: Vec<usize>,
}

/// The view of a node: each child's key as characters, each child by its
/// own view.
pub closed spec fn node_view(node: Node) -> NodeView
    decreases node,
{
    NodeView {
        children: Seq::new(
            node.key_to_child_node@.len(),
            |i: int|
                if 0 <= i < node.key_to_child_node@.len() {
                    (node.key_to_child_node@[i].0@, node_view(node.key_to_child_node@[i].1))
                } else {
                    (Seq::empty(), NodeView { children: Seq::empty(), ids: Seq::empty() })
                },
        ),
        ids: node.cluster_ids@,
    }
}

impl View for Node {
    type V = NodeView;

    open spec fn view(&self) -> NodeView {
        node_view(*self)
    }
}

/// A node without children and without identifiers.
pub open spec fn empty_node() -> NodeView {
    NodeView { children: Seq::empty(), ids: Seq::empty() }
}

/// No path from `node` descends more than `levels` levels.
pub open spec fn shallow(node: NodeView, levels: nat) -> bool
    decreases node,
{
    &&& levels == 0 ==> node.children.len() == 0
    &&& forall|i: int|
        0 <= i < node.children.len() ==> shallow(
            (#[trigger] node.children[i]).1,
            (levels - 1) as nat,
        )
}

/// At `node` and at every node below it, no key occurs twice, there are at
/// most `max_children` children, and where the wildcard child is missing
/// there is room left for it.
pub open spec fn bounded(node: NodeView, max_children: nat, param: Seq<char>) -> bool
    decreases node,
{
    &&& distinct_keys(node.children)
    &&& node.children.len() <= max_children
    &&& !has_key(node.children, param) ==> node.children.len() < max_children
    &&& forall|i: int|
        0 <= i < node.children.len() ==> bounded(
            (#[trigger] node.children[i]).1,
            max_children,
            param,
        )
}

/// The children of a node once `token` has a child to go to, and the index
/// of that child. A child of that very key is taken where there is one. A
/// token with a digit goes to the wildcard child, which is made if it is
/// missing. Any other token gets a child of its own while there is room,
/// the last place being kept for the wildcard child, and goes to the
/// wildcard child once there is none.
pub open spec fn routed(
    children: Seq<(Seq<char>, NodeView)>,
    token: Seq<char>,
    max_children: nat,
    param: Seq<char>,
) -> (Seq<(Seq<char>, NodeView)>, int) {
    let n = children.len() as int;
    let exact = position(children, token);
    let wild = position(children, param);
    if exact < n {
        (children, exact)
    } else if contains_digit(token) {
        if wild < n {
            (children, wild)
        } else {
            (children.push((param, empty_node())), n)
        }
    } else if wild < n {
        if n < max_children {
            (children.push((token, empty_node())), n)
        } else {
            (children, wild)
        }
    } else if n + 1 < max_children {
        (children.push((token, empty_node())), n)
    } else {
        (children.push((param, empty_node())), n)
    }
}

/// The identifiers under which the store holds a cluster.
pub open spec fn live(entries: Seq<(usize, ClusterView)>) -> spec_fn(usize) -> bool {
    |id: usize| has_key(entries, id)
}

/// The identifiers of a leaf once `id` has joined them: those that the
/// store still holds, in their order, and then `id`.
pub open spec fn refreshed(ids: Seq<usize>, id: usize, entries: Seq<(usize, ClusterView)>) -> Seq<
    usize,
> {
    ids.filter(live(entries)).push(id)
}

/// The node at depth `depth` after the cluster `id`, made from `tokens`,
/// has been entered below it. The node is the leaf where `depth` has
/// reached `max_depth` or the number of tokens; otherwise the path goes on
/// through the child that `routed` gives for the token at this depth.
pub open spec fn inserted(
    node: NodeView,
    tokens: Seq<Seq<char>>,
    depth: nat,
    id: usize,
    max_depth: nat,
    max_children: nat,
    param: Seq<char>,
    entries: Seq<(usize, ClusterView)>,
) -> NodeView
    decreases tokens.len() - depth,
{
    if depth >= max_depth || depth >= tokens.len() || depth == 0 {
        NodeView { children: node.children, ids: refreshed(node.ids, id, entries) }
    } else {
        let (children, i) = routed(node.children, tokens[depth - 1], max_children, param);
        NodeView {
            children: children.update(
                i,
                (
                    children[i].0,
                    inserted(
                        children[i].1,
                        tokens,
                        depth + 1,
                        id,
                        max_depth,
                        max_children,
                        param,
                        entries,
                    ),
                ),
            ),
            ids: node.ids,
        }
    }
}

/// The identifiers at the leaf that a search for `tokens` reaches from
/// the node at depth `depth`, if it reaches one. At each level the child
/// of the token's own key is taken, or else the wildcard child; where
/// neither exists the search fails.
pub open spec fn leaf_ids(
    node: NodeView,
    tokens: Seq<Seq<char>>,
    depth: nat,
    max_depth: nat,
    param: Seq<char>,
) -> Option<Seq<usize>>
    decreases tokens.len() - depth,
{
    if depth >= max_depth || depth >= tokens.len() || depth == 0 {
        Some(node.ids)
    } else {
        let n = node.children.len() as int;
        let exact = position(node.children, tokens[depth - 1]);
        let wild = position(node.children, param);
        if exact < n {
            leaf_ids(node.children[exact].1, tokens, depth + 1, max_depth, param)
        } else if wild < n {
            leaf_ids(node.children[wild].1, tokens, depth + 1, max_depth, param)
        } else {
            None
        }
    }
}

impl Clone for Node {
    /// A copy with the same children and the same identifiers.
    fn clone(&self) -> (node: Node)
        ensures
            node@ == self@,
    {
        self.duplicate()
    }
}

impl Default for Node {
    /// A node without children and without identifiers.
    fn default() -> (node: Node)
        ensures
            node@ == empty_node(),
    {
        Node::new()
    }
}

impl Node {
    /// The view of a node, field by field.
    proof fn lemma_view(&self)
        ensures
            self@.ids == self.cluster_ids@,
            self@.children.len() == self.key_to_child_node@.len(),
            forall|i: int|
                0 <= i < self.key_to_child_node@.len() ==> #[trigger] self@.children[i] == (
                    self.key_to_child_node@[i].0@,
                    self.key_to_child_node@[i].1@,
                ),
    {
        assert(self@.children.len() == self.key_to_child_node@.len());
    }

    /// A copy of this node and of all below it.
    fn duplicate(&self) -> (node: Node)
        ensures
            node@ == self@,
        decreases *self,
    {
        proof {
            self.lemma_view();
        }
        let mut children: Vec<(String, Node)> = Vec::new();
        let mut i: usize = 0;
        while i < self.key_to_child_node.len()
            invariant
                i <= self.key_to_child_node.len(),
                children.len() == i,
                forall|j: int|
                    0 <= j < i ==> (#[trigger] children[j]).0@ == self.key_to_child_node[j].0@
                        && children[j].1@ == self.key_to_child_node[j].1@,
            decreases self.key_to_child_node.len() - i,
        {
            let key = self.key_to_child_node[i].0.clone();
            let child = self.key_to_child_node[i].1.duplicate();
            children.push((key, child));
            i = i + 1;
        }
        let mut cluster_ids: Vec<usize> = Vec::new();
        let mut k: usize = 0;
        while k < self.cluster_ids.len()
            invariant
                k <= self.cluster_ids.len(),
                cluster_ids@ == self.cluster_ids@.take(k as int),
            decreases self.cluster_ids.len() - k,
        {
            cluster_ids.push(self.cluster_ids[k]);
            assert(self.cluster_ids@.take(k + 1) =~= self.cluster_ids@.take(k as int).push(
                self.cluster_ids[k as int],
            ));
            k = k + 1;
        }
        assert(self.cluster_ids@.take(k as int) =~= self.cluster_ids@);
        let node = Node { key_to_child_node: children, cluster_ids };
        proof {
            node.lemma_view();
            assert(node@.children =~= self@.children);
        }
        node
    }

    /// A node without children and without identifiers.
    pub fn new() -> (node: Node)
        ensures
            node@ == empty_node(),
    {
        let node = Node { key_to_child_node: Vec::new(), cluster_ids: Vec::new() };
        assert(node@.children =~= Seq::empty());
        node
    }

    /// The cluster identifiers at this node.
    pub fn cluster_ids(&self) -> (ids: &Vec<usize>)
        ensures
            ids@ == self@.ids,
    {
        proof {
            self.lemma_view();
        }
        &self.cluster_ids
    }

    /// The number of children.
    pub fn width(&self) -> (n: usize)
        ensures
            n == self@.children.len(),
    {
        proof {
            self.lemma_view();
        }
        self.key_to_child_node.len()
    }

    /// The index of the child with key `key`, or the number of children if
    /// there is none.
    pub fn child_index(&self, key: &String) -> (i: usize)
        ensures
            i == position(self@.children, key@),
    {
        proof {
            self.lemma_view();
        }
        let mut i: usize = 0;
        while i < self.key_to_child_node.len()
            invariant
                i <= self.key_to_child_node.len(),
                self@.children.len() == self.key_to_child_node@.len(),
                forall|i: int|
                    0 <= i < self.key_to_child_node@.len() ==> #[trigger] self@.children[i] == (
                        self.key_to_child_node@[i].0@,
                        self.key_to_child_node@[i].1@,
                    ),
                forall|j: int| 0 <= j < i ==> (#[trigger] self@.children[j]).0 != key@,
            decreases self.key_to_child_node.len() - i,
        {
            if self.key_to_child_node[i].0 == *key {
                proof {
                    lemma_position(self@.children, key@);
                    assert(self@.children[i as int].0 == key@);
                }
                return i;
            }
            i = i + 1;
        }
        proof {
            lemma_position(self@.children, key@);
        }
        i
    }

    /// The key of the child at index `i`.
    pub fn key(&self, i: usize) -> (key: &String)
        requires
            i < self@.children.len(),
        ensures
            key@ == self@.children[i as int].0,
    {
        proof {
            self.lemma_view();
        }
        &self.key_to_child_node[i].0
    }

    /// The child at index `i`.
    pub fn child(&self, i: usize) -> (node: &Node)
        requires
            i < self@.children.len(),
        ensures
            node@ == self@.children[i as int].1,
    {
        proof {
            self.lemma_view();
        }
        &self.key_to_child_node[i].1
    }

    /// The identifiers at the leaf that a search for `tokens` reaches from
    /// this node, taken as the node at depth 1; `None` where the search
    /// finds no way on.
    pub fn find_leaf(&self, tokens: &[String], max_depth: usize, param: &String) -> (found: Option<
        &Vec<usize>,
    >)
        ensures
            match found {
                Some(ids) => leaf_ids(self@, views(tokens@), 1, max_depth as nat, param@) == Some(
                    ids@,
                ),
                None => leaf_ids(self@, views(tokens@), 1, max_depth as nat, param@) is None,
            },
    {
        let mut cur: &Node = self;
        let mut depth: usize = 1;
        while depth < max_depth && depth < tokens.len()
            invariant
                1 <= depth,
                leaf_ids(self@, views(tokens@), 1, max_depth as nat, param@) == leaf_ids(
                    cur@,
                    views(tokens@),
                    depth as nat,
                    max_depth as nat,
                    param@,
                ),
            decreases tokens.len() - depth,
        {
            let n: usize = cur.width();
            let exact: usize = cur.child_index(&tokens[depth - 1]);
            if exact < n {
                cur = cur.child(exact);
            } else {
                let wild: usize = cur.child_index(param);
                if wild < n {
                    cur = cur.child(wild);
                } else {
                    return None;
                }
            }
            depth = depth + 1;
        }
        Some(cur.cluster_ids())
    }

    /// Appends `id` to the cluster identifiers of this node.
    pub(crate) fn push_id(&mut self, id: usize)
        ensures
            final(self)@ == (NodeView {
                children: old(self)@.children,
                ids: old(self)@.ids.push(id),
            }),
    {
        proof {
            self.lemma_view();
        }
        let ghost before = self@;
        self.cluster_ids.push(id);
        proof {
            self.lemma_view();
            assert(self@.children =~= before.children);
        }
    }

    /// Adds an empty child under `key`, behind the children that exist.
    fn add_child(&mut self, key: String)
        ensures
            final(self)@.children == old(self)@.children.push((key@, empty_node())),
            final(self)@.ids == old(self)@.ids,
    {
        proof {
            self.lemma_view();
        }
        let ghost before = self@;
        let child = Node::new();
        self.key_to_child_node.push((key, child));
        proof {
            self.lemma_view();
            assert(self@.children =~= before.children.push((key@, empty_node())));
        }
    }

    /// Makes sure that `token` has a child to go to, and returns the
    /// index of that child.
    fn route(&mut self, token: &String, max_children: usize, param: &String) -> (i: usize)
        requires
            old(self)@.children.len() <= max_children,
            !has_key(old(self)@.children, param@) ==> old(self)@.children.len() < max_children,
        ensures
            (final(self)@.children, i as int) == routed(
                old(self)@.children,
                token@,
                max_children as nat,
                param@,
            ),
            final(self)@.ids == old(self)@.ids,
    {
        let n: usize = self.width();
        let exact: usize = self.child_index(token);
        if exact < n {
            return exact;
        }
        let wild: usize = self.child_index(param);
        if has_number(token.as_str()) {
            if wild < n {
                wild
            } else {
                self.add_child(param.clone());
                n
            }
        } else if wild < n {
            if n < max_children {
                self.add_child(token.clone());
                n
            } else {
                wild
            }
        } else if n + 1 < max_children {
            self.add_child(token.clone());
            n
        } else {
            self.add_child(param.clone());
            n
        }
    }

    /// Rebuilds the identifiers of a leaf: those that the store still
    /// holds, and then `id`.
    fn refresh(&mut self, id: usize, cache: &LruCache<usize, LogCluster>)
        ensures
            final(self)@.ids == refreshed(old(self)@.ids, id, cache_entries(*cache)),
            final(self)@.children == old(self)@.children,
    {
        proof {
            self.lemma_view();
        }
        let ghost before = self@;
        let ghost keep = live(cache_entries(*cache));
        let mut kept: Vec<usize> = Vec::new();
        let mut k: usize = 0;
        assert(self.cluster_ids@.take(0) =~= Seq::<usize>::empty());
        assert(Seq::<usize>::empty().filter(keep) =~= Seq::<usize>::empty()) by {
            reveal(Seq::filter);
        }
        while k < self.cluster_ids.len()
            invariant
                k <= self.cluster_ids.len(),
                keep == live(cache_entries(*cache)),
                kept@ == self.cluster_ids@.take(k as int).filter(keep),
            decreases self.cluster_ids.len() - k,
        {
            let other: usize = self.cluster_ids[k];
            proof {
                let done = self.cluster_ids@.take(k as int);
                assert(self.cluster_ids@.take(k + 1) =~= done.push(other));
                done.lemma_filter_push(other, keep);
            }
            if cache_contains(cache, other) {
                kept.push(other);
            }
            k = k + 1;
        }
        assert(self.cluster_ids@.take(k as int) =~= self.cluster_ids@);
        kept.push(id);
        self.cluster_ids = kept;
        proof {
            self.lemma_view();
            assert(self@.children =~= before.children);
        }
    }

    /// Enters the cluster `id`, made from `tokens`, below this node, which
    /// stands at depth `depth`.
    pub(crate) fn insert(
        &mut self,
        tokens: &Vec<String>,
        depth: usize,
        id: usize,
        max_depth: usize,
        max_children: usize,
        param: &String,
        cache: &LruCache<usize, LogCluster>,
    )
        requires
            bounded(old(self)@, max_children as nat, param@),
        ensures
            final(self)@ == inserted(
                old(self)@,
                views(tokens@),
                depth as nat,
                id,
                max_depth as nat,
                max_children as nat,
                param@,
                cache_entries(*cache),
            ),
        decreases tokens.len() - depth,
    {
        let ghost before = self@;
        if depth >= max_depth || depth >= tokens.len() || depth == 0 {
            self.refresh(id, cache);
        } else {
            let i: usize = self.route(&tokens[depth - 1], max_children, param);
            let ghost middle = self@;
            proof {
                self.lemma_view();
                lemma_routed_bounded(
                    before,
                    views(tokens@)[depth - 1],
                    max_children as nat,
                    param@,
                );
            }
            let ghost keys = self.key_to_child_node@;
            self.key_to_child_node[i].1.insert(
                tokens,
                depth + 1,
                id,
                max_depth,
                max_children,
                param,
                cache,
            );
            proof {
                self.lemma_view();
                assert(self@.children =~= middle.children.update(
                    i as int,
                    (middle.children[i as int].0, self.key_to_child_node@[i as int].1@),
                ));
            }
        }
    }
}

/// Routing keeps a node within its bounds, and the child it leads to as
/// well.
pub proof fn lemma_routed_bounded(
    node: NodeView,
    token: Seq<char>,
    max_children: nat,
    param: Seq<char>,
)
    requires
        bounded(node, max_children, param),
    ensures
        ({
            let (children, i) = routed(node.children, token, max_children, param);
            &&& 0 <= i < children.len()
            &&& bounded(NodeView { children, ids: node.ids }, max_children, param)
            &&& bounded(children[i].1, max_children, param)
            &&& children.len() >= node.children.len()
            &&& forall|j: int| 0 <= j < node.children.len() ==> children[j] == node.children[j]
            &&& forall|j: int|
                node.children.len() <= j < children.len() ==> (#[trigger] children[j]).1
                    == empty_node()
        }),
{
    let old_children = node.children;
    let (children, i) = routed(old_children, token, max_children, param);
    lemma_position(old_children, token);
    lemma_position(old_children, param);
    lemma_position(children, param);
    assert(bounded(empty_node(), max_children, param)) by {
        lemma_position(empty_node().children, param);
    }
    if children.len() > old_children.len() {
        let key = children[old_children.len() as int].0;
        assert(children =~= old_children.push((key, empty_node())));
        assert(!has_key(old_children, key));
        assert(distinct_keys(children));
        if key == param {
            lemma_position_found(children, old_children.len() as int);
        } else if has_key(old_children, param) {
            lemma_position_found(children, position(old_children, param));
        }
        assert forall|j: int| 0 <= j < children.len() implies bounded(
            (#[trigger] children[j]).1,
            max_children,
            param,
        ) by {
            if j < old_children.len() {
                assert(children[j] == old_children[j]);
            }
        }
    }
    assert(bounded(NodeView { children, ids: node.ids }, max_children, param));
}

/// Insertion keeps the branching bounded: where no node had more than
/// `max_children` children before, none has after.
pub proof fn lemma_inserted_bounded(
    node: NodeView,
    tokens: Seq<Seq<char>>,
    depth: nat,
    id: usize,
    max_depth: nat,
    max_children: nat,
    param: Seq<char>,
    entries: Seq<(usize, ClusterView)>,
)
    requires
        bounded(node, max_children, param),
    ensures
        bounded(
            inserted(node, tokens, depth, id, max_depth, max_children, param, entries),
            max_children,
            param,
        ),
    decreases tokens.len() - depth,
{
    if !(depth >= max_depth || depth >= tokens.len() || depth == 0) {
        let (children, i) = routed(node.children, tokens[depth - 1], max_children, param);
        lemma_routed_bounded(node, tokens[depth - 1], max_children, param);
        let below = inserted(
            children[i].1,
            tokens,
            depth + 1,
            id,
            max_depth,
            max_children,
            param,
            entries,
        );
        lemma_inserted_bounded(
            children[i].1,
            tokens,
            depth + 1,
            id,
            max_depth,
            max_children,
            param,
            entries,
        );
        let after = children.update(i, (children[i].0, below));
        lemma_position_update(children, i, below, param);
        assert(bounded(NodeView { children, ids: node.ids }, max_children, param));
        assert forall|j: int| 0 <= j < after.len() implies bounded(
            (#[trigger] after[j]).1,
            max_children,
            param,
        ) by {
            if j != i {
                assert(after[j] == children[j]);
            }
        }
        assert forall|a: int, b: int| 0 <= a < b < after.len() implies (#[trigger] after[a]).0 != (
        #[trigger] after[b]).0 by {
            assert(after[a].0 == children[a].0);
            assert(after[b].0 == children[b].0);
        }
    }
}

/// Insertion keeps the tree shallow: below a node at depth `depth`, no
/// path descends further than to depth `max_depth`.
pub proof fn lemma_inserted_shallow(
    node: NodeView,
    tokens: Seq<Seq<char>>,
    depth: nat,
    id: usize,
    max_depth: nat,
    max_children: nat,
    param: Seq<char>,
    entries: Seq<(usize, ClusterView)>,
)
    requires
        depth <= max_depth,
        shallow(node, (max_depth - depth) as nat),
        bounded(node, max_children, param),
    ensures
        shallow(
            inserted(node, tokens, depth, id, max_depth, max_children, param, entries),
            (max_depth - depth) as nat,
        ),
    decreases tokens.len() - depth,
{
    if !(depth >= max_depth || depth >= tokens.len() || depth == 0) {
        let levels = (max_depth - depth) as nat;
        let (children, i) = routed(node.children, tokens[depth - 1], max_children, param);
        lemma_routed_bounded(node, tokens[depth - 1], max_children, param);
        assert(shallow(empty_node(), (levels - 1) as nat));
        assert(shallow(children[i].1, (levels - 1) as nat)) by {
            if i < node.children.len() {
                assert(children[i] == node.children[i]);
            }
        }
        let below = inserted(
            children[i].1,
            tokens,
            depth + 1,
            id,
            max_depth,
            max_children,
            param,
            entries,
        );
        lemma_inserted_shallow(
            children[i].1,
            tokens,
            depth + 1,
            id,
            max_depth,
            max_children,
            param,
            entries,
        );
        let after = children.update(i, (children[i].0, below));
        assert forall|j: int| 0 <= j < after.len() implies shallow(
            (#[trigger] after[j]).1,
            (levels - 1) as nat,
        ) by {
            if j != i {
                assert(after[j] == children[j]);
                if j < node.children.len() {
                    assert(children[j] == node.children[j]);
                }
            }
        }
    }
}

/// The identifiers at the node where the insertion of a cluster under
/// `tokens` ends, as they are before the cluster joins them.
pub open spec fn landing(
    node: NodeView,
    tokens: Seq<Seq<char>>,
    depth: nat,
    max_depth: nat,
    max_children: nat,
    param: Seq<char>,
) -> Seq<usize>
    decreases tokens.len() - depth,
{
    if depth >= max_depth || depth >= tokens.len() || depth == 0 {
        node.ids
    } else {
        let (children, i) = routed(node.children, tokens[depth - 1], max_children, param);
        landing(children[i].1, tokens, depth + 1, max_depth, max_children, param)
    }
}

/// An insertion that starts at an empty node ends at an empty leaf.
pub proof fn lemma_landing_fresh(
    tokens: Seq<Seq<char>>,
    depth: nat,
    max_depth: nat,
    max_children: nat,
    param: Seq<char>,
)
    ensures
        landing(empty_node(), tokens, depth, max_depth, max_children, param).len() == 0,
    decreases tokens.len() - depth,
{
    if !(depth >= max_depth || depth >= tokens.len() || depth == 0) {
        let token = tokens[depth - 1];
        let (children, i) = routed(empty_node().children, token, max_children, param);
        lemma_position(empty_node().children, token);
        lemma_position(empty_node().children, param);
        assert(children[i].1 == empty_node());
        lemma_landing_fresh(tokens, depth + 1, max_depth, max_children, param);
    }
}

/// An insertion ends where a search for the same tokens ended before it,
/// or else at a leaf that held no identifier.
pub proof fn lemma_landing_searched(
    node: NodeView,
    tokens: Seq<Seq<char>>,
    depth: nat,
    max_depth: nat,
    max_children: nat,
    param: Seq<char>,
)
    ensures
        landing(node, tokens, depth, max_depth, max_children, param).len() == 0 || leaf_ids(
            node,
            tokens,
            depth,
            max_depth,
            param,
        ) == Some(landing(node, tokens, depth, max_depth, max_children, param)),
    decreases tokens.len() - depth,
{
    if !(depth >= max_depth || depth >= tokens.len() || depth == 0) {
        let token = tokens[depth - 1];
        let n = node.children.len() as int;
        let (children, i) = routed(node.children, token, max_children, param);
        lemma_position(node.children, token);
        lemma_position(node.children, param);
        if children.len() > n {
            assert(children[i].1 == empty_node());
            lemma_landing_fresh(tokens, depth + 1, max_depth, max_children, param);
        } else {
            lemma_landing_searched(
                node.children[i].1,
                tokens,
                depth + 1,
                max_depth,
                max_children,
                param,
            );
        }
    }
}

/// A cluster is found where it was entered: the search for the tokens
/// under which it was entered reaches the leaf where the insertion
/// ended, whose identifiers are those that were there and are still
/// stored, and then the identifier of the cluster.
pub proof fn lemma_inserted_leaf(
    node: NodeView,
    tokens: Seq<Seq<char>>,
    depth: nat,
    id: usize,
    max_depth: nat,
    max_children: nat,
    param: Seq<char>,
    entries: Seq<(usize, ClusterView)>,
)
    requires
        bounded(node, max_children, param),
    ensures
        leaf_ids(
            inserted(node, tokens, depth, id, max_depth, max_children, param, entries),
            tokens,
            depth,
            max_depth,
            param,
        ) == Some(
            refreshed(
                landing(node, tokens, depth, max_depth, max_children, param),
                id,
                entries,
            ),
        ),
    decreases tokens.len() - depth,
{
    if !(depth >= max_depth || depth >= tokens.len() || depth == 0) {
        let token = tokens[depth - 1];
        let n = node.children.len() as int;
        let (children, i) = routed(node.children, token, max_children, param);
        lemma_routed_bounded(node, token, max_children, param);
        lemma_position(node.children, token);
        lemma_position(node.children, param);
        let below = inserted(
            children[i].1,
            tokens,
            depth + 1,
            id,
            max_depth,
            max_children,
            param,
            entries,
        );
        lemma_inserted_leaf(
            children[i].1,
            tokens,
            depth + 1,
            id,
            max_depth,
            max_children,
            param,
            entries,
        );
        let after = children.update(i, (children[i].0, below));
        lemma_position_update(children, i, below, token);
        lemma_position_update(children, i, below, param);
        // the search takes the child that the insertion took
        if children.len() > n {
            let key = children[n].0;
            assert(children =~= node.children.push((key, empty_node())));
            assert forall|j: int| 0 <= j < n implies (#[trigger] children[j]).0 != token by {
                assert(children[j] == node.children[j]);
            }
            if key == token {
                lemma_position_is(children, token, n);
            } else {
                lemma_position_absent(children, token);
                assert forall|j: int| 0 <= j < n implies (#[trigger] children[j]).0 != param by {
                    assert(children[j] == node.children[j]);
                }
                lemma_position_is(children, param, n);
            }
        }
        assert(after[i].1 == below);
    }
}

/// `holds` is true of every identifier at `node` and below it.
pub open spec fn every_id(node: NodeView, holds: spec_fn(usize) -> bool) -> bool
    decreases node,
{
    &&& forall|k: int| 0 <= k < node.ids.len() ==> holds(#[trigger] node.ids[k])
    &&& forall|i: int|
        0 <= i < node.children.len() ==> every_id((#[trigger] node.children[i]).1, holds)
}

/// What holds of every identifier still holds where it is asked for less.
pub proof fn lemma_every_id_implied(
    node: NodeView,
    holds: spec_fn(usize) -> bool,
    wanted: spec_fn(usize) -> bool,
)
    requires
        every_id(node, holds),
        forall|id: usize| #[trigger] holds(id) ==> wanted(id),
    ensures
        every_id(node, wanted),
    decreases node,
{
    assert forall|i: int| 0 <= i < node.children.len() implies every_id(
        (#[trigger] node.children[i]).1,
        wanted,
    ) by {
        lemma_every_id_implied(node.children[i].1, holds, wanted);
    }
}

/// What holds of all identifiers holds of those that a filter keeps.
pub proof fn lemma_filter_keeps(
    ids: Seq<usize>,
    keep: spec_fn(usize) -> bool,
    holds: spec_fn(usize) -> bool,
)
    requires
        forall|k: int| 0 <= k < ids.len() ==> holds(#[trigger] ids[k]),
    ensures
        forall|k: int| 0 <= k < ids.filter(keep).len() ==> holds(#[trigger] ids.filter(keep)[k]),
    decreases ids.len(),
{
    reveal(Seq::filter);
    if ids.len() > 0 {
        let front = ids.drop_last();
        let kept = ids.filter(keep);
        assert(forall|k: int| 0 <= k < front.len() ==> front[k] == ids[k]);
        lemma_filter_keeps(front, keep, holds);
        assert forall|k: int| 0 <= k < kept.len() implies holds(#[trigger] kept[k]) by {
            if k < front.filter(keep).len() {
                assert(kept[k] == front.filter(keep)[k]);
            } else {
                assert(kept[k] == ids.last());
                assert(ids.last() == ids[ids.len() - 1]);
            }
        }
    }
}

/// Insertion keeps what holds of every identifier, if it holds of the new
/// one as well.
pub proof fn lemma_inserted_every_id(
    node: NodeView,
    tokens: Seq<Seq<char>>,
    depth: nat,
    id: usize,
    max_depth: nat,
    max_children: nat,
    param: Seq<char>,
    entries: Seq<(usize, ClusterView)>,
    holds: spec_fn(usize) -> bool,
)
    requires
        every_id(node, holds),
        holds(id),
    ensures
        every_id(
            inserted(node, tokens, depth, id, max_depth, max_children, param, entries),
            holds,
        ),
    decreases tokens.len() - depth,
{
    if depth >= max_depth || depth >= tokens.len() || depth == 0 {
        lemma_filter_keeps(node.ids, live(entries), holds);
    } else {
        let (children, i) = routed(node.children, tokens[depth - 1], max_children, param);
        lemma_position(node.children, tokens[depth - 1]);
        lemma_position(node.children, param);
        assert(every_id(empty_node(), holds));
        assert forall|j: int| 0 <= j < children.len() implies every_id(
            (#[trigger] children[j]).1,
            holds,
        ) by {
            if j < node.children.len() {
                assert(children[j] == node.children[j]);
            }
        }
        let below = inserted(
            children[i].1,
            tokens,
            depth + 1,
            id,
            max_depth,
            max_children,
            param,
            entries,
        );
        lemma_inserted_every_id(
            children[i].1,
            tokens,
            depth + 1,
            id,
            max_depth,
            max_children,
            param,
            entries,
            holds,
        );
        let after = children.update(i, (children[i].0, below));
        assert forall|j: int| 0 <= j < after.len() implies every_id(
            (#[trigger] after[j]).1,
            holds,
        ) by {
            if j != i {
                assert(after[j] == children[j]);
            }
        }
    }
}

/// What holds of every identifier in the tree holds of those at the leaf
/// that a search reaches.
pub proof fn lemma_leaf_ids_every_id(
    node: NodeView,
    tokens: Seq<Seq<char>>,
    depth: nat,
    max_depth: nat,
    param: Seq<char>,
    holds: spec_fn(usize) -> bool,
)
    requires
        every_id(node, holds),
    ensures
        leaf_ids(node, tokens, depth, max_depth, param) matches Some(ids) ==> forall|k: int|
            0 <= k < ids.len() ==> holds(#[trigger] ids[k]),
    decreases tokens.len() - depth,
{
    if !(depth >= max_depth || depth >= tokens.len() || depth == 0) {
        let n = node.children.len() as int;
        let exact = position(node.children, tokens[depth - 1]);
        let wild = position(node.children, param);
        lemma_position(node.children, tokens[depth - 1]);
        lemma_position(node.children, param);
        if exact < n {
            lemma_leaf_ids_every_id(
                node.children[exact].1,
                tokens,
                depth + 1,
                max_depth,
                param,
                holds,
            );
        } else if wild < n {
            lemma_leaf_ids_every_id(
                node.children[wild].1,
                tokens,
                depth + 1,
                max_depth,
                param,
                holds,
            );
        }
    }
}

/// The node that `path` leads to from `node`, where each step of the path
/// is the index of a child; `None` where a step names no child.
pub open spec fn reached(node: NodeView, path: Seq<int>) -> Option<NodeView>
    decreases path.len(),
{
    if path.len() == 0 {
        Some(node)
    } else if 0 <= path[0] < node.children.len() {
        reached(node.children[path[0]].1, path.drop_first())
    } else {
        None
    }
}

/// Below a bounded node, whatever node a path leads to has at most
/// `max_children` children, each under a key of its own.
pub proof fn lemma_bounded_reached(
    node: NodeView,
    max_children: nat,
    param: Seq<char>,
    path: Seq<int>,
)
    requires
        bounded(node, max_children, param),
        reached(node, path) is Some,
    ensures
        reached(node, path)->0.children.len() <= max_children,
        distinct_keys(reached(node, path)->0.children),
    decreases path.len(),
{
    if path.len() > 0 {
        lemma_bounded_reached(node.children[path[0]].1, max_children, param, path.drop_first());
    }
}

/// Below a shallow node, no path that leads to a node has more than
/// `levels` steps.
pub proof fn lemma_shallow_reached(node: NodeView, levels: nat, path: Seq<int>)
    requires
        shallow(node, levels),
        reached(node, path) is Some,
    ensures
        path.len() <= levels,
    decreases path.len(),
{
    if path.len() > 0 {
        lemma_shallow_reached(node.children[path[0]].1, (levels - 1) as nat, path.drop_first());
    }
}

} // verus!
