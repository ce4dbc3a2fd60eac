//! The tree of path parts in which broadcasts are published and consumers registered.

use crate::path::{valid_part, Path};
use vstd::prelude::*;

verus! {

/// The origin-owned broadcast at a leaf: the front behind it and whether the path is
/// currently announced. A non-announced entry is still returned by lookups, so an offline
/// broadcast stays reachable for subscribes and fetches.
#[derive(Clone, Copy, Debug, PartialEq, Eq, Structural)]
pub struct OriginBroadcast {
    /// The front that owns the broadcast; its identity for stale-teardown checks.
    pub front: u64,
    /// Whether consumers were told of the broadcast.
    pub announced: bool,
}

/// One part of a path, with what is published and registered there and below it.
pub struct OriginNode {
    // The origin-owned broadcast published at this node, if any.
    broadcast: Option<OriginBroadcast>,
    // Nested nodes, one level down the tree.
    nested: Vec<Nested>,
    // The cursors that are subscribed to this node.
    consumers: Vec<u64>,
}

/// A nested node and the part that leads to it.
struct Nested {
    dir: String,
    node: OriginNode,
}

/// What one node holds.
#[verifier::ext_equal]
pub ghost struct Leaf {
    /// The broadcast published there.
    pub broadcast: Option<OriginBroadcast>,
    /// The cursors subscribed there, in order of arrival.
    pub consumers: Seq<u64>,
}

/// A change to one node.
#[derive(Clone, Copy)]
pub enum Edit {
    /// Publish a broadcast, or change the one published.
    Publish(OriginBroadcast),
    /// Remove the broadcast.
    Unpublish,
    /// Subscribe a cursor.
    Subscribe(u64),
    /// Unsubscribe a cursor.
    Unsubscribe(u64),
}

/// A node that holds nothing.
pub open spec fn empty_leaf() -> Leaf {
    Leaf { broadcast: None, consumers: Seq::empty() }
}

/// A list without one entry.
pub open spec fn without(s: Seq<u64>, id: u64) -> Seq<u64>
    decreases s.len(),
{
    if s.len() == 0 {
        s
    } else if s.last() == id {
        without(s.drop_last(), id)
    } else {
        without(s.drop_last(), id).push(s.last())
    }
}

/// What a node holds after a change.
pub open spec fn edited(leaf: Leaf, edit: Edit) -> Leaf {
    match edit {
        Edit::Publish(broadcast) => Leaf { broadcast: Some(broadcast), ..leaf },
        Edit::Unpublish => Leaf { broadcast: None, ..leaf },
        Edit::Subscribe(id) => if leaf.consumers.contains(id) {
            leaf
        } else {
            Leaf { consumers: leaf.consumers.push(id), ..leaf }
        },
        Edit::Unsubscribe(id) => Leaf { consumers: without(leaf.consumers, id), ..leaf },
    }
}

/// Whether `i` is the nested node for `part`.
spec fn child_is(node: OriginNode, part: Seq<char>, i: int) -> bool {
    0 <= i < node.nested@.len() && node.nested@[i].dir@ == part
}

/// Whether there is a nested node for `part`.
spec fn has_child(node: OriginNode, part: Seq<char>) -> bool {
    exists|i: int| child_is(node, part, i)
}

/// The nested node for `part`.
spec fn child(node: OriginNode, part: Seq<char>) -> OriginNode {
    node.nested@[choose|i: int| child_is(node, part, i)].node
}

/// The node at `path` below `node`.
spec fn node_at(node: OriginNode, path: Seq<Seq<char>>) -> Option<OriginNode>
    decreases path.len(),
{
    if path.len() == 0 {
        Some(node)
    } else if has_child(node, path[0]) {
        node_at(child(node, path[0]), path.skip(1))
    } else {
        None
    }
}

/// Whether a node holds nothing, itself or below.
spec fn bare(node: OriginNode) -> bool {
    node.broadcast is None && node.nested@.len() == 0 && node.consumers@.len() == 0
}

/// The parts of the nested nodes are valid and distinct.
spec fn distinct(node: OriginNode) -> bool {
    &&& forall|i: int|
        0 <= i < node.nested@.len() ==> valid_part((#[trigger] node.nested@[i]).dir@)
    &&& forall|i: int, j: int|
        0 <= i < j < node.nested@.len() ==> (#[trigger] node.nested@[i]).dir@ != (
        #[trigger] node.nested@[j]).dir@
}

/// The nested parts of every node are distinct, and no node below this one is bare.
spec fn tree_ok(node: OriginNode) -> bool {
    forall|path: Seq<Seq<char>>|
        (#[trigger] node_at(node, path)) matches Some(n) ==> distinct(n) && (path.len() > 0 ==> !bare(
            n,
        ))
}

proof fn lemma_child(node: OriginNode, part: Seq<char>, i: int)
    requires
        distinct(node),
        child_is(node, part, i),
    ensures
        has_child(node, part),
        child(node, part) == node.nested@[i].node,
{
    let j = choose|j: int| child_is(node, part, j);
    if j < i {
        assert(node.nested@[j].dir@ != node.nested@[i].dir@);
    } else if i < j {
        assert(node.nested@[i].dir@ != node.nested@[j].dir@);
    }
}

proof fn lemma_child_ok(node: OriginNode, part: Seq<char>)
    requires
        tree_ok(node),
        has_child(node, part),
    ensures
        tree_ok(child(node, part)),
        !bare(child(node, part)),
        distinct(node),
{
    let c = child(node, part);
    assert(node_at(node, Seq::empty()) == Some(node));
    assert forall|path: Seq<Seq<char>>|
        (#[trigger] node_at(c, path)) matches Some(n) ==> distinct(n) && (path.len() > 0 ==> !bare(
            n,
        )) by {
        let whole = seq![part] + path;
        assert(whole.skip(1) =~= path);
        assert(node_at(node, whole) == node_at(c, path));
    }
    assert(seq![part].skip(1) =~= Seq::<Seq<char>>::empty());
    assert(node_at(node, seq![part]) == Some(c)) by {
        assert(node_at(c, Seq::empty()) == Some(c));
    }
}

/// A tree is in order when its root and the trees below it are.
proof fn lemma_tree_ok(node: OriginNode)
    requires
        distinct(node),
        forall|i: int|
            0 <= i < node.nested@.len() ==> tree_ok((#[trigger] node.nested@[i]).node) && !bare(
                node.nested@[i].node,
            ),
    ensures
        tree_ok(node),
{
    assert forall|path: Seq<Seq<char>>|
        (#[trigger] node_at(node, path)) matches Some(n) ==> distinct(n) && (path.len() > 0 ==> !bare(
            n,
        )) by {
        if path.len() > 0 && has_child(node, path[0]) {
            let i = choose|i: int| child_is(node, path[0], i);
            let c = node.nested@[i].node;
            assert(tree_ok(c));
            if path.len() == 1 {
                assert(path.skip(1) =~= Seq::<Seq<char>>::empty());
                assert(node_at(c, path.skip(1)) == Some(c));
            } else {
                assert(node_at(c, path.skip(1)) == node_at(node, path));
            }
        }
    }
}

/// What a list without an entry contains.
pub proof fn lemma_without(s: Seq<u64>, id: u64)
    ensures
        !without(s, id).contains(id),
        forall|other: u64| other != id ==> (without(s, id).contains(other) <==> s.contains(other)),
        s.no_duplicates() ==> without(s, id).no_duplicates(),
        !s.contains(id) ==> without(s, id) == s,
    decreases s.len(),
{
    if s.len() > 0 {
        let rest = s.drop_last();
        lemma_without(rest, id);
        assert forall|other: u64| s.contains(other) == (rest.contains(other) || other == s.last()) by {
            if s.contains(other) && other != s.last() {
                let k = choose|k: int| 0 <= k < s.len() && s[k] == other;
                assert(rest[k] == other);
            }
            if rest.contains(other) {
                let k = choose|k: int| 0 <= k < rest.len() && rest[k] == other;
                assert(s[k] == other);
            }
            assert(s[s.len() - 1] == s.last());
        }
        let w = without(rest, id);
        assert forall|other: u64| w.push(s.last()).contains(other) == (w.contains(other) || other
            == s.last()) by {
            if w.contains(other) {
                let k = choose|k: int| 0 <= k < w.len() && w[k] == other;
                assert(w.push(s.last())[k] == other);
            }
            assert(w.push(s.last())[w.len() as int] == s.last());
        }
        if s.no_duplicates() {
            assert(rest.no_duplicates());
            assert(!rest.contains(s.last())) by {
                if rest.contains(s.last()) {
                    let k = choose|k: int| 0 <= k < rest.len() && rest[k] == s.last();
                    assert(s[k] == s[s.len() - 1]);
                }
            }
            assert(without(s, id).no_duplicates());
        }
        if !s.contains(id) {
            assert(without(s, id) =~= s);
        }
    }
}

impl OriginNode {
    /// What the node at `path` holds.
    pub closed spec fn leaf_at(&self, path: Seq<Seq<char>>) -> Leaf {
        match node_at(*self, path) {
            Some(n) => Leaf { broadcast: n.broadcast, consumers: n.consumers@ },
            None => empty_leaf(),
        }
    }

    /// The tree's invariant: parts lead to one node each, and no node below the root is
    /// there without something published or registered at it or below it.
    pub closed spec fn wf(&self) -> bool {
        tree_ok(*self)
    }

    /// An empty tree.
    pub fn new() -> (r: Self)
        ensures
            r.wf(),
            forall|path: Seq<Seq<char>>| #[trigger] r.leaf_at(path) == empty_leaf(),
    {
        let r = OriginNode { broadcast: None, nested: Vec::new(), consumers: Vec::new() };
        proof {
            lemma_tree_ok(r);
            assert forall|path: Seq<Seq<char>>| #[trigger] r.leaf_at(path) == empty_leaf() by {
                if path.len() > 0 {
                    assert(!has_child(r, path[0]));
                } else {
                    assert(r.leaf_at(path) =~= empty_leaf());
                }
            }
        }
        r
    }

    /// Whether nothing is published or registered here or below.
    fn is_empty(&self) -> (r: bool)
        ensures
            r == bare(*self),
    {
        self.broadcast.is_none() && self.nested.len() == 0 && self.consumers.len() == 0
    }

    /// The nested node for a part.
    fn entry(&self, dir: &String) -> (r: Option<usize>)
        ensures
            match r {
                Some(i) => child_is(*self, dir@, i as int),
                None => !has_child(*self, dir@),
            },
    {
        let mut i: usize = 0;
        while i < self.nested.len()
            invariant
                i <= self.nested@.len(),
                forall|k: int| 0 <= k < i ==> (#[trigger] self.nested@[k]).dir@ != dir@,
            decreases self.nested@.len() - i,
        {
            if self.nested[i].dir == *dir {
                return Some(i);
            }
            i = i + 1;
        }
        None
    }

    /// Change what this node holds itself.
    fn edit_here(&mut self, edit: Edit)
        ensures
            final(self).nested == old(self).nested,
            ({
                let leaf = edited(
                    Leaf { broadcast: old(self).broadcast, consumers: old(self).consumers@ },
                    edit,
                );
                final(self).broadcast == leaf.broadcast && final(self).consumers@ == leaf.consumers
            }),
    {
        match edit {
            Edit::Publish(broadcast) => {
                self.broadcast = Some(broadcast);
            },
            Edit::Unpublish => {
                self.broadcast = None;
            },
            Edit::Subscribe(id) => {
                let mut i: usize = 0;
                while i < self.consumers.len()
                    invariant
                        *self == *old(self),
                        edit == Edit::Subscribe(id),
                        i <= self.consumers@.len(),
                        forall|k: int| 0 <= k < i ==> #[trigger] self.consumers@[k] != id,
                    decreases self.consumers@.len() - i,
                {
                    if self.consumers[i] == id {
                        assert(self.consumers@.contains(id));
                        return ;
                    }
                    i = i + 1;
                }
                self.consumers.push(id);
            },
            Edit::Unsubscribe(id) => {
                let mut rest: Vec<u64> = Vec::new();
                let mut i: usize = 0;
                while i < self.consumers.len()
                    invariant
                        *self == *old(self),
                        i <= self.consumers@.len(),
                        rest@ == without(self.consumers@.take(i as int), id),
                    decreases self.consumers@.len() - i,
                {
                    let other: u64 = self.consumers[i];
                    assert(self.consumers@.take(i + 1).drop_last() =~= self.consumers@.take(
                        i as int,
                    ));
                    if other != id {
                        rest.push(other);
                    }
                    i = i + 1;
                }
                assert(self.consumers@.take(i as int) =~= self.consumers@);
                self.consumers = rest;
            },
        }
    }

    /// Change the node at `path`, of which `depth` parts lead here. Nodes are made on the
    /// way down as needed and empty ones pruned on the way back up.
    fn edit_below(&mut self, path: &Path, depth: usize, edit: Edit)
        requires
            old(self).wf(),
            depth <= path@.len(),
        ensures
            final(self).wf(),
            final(self).leaf_at(path@.skip(depth as int)) == edited(
                old(self).leaf_at(path@.skip(depth as int)),
                edit,
            ),
            forall|other: Seq<Seq<char>>|
                other != path@.skip(depth as int) ==> #[trigger] final(self).leaf_at(other) == old(
                    self,
                ).leaf_at(other),
        decreases path@.len() - depth,
    {
        let ghost target = path@.skip(depth as int);
        let ghost before = *self;
        path.validity();
        assert(node_at(before, Seq::empty()) == Some(before));
        if depth == path.part_count() {
            self.edit_here(edit);
            proof {
                assert(target =~= Seq::<Seq<char>>::empty());
                assert forall|i: int| 0 <= i < before.nested@.len() implies tree_ok(
                    (#[trigger] before.nested@[i]).node,
                ) && !bare(before.nested@[i].node) by {
                    lemma_child(before, before.nested@[i].dir@, i);
                    lemma_child_ok(before, before.nested@[i].dir@);
                }
                lemma_tree_ok(*self);
                assert(node_at(*self, target) == Some(*self));
                assert forall|other: Seq<Seq<char>>| other != target implies #[trigger] self.leaf_at(
                    other,
                ) == before.leaf_at(other) by {
                    assert(other.len() > 0) by {
                        if other.len() == 0 {
                            assert(other =~= target);
                        }
                    }
                    lemma_same_children(before, *self, other);
                }
            }
            return ;
        }
        let ghost part = path@[depth as int];
        proof {
            assert(target[0] == part);
            assert(target.skip(1) =~= path@.skip(depth + 1));
        }
        match self.entry(path.part(depth)) {
            Some(i) => {
                proof {
                    lemma_child(before, part, i as int);
                    lemma_child_ok(before, part);
                }
                let mut nested = self.nested.remove(i);
                let ghost old_node = nested.node;
                nested.node.edit_below(path, depth + 1, edit);
                if nested.node.is_empty() {
                    proof {
                        lemma_pruned(before, *self, part, i as int);
                        assert forall|other: Seq<Seq<char>>|
                            #![trigger self.leaf_at(other)]
                            self.leaf_at(other) == if other == target {
                                edited(before.leaf_at(other), edit)
                            } else {
                                before.leaf_at(other)
                            } by {
                            if other.len() > 0 && other[0] == part {
                                lemma_bare_leaf(nested.node, other.skip(1));
                                assert(before.leaf_at(other) == old_node.leaf_at(other.skip(1)));
                                assert(other == target <==> other.skip(1) == target.skip(1)) by {
                                    assert(other =~= seq![part] + other.skip(1));
                                    assert(target =~= seq![part] + target.skip(1));
                                }
                            }
                        }
                    }
                } else {
                    self.nested.insert(i, nested);
                    proof {
                        assert(self.nested@ =~= before.nested@.update(i as int, nested));
                        lemma_replaced(before, *self, part, i as int, nested);
                        assert forall|other: Seq<Seq<char>>|
                            #![trigger self.leaf_at(other)]
                            self.leaf_at(other) == if other == target {
                                edited(before.leaf_at(other), edit)
                            } else {
                                before.leaf_at(other)
                            } by {
                            if other.len() > 0 && other[0] == part {
                                assert(self.leaf_at(other) == nested.node.leaf_at(other.skip(1)));
                                assert(before.leaf_at(other) == old_node.leaf_at(other.skip(1)));
                                assert(other == target <==> other.skip(1) == target.skip(1)) by {
                                    assert(other =~= seq![part] + other.skip(1));
                                    assert(target =~= seq![part] + target.skip(1));
                                }
                            }
                        }
                    }
                }
            },
            None => {
                let mut node = OriginNode::new();
                let ghost fresh = node;
                node.edit_below(path, depth + 1, edit);
                if !node.is_empty() {
                    let nested = Nested { dir: path.part(depth).clone(), node };
                    self.nested.push(nested);
                    proof {
                        lemma_added(before, *self, part, nested);
                        assert forall|other: Seq<Seq<char>>|
                            #![trigger self.leaf_at(other)]
                            self.leaf_at(other) == if other == target {
                                edited(before.leaf_at(other), edit)
                            } else {
                                before.leaf_at(other)
                            } by {
                            if other.len() > 0 && other[0] == part {
                                assert(self.leaf_at(other) == nested.node.leaf_at(other.skip(1)));
                                assert(fresh.leaf_at(other.skip(1)) == empty_leaf());
                                assert(before.leaf_at(other) == empty_leaf());
                                assert(other == target <==> other.skip(1) == target.skip(1)) by {
                                    assert(other =~= seq![part] + other.skip(1));
                                    assert(target =~= seq![part] + target.skip(1));
                                }
                            }
                        }
                    }
                } else {
                    proof {
                        lemma_bare_leaf(node, target.skip(1));
                        assert(before.leaf_at(target) == empty_leaf());
                        assert(fresh.leaf_at(target.skip(1)) == empty_leaf());
                    }
                }
            },
        }
    }
}

/// Where a part leads to the same tree in two nodes, so do the paths through it.
proof fn lemma_same_branch(
    a: OriginNode,
    b: OriginNode,
    i: int,
    j: int,
    path: Seq<Seq<char>>,
)
    requires
        distinct(a),
        distinct(b),
        path.len() > 0,
        child_is(a, path[0], i),
        child_is(b, path[0], j),
        a.nested@[i].node == b.nested@[j].node,
    ensures
        node_at(a, path) == node_at(b, path),
{
    lemma_child(a, path[0], i);
    lemma_child(b, path[0], j);
}

/// A change to a node itself leaves the trees below it alone.
proof fn lemma_same_children(a: OriginNode, b: OriginNode, path: Seq<Seq<char>>)
    requires
        distinct(a),
        a.nested == b.nested,
        path.len() > 0,
    ensures
        node_at(a, path) == node_at(b, path),
{
    if has_child(a, path[0]) {
        let i = choose|i: int| child_is(a, path[0], i);
        assert(child_is(b, path[0], i));
        lemma_same_branch(a, b, i, i, path);
    } else if has_child(b, path[0]) {
        let i = choose|i: int| child_is(b, path[0], i);
        assert(child_is(a, path[0], i));
    }
}

/// The tree below one part was replaced.
proof fn lemma_replaced(
    a: OriginNode,
    b: OriginNode,
    part: Seq<char>,
    i: int,
    nested: Nested,
)
    requires
        tree_ok(a),
        child_is(a, part, i),
        nested.dir@ == part,
        tree_ok(nested.node),
        !bare(nested.node),
        b.broadcast == a.broadcast,
        b.consumers == a.consumers,
        b.nested@ == a.nested@.update(i, nested),
    ensures
        tree_ok(b),
        forall|path: Seq<Seq<char>>|
            #![trigger b.leaf_at(path)]
            if path.len() > 0 && path[0] == part {
                b.leaf_at(path) == nested.node.leaf_at(path.skip(1)) && a.leaf_at(path)
                    == a.nested@[i].node.leaf_at(path.skip(1))
            } else {
                b.leaf_at(path) == a.leaf_at(path)
            },
{
    assert(node_at(a, Seq::empty()) == Some(a));
    assert(distinct(b)) by {
        assert forall|x: int, y: int| 0 <= x < y < b.nested@.len() implies (
        #[trigger] b.nested@[x]).dir@ != (#[trigger] b.nested@[y]).dir@ by {
            assert(a.nested@[x].dir@ != a.nested@[y].dir@);
        }
        assert forall|x: int| 0 <= x < b.nested@.len() implies valid_part(
            (#[trigger] b.nested@[x]).dir@,
        ) by {
            assert(valid_part(a.nested@[x].dir@));
        }
    }
    assert forall|k: int| 0 <= k < b.nested@.len() implies tree_ok(
        (#[trigger] b.nested@[k]).node,
    ) && !bare(b.nested@[k].node) by {
        if k != i {
            lemma_child(a, a.nested@[k].dir@, k);
            lemma_child_ok(a, a.nested@[k].dir@);
        }
    }
    lemma_tree_ok(b);
    lemma_child(a, part, i);
    assert(child_is(b, part, i));
    lemma_child(b, part, i);
    assert forall|path: Seq<Seq<char>>|
        #![trigger b.leaf_at(path)]
        if path.len() > 0 && path[0] == part {
            b.leaf_at(path) == nested.node.leaf_at(path.skip(1)) && a.leaf_at(path)
                == a.nested@[i].node.leaf_at(path.skip(1))
        } else {
            b.leaf_at(path) == a.leaf_at(path)
        } by {
        if path.len() > 0 && path[0] != part {
            if has_child(a, path[0]) {
                let k = choose|k: int| child_is(a, path[0], k);
                assert(child_is(b, path[0], k));
                lemma_same_branch(a, b, k, k, path);
            } else if has_child(b, path[0]) {
                let k = choose|k: int| child_is(b, path[0], k);
                assert(child_is(a, path[0], k));
            }
        }
    }
}

/// The tree below one part was removed.
proof fn lemma_pruned(a: OriginNode, b: OriginNode, part: Seq<char>, i: int)
    requires
        tree_ok(a),
        child_is(a, part, i),
        b.broadcast == a.broadcast,
        b.consumers == a.consumers,
        b.nested@ == a.nested@.remove(i),
    ensures
        tree_ok(b),
        forall|path: Seq<Seq<char>>|
            #![trigger b.leaf_at(path)]
            if path.len() > 0 && path[0] == part {
                b.leaf_at(path) == empty_leaf() && a.leaf_at(path) == a.nested@[i].node.leaf_at(
                    path.skip(1),
                )
            } else {
                b.leaf_at(path) == a.leaf_at(path)
            },
{
    assert(node_at(a, Seq::empty()) == Some(a));
    assert(distinct(b)) by {
        assert forall|x: int, y: int| 0 <= x < y < b.nested@.len() implies (
        #[trigger] b.nested@[x]).dir@ != (#[trigger] b.nested@[y]).dir@ by {
            let u = if x < i { x } else { x + 1 };
            let v = if y < i { y } else { y + 1 };
            assert(a.nested@[u].dir@ != a.nested@[v].dir@);
        }
        assert forall|x: int| 0 <= x < b.nested@.len() implies valid_part(
            (#[trigger] b.nested@[x]).dir@,
        ) by {
            let u = if x < i { x } else { x + 1 };
            assert(valid_part(a.nested@[u].dir@));
        }
    }
    assert forall|k: int| 0 <= k < b.nested@.len() implies tree_ok(
        (#[trigger] b.nested@[k]).node,
    ) && !bare(b.nested@[k].node) by {
        let u = if k < i { k } else { k + 1 };
        assert(b.nested@[k] == a.nested@[u]);
        lemma_child(a, a.nested@[u].dir@, u);
        lemma_child_ok(a, a.nested@[u].dir@);
    }
    lemma_tree_ok(b);
    lemma_child(a, part, i);
    assert(!has_child(b, part)) by {
        if has_child(b, part) {
            let k = choose|k: int| child_is(b, part, k);
            let u = if k < i { k } else { k + 1 };
            assert(b.nested@[k] == a.nested@[u]);
            if u < i {
                assert(a.nested@[u].dir@ != a.nested@[i].dir@);
            } else {
                assert(a.nested@[i].dir@ != a.nested@[u].dir@);
            }
        }
    }
    assert forall|path: Seq<Seq<char>>|
        #![trigger b.leaf_at(path)]
        if path.len() > 0 && path[0] == part {
            b.leaf_at(path) == empty_leaf() && a.leaf_at(path) == a.nested@[i].node.leaf_at(
                path.skip(1),
            )
        } else {
            b.leaf_at(path) == a.leaf_at(path)
        } by {
        if path.len() > 0 && path[0] != part {
            if has_child(a, path[0]) {
                let k = choose|k: int| child_is(a, path[0], k);
                let u = if k < i { k } else { k - 1 };
                assert(b.nested@[u] == a.nested@[k]);
                assert(child_is(b, path[0], u));
                lemma_same_branch(a, b, k, u, path);
            } else if has_child(b, path[0]) {
                let k = choose|k: int| child_is(b, path[0], k);
                let u = if k < i { k } else { k + 1 };
                assert(b.nested@[k] == a.nested@[u]);
                assert(child_is(a, path[0], u));
            }
        }
    }
}

/// A tree was added below a new part.
proof fn lemma_added(a: OriginNode, b: OriginNode, part: Seq<char>, nested: Nested)
    requires
        tree_ok(a),
        !has_child(a, part),
        nested.dir@ == part,
        valid_part(part),
        tree_ok(nested.node),
        !bare(nested.node),
        b.broadcast == a.broadcast,
        b.consumers == a.consumers,
        b.nested@ == a.nested@.push(nested),
    ensures
        tree_ok(b),
        forall|path: Seq<Seq<char>>|
            #![trigger b.leaf_at(path)]
            if path.len() > 0 && path[0] == part {
                b.leaf_at(path) == nested.node.leaf_at(path.skip(1)) && a.leaf_at(path)
                    == empty_leaf()
            } else {
                b.leaf_at(path) == a.leaf_at(path)
            },
{
    assert(node_at(a, Seq::empty()) == Some(a));
    let n = a.nested@.len() as int;
    assert(distinct(b)) by {
        assert forall|x: int, y: int| 0 <= x < y < b.nested@.len() implies (
        #[trigger] b.nested@[x]).dir@ != (#[trigger] b.nested@[y]).dir@ by {
            if y < n {
                assert(a.nested@[x].dir@ != a.nested@[y].dir@);
            } else {
                assert(!child_is(a, part, x));
            }
        }
        assert forall|x: int| 0 <= x < b.nested@.len() implies valid_part(
            (#[trigger] b.nested@[x]).dir@,
        ) by {
            if x < n {
                assert(valid_part(a.nested@[x].dir@));
            }
        }
    }
    assert forall|k: int| 0 <= k < b.nested@.len() implies tree_ok(
        (#[trigger] b.nested@[k]).node,
    ) && !bare(b.nested@[k].node) by {
        if k < n {
            lemma_child(a, a.nested@[k].dir@, k);
            lemma_child_ok(a, a.nested@[k].dir@);
        }
    }
    lemma_tree_ok(b);
    assert(child_is(b, part, n));
    lemma_child(b, part, n);
    assert forall|path: Seq<Seq<char>>|
        #![trigger b.leaf_at(path)]
        if path.len() > 0 && path[0] == part {
            b.leaf_at(path) == nested.node.leaf_at(path.skip(1)) && a.leaf_at(path) == empty_leaf()
        } else {
            b.leaf_at(path) == a.leaf_at(path)
        } by {
        if path.len() > 0 && path[0] != part {
            if has_child(a, path[0]) {
                let k = choose|k: int| child_is(a, path[0], k);
                assert(child_is(b, path[0], k));
                lemma_same_branch(a, b, k, k, path);
            } else if has_child(b, path[0]) {
                let k = choose|k: int| child_is(b, path[0], k);
                assert(k < n);
                assert(child_is(a, path[0], k));
            }
        }
    }
}

/// Nothing is found in a bare tree.
proof fn lemma_bare_leaf(node: OriginNode, path: Seq<Seq<char>>)
    requires
        bare(node),
    ensures
        node.leaf_at(path) == empty_leaf(),
{
    if path.len() > 0 {
        assert(!has_child(node, path[0]));
    } else {
        assert(node.leaf_at(path) =~= empty_leaf());
    }
}

/// An announced broadcast, by its absolute path.
pub struct Live {
    /// Where the broadcast is published.
    pub path: Path,
    /// The front that owns it.
    pub front: u64,
}

/// The front of the broadcast published in a leaf, if it is announced.
pub open spec fn live_front(leaf: Leaf) -> Option<u64> {
    match leaf.broadcast {
        Some(broadcast) => if broadcast.announced {
            Some(broadcast.front)
        } else {
            None
        },
        None => None,
    }
}

/// Whether a cursor is subscribed at `path` or above it.
pub open spec fn subscribed(node: OriginNode, path: Seq<Seq<char>>, id: u64) -> bool {
    exists|n: int|
        0 <= n <= path.len() && (#[trigger] node.leaf_at(path.take(n))).consumers.contains(id)
}

/// Whether `live` lists exactly the announced broadcasts of `node`, whose own absolute
/// path is `at`, each once.
pub open spec fn lists_live(live: Seq<Live>, node: OriginNode, at: Seq<Seq<char>>) -> bool {
    &&& forall|i: int|
        0 <= i < live.len() ==> at.is_prefix_of((#[trigger] live[i]).path@) && live_front(
            node.leaf_at(live[i].path@.skip(at.len() as int)),
        ) == Some(live[i].front)
    &&& forall|path: Seq<Seq<char>>|
        live_front(#[trigger] node.leaf_at(path)) is Some ==> exists|i: int|
            0 <= i < live.len() && (#[trigger] live[i]).path@ == at + path
    &&& forall|i: int, j: int|
        0 <= i < j < live.len() ==> (#[trigger] live[i]).path@ != (#[trigger] live[j]).path@
}

impl OriginNode {
    /// Change the node at `path`.
    pub fn edit(&mut self, path: &Path, edit: Edit)
        requires
            old(self).wf(),
        ensures
            final(self).wf(),
            final(self).leaf_at(path@) == edited(old(self).leaf_at(path@), edit),
            forall|other: Seq<Seq<char>>|
                other != path@ ==> #[trigger] final(self).leaf_at(other) == old(self).leaf_at(
                    other,
                ),
    {
        assert(path@.skip(0) =~= path@);
        self.edit_below(path, 0, edit);
    }

    fn broadcast_below(&self, path: &Path, depth: usize) -> (r: Option<OriginBroadcast>)
        requires
            self.wf(),
            depth <= path@.len(),
        ensures
            r == self.leaf_at(path@.skip(depth as int)).broadcast,
        decreases path@.len() - depth,
    {
        let ghost target = path@.skip(depth as int);
        if depth == path.part_count() {
            return self.broadcast;
        }
        proof {
            assert(target[0] == path@[depth as int]);
            assert(target.skip(1) =~= path@.skip(depth + 1));
        }
        match self.entry(path.part(depth)) {
            Some(i) => {
                proof {
                    assert(node_at(*self, Seq::empty()) == Some(*self));
                    lemma_child(*self, target[0], i as int);
                    lemma_child_ok(*self, target[0]);
                }
                self.nested[i].node.broadcast_below(path, depth + 1)
            },
            None => None,
        }
    }

    /// The broadcast published at `path`, announced or not.
    pub fn consume_broadcast(&self, path: &Path) -> (r: Option<OriginBroadcast>)
        requires
            self.wf(),
        ensures
            r == self.leaf_at(path@).broadcast,
    {
        assert(path@.skip(0) =~= path@);
        self.broadcast_below(path, 0)
    }

    fn watchers_below(&self, path: &Path, depth: usize, out: &mut Vec<u64>)
        requires
            self.wf(),
            depth <= path@.len(),
            old(out)@.no_duplicates(),
        ensures
            final(out)@.no_duplicates(),
            forall|id: u64|
                #![trigger final(out)@.contains(id)]
                final(out)@.contains(id) <==> (old(out)@.contains(id) || subscribed(
                    *self,
                    path@.skip(depth as int),
                    id,
                )),
        decreases path@.len() - depth,
    {
        let ghost target = path@.skip(depth as int);
        let ghost start = out@;
        proof {
            assert(node_at(*self, Seq::empty()) == Some(*self));
            assert(target.take(0) =~= Seq::<Seq<char>>::empty());
            assert(self.leaf_at(target.take(0)).consumers == self.consumers@);
        }
        let mut k: usize = 0;
        while k < self.consumers.len()
            invariant
                k <= self.consumers@.len(),
                out@.no_duplicates(),
                forall|id: u64|
                    #![trigger out@.contains(id)]
                    out@.contains(id) <==> (start.contains(id) || self.consumers@.take(
                        k as int,
                    ).contains(id)),
            decreases self.consumers@.len() - k,
        {
            let ghost before = out@;
            let id: u64 = self.consumers[k];
            let known = holds(out, id);
            if !known {
                out.push(id);
            }
            proof {
                let taken = self.consumers@.take(k as int);
                let next = self.consumers@.take(k + 1);
                assert(next =~= taken.push(id));
                assert forall|other: u64|
                    #![trigger out@.contains(other)]
                    out@.contains(other) <==> (start.contains(other) || next.contains(other)) by {
                    lemma_push_contains(taken, id, other);
                    lemma_push_contains(before, id, other);
                    assert(before.contains(other) <==> (start.contains(other) || taken.contains(
                        other,
                    )));
                }
            }
            k = k + 1;
        }
        assert(self.consumers@.take(k as int) =~= self.consumers@);
        let ghost here = out@;
        if depth < path.part_count() {
            proof {
                assert(target[0] == path@[depth as int]);
                assert(target.skip(1) =~= path@.skip(depth + 1));
            }
            match self.entry(path.part(depth)) {
                Some(i) => {
                    proof {
                        lemma_child(*self, target[0], i as int);
                        lemma_child_ok(*self, target[0]);
                    }
                    self.nested[i].node.watchers_below(path, depth + 1, out);
                    proof {
                        let c = child(*self, target[0]);
                        assert forall|id: u64| subscribed(*self, target, id) == (
                        self.consumers@.contains(id) || subscribed(c, target.skip(1), id)) by {
                            lemma_subscribed_step(*self, target, id);
                        }
                    }
                },
                None => {
                    proof {
                        assert forall|id: u64| subscribed(*self, target, id)
                            == self.consumers@.contains(id) by {
                            lemma_subscribed_end(*self, target, id);
                        }
                    }
                },
            }
        } else {
            proof {
                assert forall|id: u64| subscribed(*self, target, id) == self.consumers@.contains(
                    id,
                ) by {
                    lemma_subscribed_end(*self, target, id);
                }
            }
        }
    }

    /// The cursors subscribed at `path` or above it, each once.
    pub fn watchers(&self, path: &Path) -> (r: Vec<u64>)
        requires
            self.wf(),
        ensures
            r@.no_duplicates(),
            forall|id: u64|
                #![trigger r@.contains(id)]
                r@.contains(id) <==> subscribed(*self, path@, id),
    {
        let mut out: Vec<u64> = Vec::new();
        assert(path@.skip(0) =~= path@);
        self.watchers_below(path, 0, &mut out);
        out
    }

    /// The announced broadcasts here and below, where `at` is the absolute path of this
    /// node. Offline ones are reachable by exact path but never listed.
    fn replay_below(&self, at: &Path) -> (out: Vec<Live>)
        requires
            self.wf(),
        ensures
            lists_live(out@, *self, at@),
        decreases *self,
    {
        let mut out: Vec<Live> = Vec::new();
        proof {
            assert(node_at(*self, Seq::empty()) == Some(*self));
            assert(at@.skip(at@.len() as int) =~= Seq::<Seq<char>>::empty());
            assert(at@.take(at@.len() as int) =~= at@);
            assert(at@ + Seq::<Seq<char>>::empty() =~= at@);
        }
        if let Some(broadcast) = self.broadcast {
            if broadcast.announced {
                out.push(Live { path: at.clone(), front: broadcast.front });
            }
        }
        let mut k: usize = 0;
        proof {
            assert forall|path: Seq<Seq<char>>|
                live_front(#[trigger] self.leaf_at(path)) is Some && reached(*self, path, 0) implies exists|
                i: int,
            | 0 <= i < out@.len() && (#[trigger] out@[i]).path@ == at@ + path by {
                assert(path =~= Seq::<Seq<char>>::empty());
                assert(out@[0].path@ == at@ + path);
            }
        }
        while k < self.nested.len()
            invariant
                self.wf(),
                distinct(*self),
                node_at(*self, Seq::empty()) == Some(*self),
                k <= self.nested@.len(),
                forall|i: int| 0 <= i < out@.len() ==> listed_within(#[trigger] out@[i], *self, at@, k as int),
                forall|path: Seq<Seq<char>>|
                    live_front(#[trigger] self.leaf_at(path)) is Some && reached(
                        *self,
                        path,
                        k as int,
                    ) ==> exists|i: int| 0 <= i < out@.len() && (#[trigger] out@[i]).path@ == at@ + path,
                forall|i: int, j: int|
                    0 <= i < j < out@.len() ==> (#[trigger] out@[i]).path@ != (
                    #[trigger] out@[j]).path@,
            decreases self.nested@.len() - k,
        {
            let ghost part = self.nested@[k as int].dir@;
            let ghost node = self.nested@[k as int].node;
            proof {
                assert(child_is(*self, part, k as int));
                lemma_child(*self, part, k as int);
                lemma_child_ok(*self, part);
                assert(valid_part(part));
            }
            let below = at.child(&self.nested[k].dir);
            let mut more = self.nested[k].node.replay_below(&below);
            let ghost first = out@;
            let ghost second = more@;
            out.append(&mut more);
            proof {
                assert(out@ =~= first + second);
                assert forall|path: Seq<Seq<char>>| path.len() > 0 && path[0] == part implies #[trigger] self.leaf_at(
                    path,
                ) == node.leaf_at(path.skip(1)) by {}
                assert forall|i: int| 0 <= i < out@.len() implies listed_within(
                    #[trigger] out@[i],
                    *self,
                    at@,
                    k + 1,
                ) by {
                    if i < first.len() {
                        assert(listed_within(first[i], *self, at@, k as int));
                    } else {
                        let live = second[i - first.len()];
                        lemma_listed_child(live, *self, at@, k as int);
                    }
                }
                assert forall|path: Seq<Seq<char>>|
                    live_front(#[trigger] self.leaf_at(path)) is Some && reached(
                        *self,
                        path,
                        k + 1,
                    ) implies exists|i: int|
                    0 <= i < out@.len() && (#[trigger] out@[i]).path@ == at@ + path by {
                    if reached(*self, path, k as int) {
                        let i = choose|i: int|
                            0 <= i < first.len() && (#[trigger] first[i]).path@ == at@ + path;
                        assert(out@[i].path@ == at@ + path);
                    } else {
                        assert(path[0] == part);
                        assert(node.leaf_at(path.skip(1)) == self.leaf_at(path));
                        let i = choose|i: int|
                            0 <= i < second.len() && (#[trigger] second[i]).path@ == below@
                                + path.skip(1);
                        assert(below@ + path.skip(1) =~= at@ + path);
                        assert(out@[first.len() + i].path@ == at@ + path);
                    }
                }
                assert forall|i: int, j: int| 0 <= i < j < out@.len() implies (
                #[trigger] out@[i]).path@ != (#[trigger] out@[j]).path@ by {
                    if j >= first.len() && i < first.len() {
                        let live = second[j - first.len()];
                        assert(listed_within(first[i], *self, at@, k as int));
                        lemma_listed_child(live, *self, at@, k as int);
                        lemma_below_part(live.path@, at@, part);
                        if first[i].path@ == live.path@ {
                            let rel = live.path@.skip(at@.len() as int);
                            assert(rel[0] == part);
                            assert(reached(*self, rel, k as int));
                            let m = choose|m: int| 0 <= m < k && (#[trigger] self.nested@[m]).dir@ == rel[0];
                            assert(self.nested@[m].dir@ != self.nested@[k as int].dir@);
                        }
                    } else if i >= first.len() {
                        assert(second[i - first.len()].path@ != second[j - first.len()].path@);
                    }
                }
            }
            k = k + 1;
        }
        proof {
            assert forall|path: Seq<Seq<char>>| live_front(#[trigger] self.leaf_at(path)) is Some implies reached(
                *self,
                path,
                k as int,
            ) by {
                if path.len() > 0 && has_child(*self, path[0]) {
                    let i = choose|i: int| child_is(*self, path[0], i);
                    assert(self.nested@[i].dir@ == path[0]);
                }
            }
            assert forall|i: int| 0 <= i < out@.len() implies at@.is_prefix_of(
                (#[trigger] out@[i]).path@,
            ) && live_front(self.leaf_at(out@[i].path@.skip(at@.len() as int))) == Some(
                out@[i].front,
            ) by {
                assert(listed_within(out@[i], *self, at@, k as int));
            }
        }
        out
    }

    /// The node at `path`, of which `depth` parts lead here, listed as by
    /// [`Self::replay`].
    fn replay_from(&self, path: &Path, depth: usize) -> (out: Vec<Live>)
        requires
            self.wf(),
            depth <= path@.len(),
        ensures
            lists_live_at(out@, *self, path@.take(depth as int), path@),
        decreases path@.len() - depth,
    {
        let ghost target = path@.skip(depth as int);
        let ghost above = path@.take(depth as int);
        if depth == path.part_count() {
            assert(above =~= path@);
            let out = self.replay_below(path);
            proof {
                lemma_lists_at_root(out@, *self, path@);
            }
            return out;
        }
        proof {
            assert(target[0] == path@[depth as int]);
        }
        match self.entry(path.part(depth)) {
            Some(i) => {
                proof {
                    assert(node_at(*self, Seq::empty()) == Some(*self));
                    lemma_child(*self, target[0], i as int);
                    lemma_child_ok(*self, target[0]);
                }
                let out = self.nested[i].node.replay_from(path, depth + 1);
                proof {
                    assert(path@.take(depth + 1) =~= above.push(target[0]));
                    lemma_lists_through(out@, *self, above, target[0], path@);
                }
                out
            },
            None => {
                let out: Vec<Live> = Vec::new();
                proof {
                    assert forall|p: Seq<Seq<char>>|
                        path@.is_prefix_of(above + p) implies live_front(#[trigger] self.leaf_at(p)) is None by {
                        assert(p.len() >= target.len()) by {
                            assert(path@ =~= (above + p).take(path@.len() as int));
                        }
                        assert(p[0] == (above + p)[depth as int]);
                        assert((above + p).take(path@.len() as int)[depth as int] == (above
                            + p)[depth as int]);
                        assert(self.leaf_at(p) == empty_leaf());
                    }
                }
                out
            },
        }
    }

    /// The announced broadcasts at `path` or below it.
    pub fn replay(&self, path: &Path) -> (out: Vec<Live>)
        requires
            self.wf(),
        ensures
            forall|i: int|
                0 <= i < out@.len() ==> path@.is_prefix_of((#[trigger] out@[i]).path@)
                    && live_front(self.leaf_at(out@[i].path@)) == Some(out@[i].front),
            forall|p: Seq<Seq<char>>|
                path@.is_prefix_of(p) && live_front(#[trigger] self.leaf_at(p)) is Some
                    ==> exists|i: int| 0 <= i < out@.len() && (#[trigger] out@[i]).path@ == p,
            forall|i: int, j: int|
                0 <= i < j < out@.len() ==> (#[trigger] out@[i]).path@ != (
                #[trigger] out@[j]).path@,
    {
        let out = self.replay_from(path, 0);
        proof {
            let top = path@.take(0);
            assert(top =~= Seq::<Seq<char>>::empty());
            assert forall|p: Seq<Seq<char>>|
                path@.is_prefix_of(p) && live_front(#[trigger] self.leaf_at(p)) is Some implies exists|
                i: int,
            | 0 <= i < out@.len() && (#[trigger] out@[i]).path@ == p by {
                assert(top + p =~= p);
                let i = choose|i: int| 0 <= i < out@.len() && (#[trigger] out@[i]).path@ == top + p;
                assert(out@[i].path@ == p);
            }
            assert forall|i: int| 0 <= i < out@.len() implies path@.is_prefix_of(
                (#[trigger] out@[i]).path@,
            ) && live_front(self.leaf_at(out@[i].path@)) == Some(out@[i].front) by {
                assert(out@[i].path@.skip(0) =~= out@[i].path@);
            }
        }
        out
    }
}

/// Whether `live` lists exactly the announced broadcasts at `path` or below it in `node`,
/// whose own absolute path is `above`, each once.
spec fn lists_live_at(
    live: Seq<Live>,
    node: OriginNode,
    above: Seq<Seq<char>>,
    path: Seq<Seq<char>>,
) -> bool {
    &&& forall|i: int|
        0 <= i < live.len() ==> path.is_prefix_of((#[trigger] live[i]).path@) && above.is_prefix_of(
            live[i].path@,
        ) && live_front(node.leaf_at(live[i].path@.skip(above.len() as int))) == Some(
            live[i].front,
        )
    &&& forall|p: Seq<Seq<char>>|
        path.is_prefix_of(above + p) && live_front(#[trigger] node.leaf_at(p)) is Some ==> exists|
            i: int,
        | 0 <= i < live.len() && (#[trigger] live[i]).path@ == above + p
    &&& forall|i: int, j: int|
        0 <= i < j < live.len() ==> (#[trigger] live[i]).path@ != (#[trigger] live[j]).path@
}

proof fn lemma_lists_at_root(live: Seq<Live>, node: OriginNode, path: Seq<Seq<char>>)
    requires
        lists_live(live, node, path),
    ensures
        lists_live_at(live, node, path, path),
{
}

proof fn lemma_lists_through(
    live: Seq<Live>,
    node: OriginNode,
    above: Seq<Seq<char>>,
    part: Seq<char>,
    path: Seq<Seq<char>>,
)
    requires
        has_child(node, part),
        above.push(part).is_prefix_of(path),
        lists_live_at(live, child(node, part), above.push(part), path),
    ensures
        lists_live_at(live, node, above, path),
{
    let c = child(node, part);
    let n = above.len() as int;
    assert forall|i: int| 0 <= i < live.len() implies path.is_prefix_of((#[trigger] live[i]).path@)
        && above.is_prefix_of(live[i].path@) && live_front(
        node.leaf_at(live[i].path@.skip(n)),
    ) == Some(live[i].front) by {
        let whole = live[i].path@;
        lemma_below_part(whole, above, part);
        let rel = whole.skip(n);
        assert(rel[0] == part);
        assert(rel.skip(1) =~= whole.skip(n + 1));
        assert(node.leaf_at(rel) == c.leaf_at(rel.skip(1)));
    }
    assert forall|p: Seq<Seq<char>>|
        path.is_prefix_of(above + p) && live_front(#[trigger] node.leaf_at(p)) is Some implies exists|
        i: int,
    | 0 <= i < live.len() && (#[trigger] live[i]).path@ == above + p by {
        let whole = above + p;
        crate::path::lemma_prefix_trans(above.push(part), path, whole);
        lemma_below_part(whole, above, part);
        assert(whole.skip(n) =~= p);
        assert(p[0] == part);
        assert(above.push(part) + p.skip(1) =~= whole);
        assert(node.leaf_at(p) == c.leaf_at(p.skip(1)));
        let i = choose|i: int|
            0 <= i < live.len() && (#[trigger] live[i]).path@ == above.push(part) + p.skip(1);
        assert(live[i].path@ == whole);
    }
}

/// What a path below `at` and `part` looks like.
proof fn lemma_below_part(path: Seq<Seq<char>>, at: Seq<Seq<char>>, part: Seq<char>)
    requires
        at.push(part).is_prefix_of(path),
    ensures
        at.is_prefix_of(path),
        path.len() > at.len(),
        path.skip(at.len() as int)[0] == part,
{
    let n = at.len() as int;
    let head = path.take(n + 1);
    assert(head =~= at.push(part));
    assert(head[n] == part);
    assert(path.take(n) =~= head.take(n));
    assert(head.take(n) =~= at);
}

/// Whether a path goes no further than the node itself or one of its first `k` branches.
spec fn reached(node: OriginNode, path: Seq<Seq<char>>, k: int) -> bool {
    path.len() == 0 || exists|m: int| 0 <= m < k && (#[trigger] node.nested@[m]).dir@ == path[0]
}

/// Whether a listed broadcast is announced at the node itself or in one of its first `k`
/// branches.
spec fn listed_within(live: Live, node: OriginNode, at: Seq<Seq<char>>, k: int) -> bool {
    &&& at.is_prefix_of(live.path@)
    &&& live_front(node.leaf_at(live.path@.skip(at.len() as int))) == Some(live.front)
    &&& reached(node, live.path@.skip(at.len() as int), k)
}

/// A broadcast listed by branch `k` is one of the first `k + 1` branches.
proof fn lemma_listed_child(live: Live, node: OriginNode, at: Seq<Seq<char>>, k: int)
    requires
        distinct(node),
        0 <= k < node.nested@.len(),
        at.push(node.nested@[k].dir@).is_prefix_of(live.path@),
        live_front(node.nested@[k].node.leaf_at(live.path@.skip(at.len() as int + 1))) == Some(live.front),
    ensures
        listed_within(live, node, at, k + 1),
{
    let part = node.nested@[k].dir@;
    assert(child_is(node, part, k));
    lemma_child(node, part, k);
    lemma_below_part(live.path@, at, part);
    let rel = live.path@.skip(at.len() as int);
    assert(rel.skip(1) =~= live.path@.skip(at.len() as int + 1));
    assert(node.leaf_at(rel) == node.nested@[k].node.leaf_at(rel.skip(1)));
}

/// Whether a list holds an id.
fn holds(list: &Vec<u64>, id: u64) -> (r: bool)
    ensures
        r == list@.contains(id),
{
    let mut i: usize = 0;
    while i < list.len()
        invariant
            i <= list@.len(),
            forall|k: int| 0 <= k < i ==> #[trigger] list@[k] != id,
        decreases list@.len() - i,
    {
        if list[i] == id {
            assert(list@.contains(id));
            return true;
        }
        i = i + 1;
    }
    false
}

/// What a longer list contains.
pub proof fn lemma_push_contains(s: Seq<u64>, id: u64, other: u64)
    ensures
        s.push(id).contains(other) <==> (s.contains(other) || other == id),
{
    if s.contains(other) {
        let k = choose|k: int| 0 <= k < s.len() && s[k] == other;
        assert(s.push(id)[k] == other);
    }
    assert(s.push(id)[s.len() as int] == id);
}

proof fn lemma_subscribed_end(node: OriginNode, path: Seq<Seq<char>>, id: u64)
    requires
        path.len() == 0 || !has_child(node, path[0]),
    ensures
        subscribed(node, path, id) == node.consumers@.contains(id),
{
    assert(path.take(0) =~= Seq::<Seq<char>>::empty());
    assert(node.leaf_at(path.take(0)).consumers == node.consumers@);
    if subscribed(node, path, id) {
        let n = choose|n: int|
            0 <= n <= path.len() && (#[trigger] node.leaf_at(path.take(n))).consumers.contains(id);
        if n > 0 {
            assert(path.take(n)[0] == path[0]);
            assert(node.leaf_at(path.take(n)) == empty_leaf());
        }
    }
}

proof fn lemma_subscribed_step(node: OriginNode, path: Seq<Seq<char>>, id: u64)
    requires
        path.len() > 0,
        has_child(node, path[0]),
    ensures
        subscribed(node, path, id) == (node.consumers@.contains(id) || subscribed(
            child(node, path[0]),
            path.skip(1),
            id,
        )),
{
    let c = child(node, path[0]);
    assert(path.take(0) =~= Seq::<Seq<char>>::empty());
    assert(node.leaf_at(path.take(0)).consumers == node.consumers@);
    assert forall|n: int| 1 <= n <= path.len() implies #[trigger] node.leaf_at(path.take(n))
        == c.leaf_at(path.skip(1).take(n - 1)) by {
        assert(path.take(n)[0] == path[0]);
        assert(path.take(n).skip(1) =~= path.skip(1).take(n - 1));
    }
    if subscribed(node, path, id) {
        let n = choose|n: int|
            0 <= n <= path.len() && (#[trigger] node.leaf_at(path.take(n))).consumers.contains(id);
        if n > 0 {
            assert(c.leaf_at(path.skip(1).take(n - 1)).consumers.contains(id));
        }
    }
    if subscribed(c, path.skip(1), id) {
        let n = choose|n: int|
            0 <= n <= path.skip(1).len() && (#[trigger] c.leaf_at(
                path.skip(1).take(n),
            )).consumers.contains(id);
        assert(node.leaf_at(path.take(n + 1)).consumers.contains(id));
    }
}

} // verus!
