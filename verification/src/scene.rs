use vstd::prelude::*;

verus! {

/// Index of a node in its tree.
pub type NodeId = usize;

/// One node of a scene tree: its links and its destruction state.
pub struct SceneNode {
    pub parent: Option<NodeId>,
    pub children: Vec<NodeId>,
    pub destroyed: bool,
    pub destroy_notified: bool,
    pub destroy_processed: bool,
    pub tags: Vec<String>,
}

/// The nodes of a scene, addressed by index.
pub struct NodeTree {
    pub nodes: Vec<SceneNode>,
}

/// Every link points at a node of the tree.
pub open spec fn links_ok(nodes: Seq<SceneNode>) -> bool {
    forall|i: int| #![trigger nodes[i]] 0 <= i < nodes.len() ==> {
        &&& (nodes[i].parent matches Some(p) ==> p < nodes.len())
        &&& forall|j: int| 0 <= j < nodes[i].children@.len() ==> (#[trigger] nodes[i].children@[j]) < nodes.len()
    }
}

/// Destroyed nodes of the subtree at `n` that are not yet processed, children before their
/// parent, looking at most `fuel` levels down.
pub open spec fn post_order(nodes: Seq<SceneNode>, n: int, fuel: nat) -> Seq<NodeId>
    decreases fuel, 0nat,
{
    if fuel == 0 || !(0 <= n < nodes.len()) {
        Seq::empty()
    } else {
        let own = if nodes[n].destroyed && !nodes[n].destroy_processed {
            seq![n as NodeId]
        } else {
            Seq::empty()
        };
        children_post_order(nodes, nodes[n].children@, nodes[n].children@.len() as int, (fuel - 1) as nat) + own
    }
}

/// `post_order` of the first `k` children, in order.
pub open spec fn children_post_order(nodes: Seq<SceneNode>, children: Seq<NodeId>, k: int, fuel: nat) -> Seq<NodeId>
    decreases fuel, 1nat, k,
{
    if k <= 0 || k > children.len() {
        Seq::empty()
    } else {
        children_post_order(nodes, children, k - 1, fuel) + post_order(nodes, children[k - 1] as int, fuel)
    }
}

impl NodeTree {
    pub fn new() -> (r: Self)
        ensures
            r.nodes@.len() == 0,
    {
        NodeTree { nodes: Vec::new() }
    }

    /// Adds a detached node and returns its index.
    pub fn add_node(&mut self) -> (r: NodeId)
        requires
            links_ok(old(self).nodes@),
        ensures
            r == old(self).nodes@.len(),
            final(self).nodes@.len() == old(self).nodes@.len() + 1,
            forall|i: int| 0 <= i < r ==> final(self).nodes@[i] == old(self).nodes@[i],
            final(self).nodes@[r as int].parent is None,
            final(self).nodes@[r as int].children@.len() == 0,
            !final(self).nodes@[r as int].destroyed,
            !final(self).nodes@[r as int].destroy_notified,
            !final(self).nodes@[r as int].destroy_processed,
            links_ok(final(self).nodes@),
    {
        let id = self.nodes.len();
        self.nodes.push(SceneNode {
            parent: None,
            children: Vec::new(),
            destroyed: false,
            destroy_notified: false,
            destroy_processed: false,
            tags: Vec::new(),
        });
        assert(links_ok(self.nodes@)) by {
            assert forall|i: int| #![trigger self.nodes@[i]] 0 <= i < self.nodes@.len() implies {
                &&& (self.nodes@[i].parent matches Some(p) ==> p < self.nodes@.len())
                &&& forall|j: int| 0 <= j < self.nodes@[i].children@.len() ==> (#[trigger] self.nodes@[i].children@[j]) < self.nodes@.len()
            } by {
                if i < id {
                    assert(self.nodes@[i] == old(self).nodes@[i]);
                }
            }
        }
        id
    }

    /// Marks a node destroyed.
    pub fn set_destroyed(&mut self, node: NodeId)
        requires
            node < old(self).nodes@.len(),
        ensures
            final(self).nodes@.len() == old(self).nodes@.len(),
            forall|i: int| 0 <= i < final(self).nodes@.len() && i != node ==> final(self).nodes@[i] == old(self).nodes@[i],
            final(self).nodes@[node as int].destroyed,
            final(self).nodes@[node as int].parent == old(self).nodes@[node as int].parent,
            final(self).nodes@[node as int].children@ == old(self).nodes@[node as int].children@,
            final(self).nodes@[node as int].destroy_notified == old(self).nodes@[node as int].destroy_notified,
            final(self).nodes@[node as int].destroy_processed == old(self).nodes@[node as int].destroy_processed,
    {
        let mut n = self.take_node(node);
        n.destroyed = true;
        self.put_node(node, n);
    }

    fn take_node(&mut self, node: NodeId) -> (r: SceneNode)
        requires
            node < old(self).nodes@.len(),
        ensures
            r == old(self).nodes@[node as int],
            final(self).nodes@ == old(self).nodes@.update(node as int, final(self).nodes@[node as int]),
            final(self).nodes@.len() == old(self).nodes@.len(),
    {
        let placeholder = SceneNode {
            parent: None,
            children: Vec::new(),
            destroyed: false,
            destroy_notified: false,
            destroy_processed: false,
            tags: Vec::new(),
        };
        let mut tmp = placeholder;
        std::mem::swap(&mut tmp, &mut self.nodes[node]);
        proof {
            assert(self.nodes@ =~= old(self).nodes@.update(node as int, self.nodes@[node as int]));
        }
        tmp
    }

    fn put_node(&mut self, node: NodeId, n: SceneNode)
        requires
            node < old(self).nodes@.len(),
        ensures
            final(self).nodes@ == old(self).nodes@.update(node as int, n),
    {
        self.nodes.set(node, n);
    }
}

/// `children` without `child`.
pub open spec fn without(children: Seq<NodeId>, child: NodeId) -> Seq<NodeId> {
    children.filter(other_than(child))
}

pub open spec fn other_than(child: NodeId) -> spec_fn(NodeId) -> bool {
    |c: NodeId| c != child
}

fn remove_child(children: &Vec<NodeId>, child: NodeId) -> (r: Vec<NodeId>)
    ensures
        r@ == without(children@, child),
{
    let mut out: Vec<NodeId> = Vec::new();
    let mut i: usize = 0;
    while i < children.len()
        invariant
            i <= children@.len(),
            out@ == children@.take(i as int).filter(other_than(child)),
        decreases children.len() - i,
    {
        reveal_with_fuel(Seq::<_>::filter, 1);
        if children[i] != child {
            out.push(children[i]);
        }
        assert(children@.take(i + 1).drop_last() =~= children@.take(i as int));
        i = i + 1;
    }
    assert(children@.take(children@.len() as int) =~= children@);
    assert(out@ == without(children@, child));
    out
}

proof fn lemma_without_in(children: Seq<NodeId>, child: NodeId, bound: int)
    requires
        forall|j: int| 0 <= j < children.len() ==> children[j] < bound,
    ensures
        forall|j: int| 0 <= j < without(children, child).len() ==> (#[trigger] without(children, child)[j]) < bound,
{
    let f = other_than(child);
    assert forall|j: int| 0 <= j < without(children, child).len() implies (#[trigger] without(children, child)[j]) < bound by {
        let e = without(children, child)[j];
        assert(without(children, child).contains(e));
        children.lemma_filter_contains_rev(f, e);
        let k = choose|k: int| 0 <= k < children.len() && children[k] == e;
    }
}

impl NodeTree {
    /// Removes the node from its parent's children and clears its parent.
    pub fn detach(&mut self, node: NodeId)
        requires
            node < old(self).nodes@.len(),
            links_ok(old(self).nodes@),
        ensures
            links_ok(final(self).nodes@),
            final(self).nodes@.len() == old(self).nodes@.len(),
            final(self).nodes@[node as int].parent is None,
            final(self).nodes@[node as int].children@ == old(self).nodes@[node as int].children@,
            final(self).nodes@[node as int].destroyed == old(self).nodes@[node as int].destroyed,
            final(self).nodes@[node as int].destroy_notified == old(self).nodes@[node as int].destroy_notified,
            final(self).nodes@[node as int].destroy_processed == old(self).nodes@[node as int].destroy_processed,
            final(self).nodes@[node as int].tags == old(self).nodes@[node as int].tags,
            forall|i: int| #![trigger final(self).nodes@[i]] 0 <= i < final(self).nodes@.len() && i != node ==> {
                &&& final(self).nodes@[i].tags == old(self).nodes@[i].tags
                &&& final(self).nodes@[i].destroyed == old(self).nodes@[i].destroyed
                &&& final(self).nodes@[i].destroy_processed == old(self).nodes@[i].destroy_processed
                &&& final(self).nodes@[i].destroy_notified == old(self).nodes@[i].destroy_notified
                &&& final(self).nodes@[i].parent == old(self).nodes@[i].parent
                &&& final(self).nodes@[i].children@ == (if old(self).nodes@[node as int].parent matches Some(p) && p == i {
                    without(old(self).nodes@[i].children@, node)
                } else {
                    old(self).nodes@[i].children@
                })
            },
    {
        let ghost n0 = self.nodes@;
        match self.nodes[node].parent {
            Some(p) => {
                if p != node {
                    let mut pn = self.take_node(p);
                    let kept = remove_child(&pn.children, node);
                    proof { lemma_without_in(pn.children@, node, n0.len() as int); }
                    pn.children = kept;
                    self.put_node(p, pn);
                }
            },
            None => {},
        }
        let ghost n1 = self.nodes@;
        let mut n = self.take_node(node);
        if n.parent == Some(node) {
            proof { lemma_without_in(n.children@, node, n0.len() as int); }
        }
        n.parent = None;
        self.put_node(node, n);
        assert(links_ok(self.nodes@)) by {
            assert forall|i: int| #![trigger self.nodes@[i]] 0 <= i < self.nodes@.len() implies {
                &&& (self.nodes@[i].parent matches Some(q) ==> q < self.nodes@.len())
                &&& forall|j: int| 0 <= j < self.nodes@[i].children@.len() ==> (#[trigger] self.nodes@[i].children@[j]) < self.nodes@.len()
            } by {
                assert(n0[i] == n0[i]);
            }
        }
    }
}

pub struct Scene;

impl Scene {
    /// Destroyed nodes of the subtree at `root` not yet processed, leaves before parents.
    pub fn collect_destroyed_post_order(tree: &NodeTree, root: NodeId) -> (r: Vec<NodeId>)
        requires
            links_ok(tree.nodes@),
        ensures
            r@ == post_order(tree.nodes@, root as int, tree.nodes@.len() as nat),
    {
        let mut out: Vec<NodeId> = Vec::new();
        Self::collect_destroyed_recursive(tree, root, tree.nodes.len(), &mut out);
        out
    }

    pub fn collect_destroyed_recursive(tree: &NodeTree, node: NodeId, fuel: usize, out: &mut Vec<NodeId>)
        requires
            links_ok(tree.nodes@),
        ensures
            final(out)@ == old(out)@ + post_order(tree.nodes@, node as int, fuel as nat),
        decreases fuel, 0nat,
    {
        if fuel == 0 || node >= tree.nodes.len() {
            assert(final(out)@ =~= old(out)@ + post_order(tree.nodes@, node as int, fuel as nat)) by {
                assert(post_order(tree.nodes@, node as int, fuel as nat) =~= Seq::<NodeId>::empty());
            }
            return;
        }
        let children = &tree.nodes[node].children;
        let mut k: usize = 0;
        while k < children.len()
            invariant
                links_ok(tree.nodes@),
                node < tree.nodes@.len(),
                fuel > 0,
                *children == tree.nodes@[node as int].children,
                k <= children@.len(),
                out@ == old(out)@ + children_post_order(tree.nodes@, children@, k as int, (fuel - 1) as nat),
            decreases children.len() - k,
        {
            Self::collect_destroyed_recursive(tree, children[k], fuel - 1, out);
            k = k + 1;
            assert(out@ =~= old(out)@ + children_post_order(tree.nodes@, children@, k as int, (fuel - 1) as nat));
        }
        let n = &tree.nodes[node];
        if n.destroyed && !n.destroy_processed {
            out.push(node);
        }
        assert(out@ =~= old(out)@ + post_order(tree.nodes@, node as int, fuel as nat));
    }

    /// Consumes the node's destruction notice: true once, for a destroyed node.
    pub fn take_destroy_notification(tree: &mut NodeTree, node: NodeId) -> (r: bool)
        requires
            node < old(tree).nodes@.len(),
        ensures
            r == notification_due(old(tree).nodes@[node as int]),
            final(tree).nodes@.len() == old(tree).nodes@.len(),
            forall|i: int| 0 <= i < final(tree).nodes@.len() && i != node ==> final(tree).nodes@[i] == old(tree).nodes@[i],
            final(tree).nodes@[node as int] == (SceneNode {
                destroy_notified: old(tree).nodes@[node as int].destroy_notified || r,
                ..old(tree).nodes@[node as int]
            }),
    {
        if !tree.nodes[node].destroyed || tree.nodes[node].destroy_notified {
            return false;
        }
        let mut n = tree.take_node(node);
        n.destroy_notified = true;
        tree.put_node(node, n);
        true
    }
}


impl NodeTree {
    /// Makes `child` the last child of `parent`, detaching it from its former parent.
    pub fn add_child(&mut self, parent: NodeId, child: NodeId)
        requires
            parent < old(self).nodes@.len(),
            child < old(self).nodes@.len(),
            parent != child,
            links_ok(old(self).nodes@),
        ensures
            links_ok(final(self).nodes@),
            final(self).nodes@.len() == old(self).nodes@.len(),
            final(self).nodes@[child as int].parent == Some(parent),
            forall|i: int| #![trigger final(self).nodes@[i]] 0 <= i < final(self).nodes@.len() ==> {
                &&& final(self).nodes@[i].destroyed == old(self).nodes@[i].destroyed
                &&& final(self).nodes@[i].destroy_processed == old(self).nodes@[i].destroy_processed
                &&& final(self).nodes@[i].destroy_notified == old(self).nodes@[i].destroy_notified
                &&& (i != child ==> final(self).nodes@[i].parent == old(self).nodes@[i].parent)
                &&& final(self).nodes@[i].children@ == {
                    let kept = if i != child && (old(self).nodes@[child as int].parent matches Some(p) && p == i) {
                        without(old(self).nodes@[i].children@, child)
                    } else {
                        old(self).nodes@[i].children@
                    };
                    if i == parent { kept.push(child) } else { kept }
                }
            },
    {
        self.detach(child);
        let ghost n1 = self.nodes@;
        let mut pn = self.take_node(parent);
        pn.children.push(child);
        self.put_node(parent, pn);
        let ghost n2 = self.nodes@;
        let mut cn = self.take_node(child);
        cn.parent = Some(parent);
        self.put_node(child, cn);
        assert(links_ok(self.nodes@)) by {
            assert forall|i: int| #![trigger self.nodes@[i]] 0 <= i < self.nodes@.len() implies {
                &&& (self.nodes@[i].parent matches Some(q) ==> q < self.nodes@.len())
                &&& forall|j: int| 0 <= j < self.nodes@[i].children@.len() ==> (#[trigger] self.nodes@[i].children@[j]) < self.nodes@.len()
            } by {
                assert(n1[i] == n1[i]);
            }
        }
        assert forall|i: int| #![trigger self.nodes@[i]] 0 <= i < self.nodes@.len() implies {
            &&& self.nodes@[i].destroyed == old(self).nodes@[i].destroyed
            &&& self.nodes@[i].destroy_processed == old(self).nodes@[i].destroy_processed
            &&& self.nodes@[i].destroy_notified == old(self).nodes@[i].destroy_notified
            &&& (i != child ==> self.nodes@[i].parent == old(self).nodes@[i].parent)
            &&& self.nodes@[i].children@ == {
                let kept = if i != child && (old(self).nodes@[child as int].parent matches Some(p) && p == i) {
                    without(old(self).nodes@[i].children@, child)
                } else {
                    old(self).nodes@[i].children@
                };
                if i == parent { kept.push(child) } else { kept }
            }
        } by {
            assert(n1[i] == n1[i]);
            assert(n2[i] == n2[i]);
        }
    }

    /// Marks `node` and all its descendants destroyed.
    pub fn destroy(&mut self, node: NodeId)
        requires
            node < old(self).nodes@.len(),
            links_ok(old(self).nodes@),
        ensures
            links_ok(final(self).nodes@),
            final(self).nodes@.len() == old(self).nodes@.len(),
            forall|i: int| #![trigger final(self).nodes@[i]] 0 <= i < final(self).nodes@.len() ==> {
                &&& final(self).nodes@[i].parent == old(self).nodes@[i].parent
                &&& final(self).nodes@[i].children@ == old(self).nodes@[i].children@
                &&& final(self).nodes@[i].destroy_processed == old(self).nodes@[i].destroy_processed
                &&& final(self).nodes@[i].destroy_notified == old(self).nodes@[i].destroy_notified
                &&& final(self).nodes@[i].destroyed == (old(self).nodes@[i].destroyed
                    || in_subtree(child_lists(old(self).nodes@), node as int, i, old(self).nodes@.len() as nat))
            },
    {
        let depth = self.nodes.len();
        self.destroy_subtree(node, depth);
    }

    /// Marks `node` and, `fuel` levels down, its descendants destroyed.
    fn destroy_subtree(&mut self, node: NodeId, fuel: usize)
        requires
            node < old(self).nodes@.len(),
            links_ok(old(self).nodes@),
        ensures
            links_ok(final(self).nodes@),
            final(self).nodes@.len() == old(self).nodes@.len(),
            forall|i: int| #![trigger final(self).nodes@[i]] 0 <= i < final(self).nodes@.len() ==> {
                &&& final(self).nodes@[i].parent == old(self).nodes@[i].parent
                &&& final(self).nodes@[i].children@ == old(self).nodes@[i].children@
                &&& final(self).nodes@[i].destroy_processed == old(self).nodes@[i].destroy_processed
                &&& final(self).nodes@[i].destroy_notified == old(self).nodes@[i].destroy_notified
                &&& final(self).nodes@[i].destroyed == (old(self).nodes@[i].destroyed
                    || in_subtree(child_lists(old(self).nodes@), node as int, i, fuel as nat))
            },
        decreases fuel,
    {
        let ghost links = child_lists(old(self).nodes@);
        self.set_destroyed(node);
        assert(links_ok(self.nodes@)) by {
            assert forall|i: int| #![trigger self.nodes@[i]] 0 <= i < self.nodes@.len() implies {
                &&& (self.nodes@[i].parent matches Some(q) ==> q < self.nodes@.len())
                &&& forall|j: int| 0 <= j < self.nodes@[i].children@.len() ==> (#[trigger] self.nodes@[i].children@[j]) < self.nodes@.len()
            } by {
                assert(old(self).nodes@[i] == old(self).nodes@[i]);
            }
        }
        assert(child_lists(self.nodes@) =~= links);
        if fuel == 0 {
            assert forall|i: int| #![trigger self.nodes@[i]] 0 <= i < self.nodes@.len() implies
                self.nodes@[i].destroyed == (old(self).nodes@[i].destroyed || in_subtree(links, node as int, i, fuel as nat)) by {
                assert(old(self).nodes@[i] == old(self).nodes@[i]);
            }
            return;
        }
        let children = self.nodes[node].children.clone();
        assert(links[node as int] == children@);
        let mut k: usize = 0;
        while k < children.len()
            invariant
                links_ok(self.nodes@),
                fuel > 0,
                node < self.nodes@.len(),
                self.nodes@.len() == old(self).nodes@.len(),
                links == child_lists(old(self).nodes@),
                child_lists(self.nodes@) == links,
                children@ == links[node as int],
                k <= children@.len(),
                forall|j: int| 0 <= j < children@.len() ==> children@[j] < self.nodes@.len(),
                forall|i: int| #![trigger self.nodes@[i]] 0 <= i < self.nodes@.len() ==> {
                    &&& self.nodes@[i].parent == old(self).nodes@[i].parent
                    &&& self.nodes@[i].children@ == old(self).nodes@[i].children@
                    &&& self.nodes@[i].destroy_processed == old(self).nodes@[i].destroy_processed
                    &&& self.nodes@[i].destroy_notified == old(self).nodes@[i].destroy_notified
                    &&& self.nodes@[i].destroyed == (old(self).nodes@[i].destroyed || i == node
                        || in_some_subtree(links, children@, k as int, i, (fuel - 1) as nat))
                },
            decreases children.len() - k,
        {
            let ghost before = self.nodes@;
            self.destroy_subtree(children[k], fuel - 1);
            assert forall|i: int| #![trigger self.nodes@[i]] 0 <= i < self.nodes@.len() implies
                self.nodes@[i].destroyed == (old(self).nodes@[i].destroyed || i == node
                    || in_some_subtree(links, children@, k + 1, i, (fuel - 1) as nat)) by {
                assert(before[i] == before[i]);
            }
            assert(child_lists(self.nodes@) =~= links) by {
                assert forall|i: int| 0 <= i < self.nodes@.len() implies #[trigger] child_lists(self.nodes@)[i] == links[i] by {
                    assert(self.nodes@[i] == self.nodes@[i]);
                    assert(before[i] == before[i]);
                }
            }
            k = k + 1;
        }
        assert forall|i: int| #![trigger self.nodes@[i]] 0 <= i < self.nodes@.len() implies
            self.nodes@[i].destroyed == (old(self).nodes@[i].destroyed || in_subtree(links, node as int, i, fuel as nat)) by {
            assert(self.nodes@[i] == self.nodes@[i]);
            assert(links.len() == self.nodes@.len());
        }
    }
}

/// The children lists of a tree's nodes.
pub open spec fn child_lists(nodes: Seq<SceneNode>) -> Seq<Seq<NodeId>> {
    nodes.map_values(|n: SceneNode| n.children@)
}

/// `target` is `root` or, at most `depth` levels down, one of its descendants.
pub open spec fn in_subtree(links: Seq<Seq<NodeId>>, root: int, target: int, depth: nat) -> bool
    decreases depth, 0nat,
{
    0 <= root < links.len() && (root == target
        || (depth > 0 && in_some_subtree(links, links[root], links[root].len() as int, target, (depth - 1) as nat)))
}

/// `target` is in the subtree of one of the first `k` of `roots`.
pub open spec fn in_some_subtree(links: Seq<Seq<NodeId>>, roots: Seq<NodeId>, k: int, target: int, depth: nat) -> bool
    decreases depth, 1nat, k,
{
    if k <= 0 || k > roots.len() {
        false
    } else {
        in_some_subtree(links, roots, k - 1, target, depth) || in_subtree(links, roots[k - 1] as int, target, depth)
    }
}

impl Scene {
    /// Detaches a destroyed node and marks its destruction processed; it keeps its
    /// `destroyed` state.
    pub fn detach_destroyed(tree: &mut NodeTree, node: NodeId)
        requires
            node < old(tree).nodes@.len(),
            links_ok(old(tree).nodes@),
        ensures
            links_ok(final(tree).nodes@),
            final(tree).nodes@.len() == old(tree).nodes@.len(),
            final(tree).nodes@[node as int].parent is None,
            final(tree).nodes@[node as int].destroy_processed,
            final(tree).nodes@[node as int].destroyed == old(tree).nodes@[node as int].destroyed,
            final(tree).nodes@[node as int].destroy_notified == old(tree).nodes@[node as int].destroy_notified,
            final(tree).nodes@[node as int].tags == old(tree).nodes@[node as int].tags,
            final(tree).nodes@[node as int].children@ == old(tree).nodes@[node as int].children@,
            forall|i: int| #![trigger final(tree).nodes@[i]] 0 <= i < final(tree).nodes@.len() && i != node ==> {
                &&& final(tree).nodes@[i].tags == old(tree).nodes@[i].tags
                &&& final(tree).nodes@[i].destroyed == old(tree).nodes@[i].destroyed
                &&& final(tree).nodes@[i].destroy_processed == old(tree).nodes@[i].destroy_processed
                &&& final(tree).nodes@[i].destroy_notified == old(tree).nodes@[i].destroy_notified
                &&& final(tree).nodes@[i].parent == old(tree).nodes@[i].parent
                &&& final(tree).nodes@[i].children@ == (if old(tree).nodes@[node as int].parent matches Some(p) && p == i {
                    without(old(tree).nodes@[i].children@, node)
                } else {
                    old(tree).nodes@[i].children@
                })
            },
    {
        tree.detach(node);
        let ghost n1 = tree.nodes@;
        let mut n = tree.take_node(node);
        n.destroy_processed = true;
        tree.put_node(node, n);
        assert(links_ok(tree.nodes@)) by {
            assert forall|i: int| #![trigger tree.nodes@[i]] 0 <= i < tree.nodes@.len() implies {
                &&& (tree.nodes@[i].parent matches Some(q) ==> q < tree.nodes@.len())
                &&& forall|j: int| 0 <= j < tree.nodes@[i].children@.len() ==> (#[trigger] tree.nodes@[i].children@[j]) < tree.nodes@.len()
            } by {
                assert(n1[i] == n1[i]);
            }
        }
    }

    /// Whether some tag of `wanted` is also one of `have`.
    pub open spec fn shares_tag(wanted: Seq<String>, have: Seq<String>) -> bool {
        exists|i: int, j: int| 0 <= i < wanted.len() && 0 <= j < have.len() && (#[trigger] wanted[i])@ == (#[trigger] have[j])@
    }

    /// With no filter every node matches; else a node matches when it has one of the tags.
    pub fn tags_match(tree: &NodeTree, node: NodeId, filter: Option<&Vec<String>>) -> (r: bool)
        requires
            node < tree.nodes@.len(),
        ensures
            r == match filter {
                None => true,
                Some(tags) => Self::shares_tag(tags@, tree.nodes@[node as int].tags@),
            },
    {
        let tags = match filter {
            None => {
                return true;
            },
            Some(t) => t,
        };
        assert(filter == Some(tags));
        let node_tags = &tree.nodes[node].tags;
        let mut i: usize = 0;
        while i < tags.len()
            invariant
                i <= tags@.len(),
                filter == Some(tags),
                node < tree.nodes@.len(),
                *node_tags == tree.nodes@[node as int].tags,
                forall|a: int, b: int| 0 <= a < i && 0 <= b < node_tags@.len() ==> (#[trigger] tags@[a])@ != (#[trigger] node_tags@[b])@,
            decreases tags.len() - i,
        {
            let mut j: usize = 0;
            while j < node_tags.len()
                invariant
                    i < tags@.len(),
                    j <= node_tags@.len(),
                    filter == Some(tags),
                    node < tree.nodes@.len(),
                    *node_tags == tree.nodes@[node as int].tags,
                    forall|b: int| 0 <= b < j ==> tags@[i as int]@ != (#[trigger] node_tags@[b])@,
                decreases node_tags.len() - j,
            {
                if tags[i] == node_tags[j] {
                    assert(tags@[i as int]@ == node_tags@[j as int]@);
                    assert(Self::shares_tag(tags@, node_tags@));
                    return true;
                }
                j = j + 1;
            }
            i = i + 1;
        }
        false
    }
}

/// Following the links of a union-find array from `index` for at most `fuel` steps.
pub open spec fn find_group(groups: Seq<usize>, index: int, fuel: nat) -> int
    decreases fuel,
{
    if fuel == 0 || !(0 <= index < groups.len()) || groups[index] == index {
        index
    } else {
        find_group(groups, groups[index] as int, (fuel - 1) as nat)
    }
}

/// The root of `index` in a union-find array whose links form a forest.
pub fn contact_group(groups: &Vec<usize>, index: usize) -> (r: usize)
    requires
        index < groups@.len(),
        forall|i: int| 0 <= i < groups@.len() ==> #[trigger] groups@[i] < groups@.len(),
        ({
            let root = find_group(groups@, index as int, groups@.len() as nat);
            groups@[root] == root
        }),
    ensures
        r == find_group(groups@, index as int, groups@.len() as nat),
        groups@[r as int] == r,
{
    let ghost start = index as int;
    let mut index = index;
    let mut fuel = groups.len();
    while groups[index] != index
        invariant
            index < groups@.len(),
            forall|i: int| 0 <= i < groups@.len() ==> #[trigger] groups@[i] < groups@.len(),
            find_group(groups@, index as int, fuel as nat) == find_group(groups@, start, groups@.len() as nat),
            groups@[find_group(groups@, index as int, fuel as nat)] == find_group(groups@, index as int, fuel as nat),
        decreases fuel,
    {
        assert(fuel > 0);
        index = groups[index];
        fuel = fuel - 1;
    }
    index
}

/// Every index of `ids` names a destroyed node whose destruction is not yet processed.
pub open spec fn all_pending(nodes: Seq<SceneNode>, ids: Seq<NodeId>) -> bool {
    forall|j: int| #![trigger ids[j]] 0 <= j < ids.len() ==> {
        &&& ids[j] < nodes.len()
        &&& nodes[ids[j] as int].destroyed
        &&& !nodes[ids[j] as int].destroy_processed
    }
}

/// Whether a node's destruction is still to be announced.
pub open spec fn notification_due(n: SceneNode) -> bool {
    n.destroyed && !n.destroy_notified
}

/// The collection holds only destroyed nodes whose destruction is not yet processed.
pub proof fn lemma_collected_nodes_are_pending(nodes: Seq<SceneNode>, root: int, fuel: nat)
    requires
        nodes.len() <= usize::MAX,
    ensures
        all_pending(nodes, post_order(nodes, root, fuel)),
    decreases fuel, 0nat,
{
    if fuel == 0 || !(0 <= root < nodes.len()) {
        assert(post_order(nodes, root, fuel) =~= Seq::<NodeId>::empty());
    } else {
        let kids = nodes[root].children@;
        lemma_children_collected_are_pending(nodes, kids, kids.len() as int, (fuel - 1) as nat);
        let a = children_post_order(nodes, kids, kids.len() as int, (fuel - 1) as nat);
        let own = if nodes[root].destroyed && !nodes[root].destroy_processed {
            seq![root as NodeId]
        } else {
            Seq::empty()
        };
        assert(post_order(nodes, root, fuel) == a + own);
        assert forall|j: int| 0 <= j < (a + own).len() implies {
            &&& #[trigger] (a + own)[j] < nodes.len()
            &&& nodes[(a + own)[j] as int].destroyed
            &&& !nodes[(a + own)[j] as int].destroy_processed
        } by {
            if j < a.len() {
                assert((a + own)[j] == a[j]);
            } else {
                assert((a + own)[j] == own[j - a.len()]);
                assert(own[j - a.len()] == root as NodeId);
            }
        }
    }
}

/// `lemma_collected_nodes_are_pending` for the first `k` children.
pub proof fn lemma_children_collected_are_pending(nodes: Seq<SceneNode>, children: Seq<NodeId>, k: int, fuel: nat)
    requires
        nodes.len() <= usize::MAX,
    ensures
        all_pending(nodes, children_post_order(nodes, children, k, fuel)),
    decreases fuel, 1nat, k,
{
    if k <= 0 || k > children.len() {
        assert(children_post_order(nodes, children, k, fuel) =~= Seq::<NodeId>::empty());
    } else {
        lemma_children_collected_are_pending(nodes, children, k - 1, fuel);
        lemma_collected_nodes_are_pending(nodes, children[k - 1] as int, fuel);
        let a = children_post_order(nodes, children, k - 1, fuel);
        let b = post_order(nodes, children[k - 1] as int, fuel);
        assert(children_post_order(nodes, children, k, fuel) == a + b);
        assert forall|j: int| 0 <= j < (a + b).len() implies {
            &&& #[trigger] (a + b)[j] < nodes.len()
            &&& nodes[(a + b)[j] as int].destroyed
            &&& !nodes[(a + b)[j] as int].destroy_processed
        } by {
            if j < a.len() {
                assert((a + b)[j] == a[j]);
            } else {
                assert((a + b)[j] == b[j - a.len()]);
            }
        }
    }
}

/// A node whose destruction was processed is never collected again, from any root.
pub proof fn lemma_processed_node_not_collected(nodes: Seq<SceneNode>, node: NodeId, root: int, fuel: nat)
    requires
        nodes.len() <= usize::MAX,
        node < nodes.len(),
        nodes[node as int].destroy_processed,
    ensures
        !post_order(nodes, root, fuel).contains(node),
{
    lemma_collected_nodes_are_pending(nodes, root, fuel);
    if post_order(nodes, root, fuel).contains(node) {
        let j = choose|j: int| 0 <= j < post_order(nodes, root, fuel).len() && post_order(nodes, root, fuel)[j] == node;
        assert(post_order(nodes, root, fuel)[j] == node);
    }
}

/// A destruction is announced at most once: after a node's notice was taken, none is due.
pub proof fn lemma_destroy_notification_once(before: SceneNode, after: SceneNode)
    requires
        after.destroyed == before.destroyed,
        after.destroy_notified == (before.destroy_notified || notification_due(before)),
    ensures
        !(notification_due(before) && notification_due(after)),
{
}

/// The `k`-th ancestor of node `x` by parent links, or -1 where the chain ends first.
pub open spec fn ancestor(nodes: Seq<SceneNode>, x: int, k: nat) -> int
    decreases k,
{
    if k == 0 {
        x
    } else if 0 <= x < nodes.len() && nodes[x].parent is Some {
        ancestor(nodes, nodes[x].parent->0 as int, (k - 1) as nat)
    } else {
        -1
    }
}

/// The links form a forest: every child names its parent back, no child list repeats a
/// node, and no node is its own ancestor.
pub open spec fn forest_ok(nodes: Seq<SceneNode>) -> bool {
    &&& nodes.len() <= usize::MAX
    &&& links_ok(nodes)
    &&& forall|i: int, j: int| 0 <= i < nodes.len() && 0 <= j < nodes[i].children@.len() ==>
        nodes[#[trigger] nodes[i].children@[j] as int].parent == Some(i as NodeId)
    &&& forall|i: int, j: int, k: int| #![trigger nodes[i].children@[j], nodes[i].children@[k]]
        0 <= i < nodes.len() && 0 <= j < k < nodes[i].children@.len() ==> nodes[i].children@[j] != nodes[i].children@[k]
    &&& forall|x: int| 0 <= x < nodes.len() && nodes[x].parent is Some
        ==> #[trigger] nodes[nodes[x].parent->0 as int].children@.contains(x as NodeId)
    &&& forall|x: int, k: nat| 0 <= x < nodes.len() && k > 0 ==> #[trigger] ancestor(nodes, x, k) != x
}

proof fn lemma_ancestor_compose(nodes: Seq<SceneNode>, x: int, i: nat, j: nat)
    ensures
        ancestor(nodes, x, i + j) == ancestor(nodes, ancestor(nodes, x, i), j),
    decreases i,
{
    if i > 0 {
        if 0 <= x < nodes.len() && nodes[x].parent is Some {
            lemma_ancestor_compose(nodes, nodes[x].parent->0 as int, (i - 1) as nat, j);
            assert((i - 1) as nat + j == (i + j - 1) as nat);
        } else {
            lemma_ancestor_of_end(nodes, j);
        }
    }
}

proof fn lemma_ancestor_of_end(nodes: Seq<SceneNode>, j: nat)
    ensures
        ancestor(nodes, -1, j) == -1,
{
}

/// A node collected from the first `k` children comes from one of them.
proof fn lemma_children_member(nodes: Seq<SceneNode>, children: Seq<NodeId>, k: int, fuel: nat, x: NodeId)
    requires
        children_post_order(nodes, children, k, fuel).contains(x),
    ensures
        exists|j: int| 0 <= j < k && j < children.len() && #[trigger] post_order(nodes, children[j] as int, fuel).contains(x),
    decreases k,
{
    if 0 < k <= children.len() {
        let a = children_post_order(nodes, children, k - 1, fuel);
        let b = post_order(nodes, children[k - 1] as int, fuel);
        let i = choose|i: int| 0 <= i < (a + b).len() && (a + b)[i] == x;
        if i < a.len() {
            assert(a[i] == x);
            lemma_children_member(nodes, children, k - 1, fuel, x);
        } else {
            assert(b[i - a.len()] == x);
            assert(post_order(nodes, children[k - 1] as int, fuel).contains(x));
        }
    }
}

/// A node collected from the subtree at `n` has `n` among its ancestors.
proof fn lemma_collected_descends(nodes: Seq<SceneNode>, n: int, fuel: nat, x: NodeId)
    requires
        forest_ok(nodes),
        post_order(nodes, n, fuel).contains(x),
    ensures
        exists|k: nat| #[trigger] ancestor(nodes, x as int, k) == n,
    decreases fuel,
{
    if fuel > 0 && 0 <= n < nodes.len() {
        let kids = nodes[n].children@;
        let a = children_post_order(nodes, kids, kids.len() as int, (fuel - 1) as nat);
        let own = if nodes[n].destroyed && !nodes[n].destroy_processed { seq![n as NodeId] } else { Seq::empty() };
        assert(post_order(nodes, n, fuel) == a + own);
        let i = choose|i: int| 0 <= i < (a + own).len() && (a + own)[i] == x;
        if i < a.len() {
            assert(a[i] == x);
            lemma_children_member(nodes, kids, kids.len() as int, (fuel - 1) as nat, x);
            let j = choose|j: int| 0 <= j < kids.len() && #[trigger] post_order(nodes, kids[j] as int, (fuel - 1) as nat).contains(x);
            lemma_collected_descends(nodes, kids[j] as int, (fuel - 1) as nat, x);
            let k = choose|k: nat| #[trigger] ancestor(nodes, x as int, k) == kids[j] as int;
            lemma_ancestor_compose(nodes, x as int, k, 1);
            reveal_with_fuel(ancestor, 2);
            assert(nodes[kids[j] as int].parent == Some(n as NodeId));
            assert(ancestor(nodes, x as int, k + 1) == n);
        } else {
            assert(own[i - a.len()] == x);
            assert(ancestor(nodes, x as int, 0) == n);
        }
    }
}

/// Two children of one parent that a node descends from are the same child.
proof fn lemma_siblings_disjoint(nodes: Seq<SceneNode>, n: int, a: int, b: int, x: int, ka: nat, kb: nat)
    requires
        forest_ok(nodes),
        0 <= n < nodes.len(),
        0 <= a < nodes.len(),
        0 <= b < nodes.len(),
        nodes[a].parent == Some(n as NodeId),
        nodes[b].parent == Some(n as NodeId),
        ancestor(nodes, x, ka) == a,
        ancestor(nodes, x, kb) == b,
    ensures
        a == b,
{
    lemma_siblings_order(nodes, n, a, b, x, ka, kb);
    lemma_siblings_order(nodes, n, b, a, x, kb, ka);
}

/// A child of `n` is reached from a node no sooner than another child of `n`.
proof fn lemma_siblings_order(nodes: Seq<SceneNode>, n: int, a: int, b: int, x: int, ka: nat, kb: nat)
    requires
        forest_ok(nodes),
        0 <= n < nodes.len(),
        0 <= a < nodes.len(),
        0 <= b < nodes.len(),
        nodes[a].parent == Some(n as NodeId),
        nodes[b].parent == Some(n as NodeId),
        ancestor(nodes, x, ka) == a,
        ancestor(nodes, x, kb) == b,
    ensures
        kb <= ka,
{
    if ka < kb {
        reveal_with_fuel(ancestor, 2);
        lemma_ancestor_compose(nodes, x, ka, 1);
        assert(ancestor(nodes, x, ka + 1) == n);
        let d = (kb - ka - 1) as nat;
        lemma_ancestor_compose(nodes, x, ka + 1, d);
        assert((ka + 1) as nat + d == kb);
        assert(ancestor(nodes, n, d) == b);
        lemma_ancestor_compose(nodes, n, d, 1);
        assert(ancestor(nodes, n, d + 1) == n);
    }
}

/// The collection from the first `k` children of `n` names no node twice, and each of
/// them descends from one of those children.
proof fn lemma_children_collected_once(nodes: Seq<SceneNode>, n: int, k: int, fuel: nat)
    requires
        forest_ok(nodes),
        0 <= n < nodes.len(),
        0 <= k <= nodes[n].children@.len(),
    ensures
        children_post_order(nodes, nodes[n].children@, k, fuel).no_duplicates(),
    decreases fuel, 1nat, k,
{
    let kids = nodes[n].children@;
    if k > 0 {
        lemma_children_collected_once(nodes, n, k - 1, fuel);
        lemma_collected_once(nodes, kids[k - 1] as int, fuel);
        let a = children_post_order(nodes, kids, k - 1, fuel);
        let b = post_order(nodes, kids[k - 1] as int, fuel);
        assert forall|i: int, j: int| 0 <= i < a.len() && 0 <= j < b.len() implies a[i] != b[j] by {
            if a[i] == b[j] {
                let x = a[i];
                assert(a.contains(x));
                assert(b.contains(x));
                lemma_children_member(nodes, kids, k - 1, fuel, x);
                let jj = choose|jj: int| 0 <= jj < k - 1 && jj < kids.len() && #[trigger] post_order(nodes, kids[jj] as int, fuel).contains(x);
                lemma_collected_descends(nodes, kids[jj] as int, fuel, x);
                lemma_collected_descends(nodes, kids[k - 1] as int, fuel, x);
                let ka = choose|ka: nat| #[trigger] ancestor(nodes, x as int, ka) == kids[jj] as int;
                let kb = choose|kb: nat| #[trigger] ancestor(nodes, x as int, kb) == kids[k - 1] as int;
                assert(kids[jj] != kids[k - 1]);
                assert(nodes[kids[jj] as int].parent == Some(n as NodeId));
                assert(nodes[kids[k - 1] as int].parent == Some(n as NodeId));
                lemma_siblings_disjoint(nodes, n, kids[jj] as int, kids[k - 1] as int, x as int, ka, kb);
            }
        }
        vstd::seq_lib::lemma_no_dup_in_concat(a, b);
    }
}

/// In a forest, the collection from a subtree names each node at most once, and every
/// node it names descends from the root of the subtree.
pub proof fn lemma_collected_once(nodes: Seq<SceneNode>, root: int, fuel: nat)
    requires
        forest_ok(nodes),
    ensures
        post_order(nodes, root, fuel).no_duplicates(),
        forall|x: NodeId| #[trigger] post_order(nodes, root, fuel).contains(x)
            ==> exists|k: nat| #[trigger] ancestor(nodes, x as int, k) == root,
    decreases fuel, 0nat,
{
    assert forall|x: NodeId| #[trigger] post_order(nodes, root, fuel).contains(x)
        implies exists|k: nat| #[trigger] ancestor(nodes, x as int, k) == root by {
        lemma_collected_descends(nodes, root, fuel, x);
    }
    if fuel > 0 && 0 <= root < nodes.len() {
        let kids = nodes[root].children@;
        let f = (fuel - 1) as nat;
        lemma_children_collected_once(nodes, root, kids.len() as int, f);
        let a = children_post_order(nodes, kids, kids.len() as int, f);
        let own = if nodes[root].destroyed && !nodes[root].destroy_processed { seq![root as NodeId] } else { Seq::empty() };
        assert(post_order(nodes, root, fuel) == a + own);
        assert forall|i: int, j: int| 0 <= i < a.len() && 0 <= j < own.len() implies a[i] != own[j] by {
            if a[i] == own[j] {
                let x = a[i];
                assert(a.contains(x));
                lemma_children_member(nodes, kids, kids.len() as int, f, x);
                let jj = choose|jj: int| 0 <= jj < kids.len() && #[trigger] post_order(nodes, kids[jj] as int, f).contains(x);
                lemma_collected_descends(nodes, kids[jj] as int, f, x);
                let k = choose|k: nat| #[trigger] ancestor(nodes, x as int, k) == kids[jj] as int;
                lemma_ancestor_compose(nodes, x as int, k, 1);
                reveal_with_fuel(ancestor, 2);
                assert(nodes[kids[jj] as int].parent == Some(root as NodeId));
                assert(ancestor(nodes, root, k + 1) == root);
            }
        }
        vstd::seq_lib::lemma_no_dup_in_concat(a, own);
    }
}

/// The ancestors of a node are nodes of the tree until the chain ends.
proof fn lemma_ancestor_range(nodes: Seq<SceneNode>, x: int, i: nat)
    requires
        links_ok(nodes),
        0 <= x < nodes.len(),
    ensures
        ancestor(nodes, x, i) == -1 || 0 <= ancestor(nodes, x, i) < nodes.len(),
    decreases i,
{
    if i > 0 && nodes[x].parent is Some {
        lemma_ancestor_range(nodes, nodes[x].parent->0 as int, (i - 1) as nat);
    }
}

/// In a forest, a node reaches each of its ancestors in fewer steps than there are nodes.
proof fn lemma_ancestor_depth(nodes: Seq<SceneNode>, x: int, k: nat)
    requires
        forest_ok(nodes),
        0 <= x < nodes.len(),
        ancestor(nodes, x, k) >= 0,
    ensures
        k < nodes.len(),
{
    let chain = Seq::new(k + 1, |i: int| ancestor(nodes, x, i as nat));
    assert forall|i: int| 0 <= i < chain.len() implies 0 <= #[trigger] chain[i] < nodes.len() by {
        lemma_ancestor_range(nodes, x, i as nat);
        lemma_ancestor_compose(nodes, x, i as nat, (k - i) as nat);
        if ancestor(nodes, x, i as nat) == -1 {
            lemma_ancestor_of_end(nodes, (k - i) as nat);
            assert(i as nat + (k - i) as nat == k);
        }
    }
    assert forall|i: int, j: int| 0 <= i < chain.len() && 0 <= j < chain.len() && i != j implies chain[i] != chain[j] by {
        if chain[i] == chain[j] {
            let (lo, hi) = if i < j { (i, j) } else { (j, i) };
            lemma_ancestor_compose(nodes, x, lo as nat, (hi - lo) as nat);
            assert(lo as nat + (hi - lo) as nat == hi as nat);
            let a = chain[lo];
            assert(0 <= a < nodes.len());
            assert(ancestor(nodes, a, (hi - lo) as nat) == a);
        }
    }
    assert(chain.no_duplicates());
    chain.unique_seq_to_set();
    vstd::set_lib::lemma_int_range(0, nodes.len() as int);
    assert(chain.to_set().subset_of(vstd::set_lib::set_int_range(0, nodes.len() as int))) by {
        assert forall|v: int| chain.to_set().contains(v) implies vstd::set_lib::set_int_range(0, nodes.len() as int).contains(v) by {
            let i = choose|i: int| 0 <= i < chain.len() && chain[i] == v;
        }
    }
    vstd::set_lib::lemma_len_subset(chain.to_set(), vstd::set_lib::set_int_range(0, nodes.len() as int));
}

/// A node collected from `children[j]` is collected from the first `k` children when `j < k`.
proof fn lemma_children_member_rev(nodes: Seq<SceneNode>, children: Seq<NodeId>, k: int, fuel: nat, j: int, x: NodeId)
    requires
        0 <= j < k <= children.len(),
        post_order(nodes, children[j] as int, fuel).contains(x),
    ensures
        children_post_order(nodes, children, k, fuel).contains(x),
    decreases k,
{
    let a = children_post_order(nodes, children, k - 1, fuel);
    let b = post_order(nodes, children[k - 1] as int, fuel);
    assert(children_post_order(nodes, children, k, fuel) == a + b);
    if j < k - 1 {
        lemma_children_member_rev(nodes, children, k - 1, fuel, j, x);
        let i = choose|i: int| 0 <= i < a.len() && a[i] == x;
        assert((a + b)[i] == x);
    } else {
        let i = choose|i: int| 0 <= i < b.len() && b[i] == x;
        assert((a + b)[a.len() + i] == x);
    }
}

/// A pending node `k` steps below `root` is collected with more than `k` levels of fuel.
proof fn lemma_pending_collected(nodes: Seq<SceneNode>, root: int, fuel: nat, x: NodeId, k: nat)
    requires
        forest_ok(nodes),
        0 <= x < nodes.len(),
        nodes[x as int].destroyed && !nodes[x as int].destroy_processed,
        ancestor(nodes, x as int, k) == root,
        0 <= root < nodes.len(),
        k < fuel,
    ensures
        post_order(nodes, root, fuel).contains(x),
    decreases k,
{
    let kids = nodes[root].children@;
    let a = children_post_order(nodes, kids, kids.len() as int, (fuel - 1) as nat);
    let own = if nodes[root].destroyed && !nodes[root].destroy_processed { seq![root as NodeId] } else { Seq::empty() };
    assert(post_order(nodes, root, fuel) == a + own);
    if k == 0 {
        assert(root == x);
        assert((a + own)[a.len() as int] == x);
    } else {
        let c = ancestor(nodes, x as int, (k - 1) as nat);
        lemma_ancestor_range(nodes, x as int, (k - 1) as nat);
        lemma_ancestor_compose(nodes, x as int, (k - 1) as nat, 1);
        assert((k - 1) as nat + 1 == k);
        if c == -1 {
            lemma_ancestor_of_end(nodes, 1);
        }
        assert(0 <= c < nodes.len());
        reveal_with_fuel(ancestor, 2);
        assert(nodes[c].parent == Some(root as NodeId));
        assert(kids.contains(c as NodeId));
        let j = choose|j: int| 0 <= j < kids.len() && kids[j] == c as NodeId;
        lemma_pending_collected(nodes, c, (fuel - 1) as nat, x, (k - 1) as nat);
        lemma_children_member_rev(nodes, kids, kids.len() as int, (fuel - 1) as nat, j, x);
        let i = choose|i: int| 0 <= i < a.len() && a[i] == x;
        assert((a + own)[i] == x);
    }
}

/// In a forest, collecting from `root` with a level of fuel per node lists exactly the
/// pending nodes of its subtree (the root included), each once, children before parents.
pub proof fn lemma_collects_pending_subtree(nodes: Seq<SceneNode>, root: int, x: NodeId)
    requires
        forest_ok(nodes),
        0 <= root < nodes.len(),
    ensures
        post_order(nodes, root, nodes.len() as nat).no_duplicates(),
        post_order(nodes, root, nodes.len() as nat).contains(x) <==> {
            &&& x < nodes.len()
            &&& nodes[x as int].destroyed
            &&& !nodes[x as int].destroy_processed
            &&& exists|k: nat| #[trigger] ancestor(nodes, x as int, k) == root
        },
{
    let f = nodes.len() as nat;
    lemma_collected_once(nodes, root, f);
    lemma_collected_nodes_are_pending(nodes, root, f);
    if post_order(nodes, root, f).contains(x) {
        let i = choose|i: int| 0 <= i < post_order(nodes, root, f).len() && post_order(nodes, root, f)[i] == x;
        assert(post_order(nodes, root, f)[i] == x);
    }
    if x < nodes.len() && nodes[x as int].destroyed && !nodes[x as int].destroy_processed
        && exists|k: nat| #[trigger] ancestor(nodes, x as int, k) == root {
        let k = choose|k: nat| #[trigger] ancestor(nodes, x as int, k) == root;
        lemma_ancestor_depth(nodes, x as int, k);
        lemma_pending_collected(nodes, root, f, x, k);
    }
}

} // verus!
