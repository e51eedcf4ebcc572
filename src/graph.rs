//! The scene graph as an arena of nodes with parent links and ordered child
//! lists. World transforms are read lazily as the chain of local transforms
//! from a node's root down to the node.

use vstd::prelude::*;

verus! {

/// Why a node could not be placed under a group.
#[derive(Clone, Copy, Debug, PartialEq, Eq, Structural)]
pub enum GraphError {
    /// One of the two handles names no node of the graph.
    UnknownNode,
    /// The intended parent is not a group.
    NotAGroup,
    /// The node already belongs to a group.
    AlreadyAttached,
    /// The intended parent lies inside the node's own subtree.
    WouldCycle,
}

/// The nodes from the root down to `n`, following `parents` while the depth
/// strictly falls.
spec fn path_in(parents: Seq<Option<usize>>, depth: Seq<nat>, n: usize) -> Seq<usize>
    decreases depth[n as int],
{
    match parents[n as int] {
        Some(p) => if depth[p as int] < depth[n as int] {
            path_in(parents, depth, p).push(n)
        } else {
            seq![n]
        },
        None => seq![n],
    }
}

/// An arena of scene nodes addressed by index. Each node holds its local
/// transform `M`; groups own an ordered list of children, and every node
/// knows its parent. The nodes form a forest.
pub struct SceneGraph<M> {
    locals: Vec<M>,
    parents: Vec<Option<usize>>,
    children: Vec<Vec<usize>>,
    groups: Vec<bool>,
    depth: Ghost<Seq<nat>>,
}

impl<M: Copy> SceneGraph<M> {
    /// The number of nodes.
    pub closed spec fn len_spec(&self) -> nat {
        self.locals@.len()
    }

    pub closed spec fn parent_of(&self, n: usize) -> Option<usize> {
        self.parents@[n as int]
    }

    pub closed spec fn children_of(&self, n: usize) -> Seq<usize> {
        self.children@[n as int]@
    }

    pub closed spec fn is_group_node(&self, n: usize) -> bool {
        self.groups@[n as int]
    }

    /// How many ancestors node `n` has.
    pub closed spec fn depth_of(&self, n: usize) -> nat {
        self.depth@[n as int]
    }

    pub closed spec fn local_of(&self, n: usize) -> M {
        self.locals@[n as int]
    }

    /// The nodes from the root of `n`'s tree down to `n` itself.
    pub closed spec fn path(&self, n: usize) -> Seq<usize> {
        path_in(self.parents@, self.depth@, n)
    }

    /// The local transforms from the root of `n`'s tree down to `n`; their
    /// product, outermost first, is `n`'s world transform.
    pub open spec fn chain(&self, n: usize) -> Seq<M> {
        self.path(n).map_values(|i: usize| self.local_of(i))
    }

    /// The root of the tree that holds `n`.
    pub open spec fn root_spec(&self, n: usize) -> usize {
        self.path(n)[0]
    }

    /// Well-formedness: parents and children agree, parents are groups, no
    /// child is listed twice, and the parent links are free of cycles.
    pub closed spec fn wf(&self) -> bool {
        let n = self.locals@.len();
        &&& self.parents@.len() == n
        &&& self.children@.len() == n
        &&& self.groups@.len() == n
        &&& self.depth@.len() == n
        &&& forall|x: int| 0 <= x < n ==> match #[trigger] self.parents@[x] {
            Some(p) => {
                &&& p < n
                &&& self.groups@[p as int]
                &&& self.depth@[x] == self.depth@[p as int] + 1
                &&& self.children@[p as int]@.contains(x as usize)
            },
            None => self.depth@[x] == 0,
        }
        &&& forall|p: int, i: int|
            0 <= p < n && 0 <= i < self.children@[p]@.len() ==> {
                &&& (#[trigger] self.children@[p]@[i]) < n
                &&& self.parents@[self.children@[p]@[i] as int] == Some(p as usize)
            }
        &&& forall|p: int, i: int, j: int|
            0 <= p < n && 0 <= i < j < self.children@[p]@.len() ==> #[trigger] self.children@[p]@[i]
                != #[trigger] self.children@[p]@[j]
    }

    /// An empty graph.
    pub fn new() -> (r: Self)
        ensures
            r.wf(),
            r.len_spec() == 0,
    {
        SceneGraph {
            locals: Vec::new(),
            parents: Vec::new(),
            children: Vec::new(),
            groups: Vec::new(),
            depth: Ghost(Seq::empty()),
        }
    }

    /// The number of nodes.
    pub fn len(&self) -> (r: usize)
        requires
            self.wf(),
        ensures
            r == self.len_spec(),
    {
        self.locals.len()
    }

    /// Adds a detached node with the given local transform; `group` says
    /// whether it may hold children. Returns its handle.
    pub fn insert(&mut self, local: M, group: bool) -> (id: usize)
        requires
            old(self).wf(),
            old(self).len_spec() < usize::MAX,
        ensures
            final(self).wf(),
            id == old(self).len_spec(),
            final(self).len_spec() == old(self).len_spec() + 1,
            final(self).local_of(id) == local,
            final(self).is_group_node(id) == group,
            final(self).parent_of(id).is_none(),
            final(self).children_of(id).len() == 0,
            forall|n: usize| n < id ==> {
                &&& final(self).local_of(n) == old(self).local_of(n)
                &&& final(self).is_group_node(n) == old(self).is_group_node(n)
                &&& final(self).parent_of(n) == old(self).parent_of(n)
                &&& final(self).children_of(n) == old(self).children_of(n)
            },
    {
        let id = self.locals.len();
        self.locals.push(local);
        self.parents.push(None);
        self.children.push(Vec::new());
        self.groups.push(group);
        self.depth = Ghost(self.depth@.push(0));
        proof {
            let n = self.locals@.len();
            assert forall|p: int, i: int|
                0 <= p < n && 0 <= i < self.children@[p]@.len() implies {
                    &&& (#[trigger] self.children@[p]@[i]) < n
                    &&& self.parents@[self.children@[p]@[i] as int] == Some(p as usize)
                } by {
                assert(p < id);
                assert(self.children@[p] == old(self).children@[p]);
            }
            assert forall|x: int| 0 <= x < n implies match #[trigger] self.parents@[x] {
                Some(p) => {
                    &&& p < n
                    &&& self.groups@[p as int]
                    &&& self.depth@[x] == self.depth@[p as int] + 1
                    &&& self.children@[p as int]@.contains(x as usize)
                },
                None => self.depth@[x] == 0,
            } by {
                if x < id {
                    assert(old(self).parents@[x] == self.parents@[x]);
                    if let Some(p) = self.parents@[x] {
                        assert(self.children@[p as int] == old(self).children@[p as int]);
                    }
                }
            }
        }
        id
    }

    /// The path to a node ends at the node and begins at a root.
    pub proof fn lemma_path_shape(&self, n: usize)
        requires
            self.wf(),
            n < self.len_spec(),
        ensures
            self.path(n).len() >= 1,
            self.path(n).last() == n,
            forall|j: int| 0 <= j < self.path(n).len() ==> #[trigger] self.path(n)[j] < self.len_spec(),
            self.parent_of(self.root_spec(n)).is_none(),
            self.root_spec(n) < self.len_spec(),
            self.parent_of(n) matches Some(p) ==> self.path(n) == self.path(p).push(n),
            self.parent_of(n) matches Some(p) ==> self.root_spec(n) == self.root_spec(p),
            self.parent_of(n).is_none() ==> self.path(n) == seq![n],
        decreases self.depth_of(n),
    {
        reveal_with_fuel(path_in, 2);
        if let Some(p) = self.parents@[n as int] {
            assert(self.depth@[n as int] == self.depth@[p as int] + 1);
            self.lemma_path_shape(p);
            assert(self.path(n) == self.path(p).push(n));
            assert(self.path(n)[0] == self.path(p)[0]);
        } else {
            assert(self.path(n) == seq![n]);
        }
    }

    /// The world chain of a node is its parent's chain followed by the node's
    /// own local transform; a root's chain is its local transform alone.
    /// This holds in every well-formed state, whatever order the nodes were
    /// nested and their transforms set in.
    pub proof fn lemma_chain_extends_parent(&self, n: usize)
        requires
            self.wf(),
            n < self.len_spec(),
        ensures
            self.parent_of(n) matches Some(p) ==> self.chain(n) == self.chain(p).push(self.local_of(n)),
            self.parent_of(n).is_none() ==> self.chain(n) == seq![self.local_of(n)],
    {
        self.lemma_path_shape(n);
        if let Some(p) = self.parent_of(n) {
            assert(self.chain(n) =~= self.chain(p).push(self.local_of(n)));
        } else {
            assert(self.chain(n) =~= seq![self.local_of(n)]);
        }
    }

    /// A node `a` under a group `g` under a root group `h` has the world chain
    /// of `h`, `g` and `a` in that order, whichever of the two nestings and
    /// the transform changes came first.
    pub proof fn lemma_nested_chain(&self, h: usize, g: usize, a: usize)
        requires
            self.wf(),
            a < self.len_spec(),
            self.parent_of(a) == Some(g),
            self.parent_of(g) == Some(h),
            self.parent_of(h).is_none(),
        ensures
            self.path(a) == seq![h, g, a],
            self.chain(a) == seq![self.local_of(h), self.local_of(g), self.local_of(a)],
    {
        self.lemma_path_shape(a);
        self.lemma_path_shape(g);
        self.lemma_path_shape(h);
        assert(self.path(a) =~= seq![h, g, a]);
        assert(self.chain(a) =~= seq![self.local_of(h), self.local_of(g), self.local_of(a)]);
    }

    /// The local transform of node `n`.
    pub fn transformation(&self, n: usize) -> (r: M)
        requires
            self.wf(),
            n < self.len_spec(),
        ensures
            r == self.local_of(n),
    {
        self.locals[n]
    }

    /// The parent group of node `n`, if it has one.
    pub fn parent(&self, n: usize) -> (r: Option<usize>)
        requires
            self.wf(),
            n < self.len_spec(),
        ensures
            r == self.parent_of(n),
    {
        self.parents[n]
    }

    /// The children of node `n`, in the order they were added.
    pub fn children(&self, n: usize) -> (r: &Vec<usize>)
        requires
            self.wf(),
            n < self.len_spec(),
        ensures
            r@ == self.children_of(n),
    {
        &self.children[n]
    }

    /// Whether node `n` is a group.
    pub fn is_group(&self, n: usize) -> (r: bool)
        requires
            self.wf(),
            n < self.len_spec(),
        ensures
            r == self.is_group_node(n),
    {
        self.groups[n]
    }

    /// Whether node `n` has no children.
    pub fn is_empty(&self, n: usize) -> (r: bool)
        requires
            self.wf(),
            n < self.len_spec(),
        ensures
            r == (self.children_of(n).len() == 0),
    {
        self.children[n].len() == 0
    }

    /// Replaces the local transform of node `n`. Every descendant's world
    /// chain sees the new transform, since chains are read from the links.
    pub fn set_transform(&mut self, n: usize, local: M)
        requires
            old(self).wf(),
            n < old(self).len_spec(),
        ensures
            final(self).wf(),
            final(self).len_spec() == old(self).len_spec(),
            final(self).local_of(n) == local,
            forall|m: usize| m < old(self).len_spec() && m != n ==> final(self).local_of(m) == old(self).local_of(m),
            forall|m: usize| #[trigger] final(self).parent_of(m) == old(self).parent_of(m),
            forall|m: usize| #[trigger] final(self).children_of(m) == old(self).children_of(m),
            forall|m: usize| #[trigger] final(self).is_group_node(m) == old(self).is_group_node(m),
            forall|m: usize| #[trigger] final(self).path(m) == old(self).path(m),
    {
        self.locals.set(n, local);
    }

    /// The root of the tree that holds node `n`.
    pub fn root_of(&self, n: usize) -> (r: usize)
        requires
            self.wf(),
            n < self.len_spec(),
        ensures
            r == self.root_spec(n),
            r < self.len_spec(),
            self.parent_of(r).is_none(),
    {
        let mut x = n;
        proof {
            self.lemma_path_shape(n);
        }
        while self.parents[x].is_some()
            invariant
                self.wf(),
                x < self.len_spec(),
                self.root_spec(x) == self.root_spec(n),
            decreases self.depth@[x as int],
        {
            proof {
                self.lemma_path_shape(x);
            }
            x = self.parents[x].unwrap();
        }
        proof {
            self.lemma_path_shape(x);
        }
        x
    }

    /// The nodes from the root of `n`'s tree down to `n`.
    pub fn path_to(&self, n: usize) -> (r: Vec<usize>)
        requires
            self.wf(),
            n < self.len_spec(),
        ensures
            r@ == self.path(n),
    {
        self.path_vec(n)
    }

    fn path_vec(&self, n: usize) -> (r: Vec<usize>)
        requires
            self.wf(),
            n < self.len_spec(),
        ensures
            r@ == self.path(n),
        decreases self.depth@[n as int],
    {
        proof {
            self.lemma_path_shape(n);
        }
        match self.parents[n] {
            Some(p) => {
                let mut v = self.path_vec(p);
                v.push(n);
                v
            },
            None => vec![n],
        }
    }

    /// The local transforms from the root of `n`'s tree down to `n`, whose
    /// product, outermost first, is `n`'s world transform.
    pub fn world_chain(&self, n: usize) -> (r: Vec<M>)
        requires
            self.wf(),
            n < self.len_spec(),
        ensures
            r@ == self.chain(n),
    {
        let nodes = self.path_vec(n);
        proof {
            self.lemma_path_shape(n);
        }
        let mut out: Vec<M> = Vec::new();
        let mut i: usize = 0;
        while i < nodes.len()
            invariant
                self.wf(),
                nodes@ == self.path(n),
                i <= nodes.len(),
                forall|j: int| 0 <= j < nodes.len() ==> nodes@[j] < self.len_spec(),
                out@ == nodes@.subrange(0, i as int).map_values(|k: usize| self.local_of(k)),
            decreases nodes.len() - i,
        {
            out.push(self.locals[nodes[i]]);
            i = i + 1;
            assert(out@ =~= nodes@.subrange(0, i as int).map_values(|k: usize| self.local_of(k)));
        }
        assert(nodes@.subrange(0, nodes.len() as int) == nodes@);
        out
    }

    /// How attaching the root `child` under `group` changes paths: nodes of
    /// `child`'s tree get `group`'s path in front, the others keep theirs.
    proof fn lemma_attach_paths(pre: Self, post: Self, group: usize, child: usize, x: usize)
        requires
            pre.wf(),
            post.wf(),
            x < pre.len_spec(),
            group < pre.len_spec(),
            child < pre.len_spec(),
            post.len_spec() == pre.len_spec(),
            pre.parent_of(child).is_none(),
            pre.root_spec(group) != child,
            post.parent_of(child) == Some(group),
            forall|m: usize| m < pre.len_spec() && m != child ==> #[trigger] post.parent_of(m)
                == pre.parent_of(m),
        ensures
            pre.root_spec(x) == child ==> post.path(x) == post.path(group) + pre.path(x),
            pre.root_spec(x) != child ==> post.path(x) == pre.path(x),
        decreases pre.depth_of(x),
    {
        pre.lemma_path_shape(x);
        post.lemma_path_shape(x);
        match pre.parent_of(x) {
            Some(p) => {
                assert(x != child);
                assert(pre.depth@[x as int] == pre.depth@[p as int] + 1);
                Self::lemma_attach_paths(pre, post, group, child, p);
                pre.lemma_path_shape(p);
                if pre.root_spec(x) == child {
                    assert(post.path(x) =~= post.path(group) + pre.path(x));
                }
            },
            None => {
                if x == child {
                    assert(post.path(x) =~= post.path(group) + pre.path(x));
                }
            },
        }
    }

    /// Places the detached node `child` as the last child of `group`.
    /// Fails, changing nothing, when a handle is unknown, when `group` is not
    /// a group, when `child` already has a parent, or when `group` lies in
    /// `child`'s own tree (which would close a cycle). On success every node
    /// of `child`'s tree has `group`'s world chain in front of its own, and
    /// every other node keeps its chain.
    pub fn add_child(&mut self, group: usize, child: usize) -> (r: Result<(), GraphError>)
        requires
            old(self).wf(),
        ensures
            final(self).wf(),
            final(self).len_spec() == old(self).len_spec(),
            r == Err::<(), GraphError>(GraphError::UnknownNode) <==> (group >= old(self).len_spec()
                || child >= old(self).len_spec()),
            r == Err::<(), GraphError>(GraphError::NotAGroup) <==> (group < old(self).len_spec()
                && child < old(self).len_spec() && !old(self).is_group_node(group)),
            r == Err::<(), GraphError>(GraphError::AlreadyAttached) <==> (group < old(self).len_spec()
                && child < old(self).len_spec() && old(self).is_group_node(group)
                && old(self).parent_of(child).is_some()),
            r == Err::<(), GraphError>(GraphError::WouldCycle) <==> (group < old(self).len_spec()
                && child < old(self).len_spec() && old(self).is_group_node(group)
                && old(self).parent_of(child).is_none() && old(self).root_spec(group) == child),
            r is Err ==> *final(self) == *old(self),
            r is Ok ==> {
                &&& final(self).parent_of(child) == Some(group)
                &&& final(self).children_of(group) == old(self).children_of(group).push(child)
                &&& forall|m: usize| m < old(self).len_spec() && m != child
                    ==> #[trigger] final(self).parent_of(m) == old(self).parent_of(m)
                &&& forall|m: usize| m < old(self).len_spec() && m != group
                    ==> #[trigger] final(self).children_of(m) == old(self).children_of(m)
            },
            r is Ok ==> forall|m: usize| m < old(self).len_spec() ==> {
                &&& old(self).root_spec(m) == child ==> #[trigger] final(self).chain(m)
                    == final(self).chain(group) + old(self).chain(m)
                &&& old(self).root_spec(m) != child ==> final(self).chain(m) == old(self).chain(m)
            },
            r is Ok ==> final(self).chain(group) == old(self).chain(group),
            forall|m: usize| m < old(self).len_spec() ==> #[trigger] final(self).local_of(m) == old(self).local_of(m),
            forall|m: usize| m < old(self).len_spec() ==> #[trigger] final(self).is_group_node(m) == old(self).is_group_node(m),
    {
        let len = self.locals.len();
        if group >= len || child >= len {
            return Err(GraphError::UnknownNode);
        }
        if !self.groups[group] {
            return Err(GraphError::NotAGroup);
        }
        if self.parents[child].is_some() {
            return Err(GraphError::AlreadyAttached);
        }
        if self.root_of(group) == child {
            return Err(GraphError::WouldCycle);
        }
        let ghost pre = *self;
        let ghost dg = self.depth@[group as int];
        let ghost nd = Seq::new(
            len as nat,
            |x: int|
                if pre.root_spec(x as usize) == child {
                    pre.depth@[x] + dg + 1
                } else {
                    pre.depth@[x]
                },
        );
        self.parents.set(child, Some(group));
        let mut all: Vec<Vec<usize>> = Vec::new();
        std::mem::swap(&mut all, &mut self.children);
        let mut list = all.remove(group);
        list.push(child);
        all.insert(group, list);
        self.children = all;
        self.depth = Ghost(nd);
        proof {
            assert(self.children@.len() == pre.children@.len());
            assert(self.children@[group as int]@ == pre.children@[group as int]@.push(child));
            assert(forall|p: int| 0 <= p < len && p != group ==> #[trigger] self.children@[p] == pre.children@[p]);
            pre.lemma_path_shape(child);
            pre.lemma_path_shape(group);
            let n = len as int;
            assert forall|x: int| 0 <= x < n implies match #[trigger] self.parents@[x] {
                Some(p) => {
                    &&& p < n
                    &&& self.groups@[p as int]
                    &&& self.depth@[x] == self.depth@[p as int] + 1
                    &&& self.children@[p as int]@.contains(x as usize)
                },
                None => self.depth@[x] == 0,
            } by {
                pre.lemma_path_shape(x as usize);
                if x != child as int {
                    assert(self.parents@[x] == pre.parents@[x]);
                    if let Some(p) = pre.parents@[x] {
                        pre.lemma_path_shape(p);
                        assert(pre.children@[p as int]@.contains(x as usize));
                        if p == group {
                            let k = choose|k: int| 0 <= k < pre.children@[p as int]@.len()
                                && pre.children@[p as int]@[k] == x as usize;
                            assert(self.children@[p as int]@[k] == x as usize);
                        } else {
                            assert(self.children@[p as int] == pre.children@[p as int]);
                        }
                    }
                } else {
                    assert(self.children@[group as int]@.last() == child);
                }
            }
            assert forall|p: int, i: int|
                0 <= p < n && 0 <= i < self.children@[p]@.len() implies {
                    &&& (#[trigger] self.children@[p]@[i]) < n
                    &&& self.parents@[self.children@[p]@[i] as int] == Some(p as usize)
                } by {
                if p == group as int && i == pre.children@[p]@.len() {
                } else {
                    let c = pre.children@[p]@[i];
                    assert(self.children@[p]@[i] == c);
                    assert(pre.parents@[c as int] == Some(p as usize));
                }
            }
            assert forall|p: int, i: int, j: int|
                0 <= p < n && 0 <= i < j < self.children@[p]@.len() implies #[trigger] self.children@[p]@[i]
                    != #[trigger] self.children@[p]@[j] by {
                if p == group as int && j == pre.children@[p]@.len() {
                    let c = pre.children@[p]@[i];
                    assert(pre.parents@[c as int] == Some(p as usize));
                }
            }
            assert(self.wf());
            assert forall|m: usize| m < len implies {
                &&& pre.root_spec(m) == child ==> #[trigger] self.chain(m) == self.chain(group)
                    + pre.chain(m)
                &&& pre.root_spec(m) != child ==> self.chain(m) == pre.chain(m)
            } by {
                Self::lemma_attach_paths(pre, *self, group, child, m);
                Self::lemma_attach_paths(pre, *self, group, child, group);
                pre.lemma_path_shape(m);
                self.lemma_path_shape(m);
                self.lemma_path_shape(group);
                if pre.root_spec(m) == child {
                    assert(self.chain(m) =~= self.chain(group) + pre.chain(m));
                } else {
                    assert(self.chain(m) =~= pre.chain(m));
                }
            }
            Self::lemma_attach_paths(pre, *self, group, child, group);
            pre.lemma_path_shape(group);
            assert(self.chain(group) =~= pre.chain(group));
        }
        Ok(())
    }
}

} // verus!
