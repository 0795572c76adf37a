//! The namespace tree: a rooted tree keyed by dotted path segments.
//!
//! Every distinct dotted path maps to exactly one node and one
//! [`NamespaceId`]; re-inserting an existing path returns the existing ID
//! without creating new nodes. IDs are assigned from a monotonically
//! increasing counter owned by the tree root, so distinct paths always
//! receive distinct IDs.

use vstd::prelude::*;

verus! {

/// An ID that corresponds to a namespace in the global scope.
#[derive(Clone, Copy, Debug, PartialEq, Eq, Hash, Structural)]
pub struct NamespaceId(pub usize);

impl NamespaceId {
    /// Create a new namespace ID.
    pub fn new(value: usize) -> (r: Self)
        ensures
            r == NamespaceId(value),
    {
        NamespaceId(value)
    }

    /// The raw integer value of the ID.
    pub fn value(self) -> (r: usize)
        ensures
            r == self.0,
    {
        self.0
    }
}

impl From<usize> for NamespaceId {
    /// A raw integer as a namespace ID.
    fn from(value: usize) -> (r: Self)
        ensures
            r == NamespaceId(value),
    {
        NamespaceId(value)
    }
}

impl vstd::std_specs::convert::FromSpecImpl<usize> for NamespaceId {
    open spec fn obeys_from_spec() -> bool {
        true
    }

    open spec fn from_spec(value: usize) -> Self {
        NamespaceId(value)
    }
}

/// One node of the namespace tree: its ID and its children, keyed by
/// path segment.
#[derive(Debug)]
pub struct NamespaceTreeNode {
    pub children: Vec<(String, NamespaceTreeNode)>,
    pub id: NamespaceId,
}

/// The root of the namespace tree together with the ID counter used to
/// assign fresh IDs. `assigner` is the largest ID handed out so far; the
/// root node itself carries ID `0`.
#[derive(Debug)]
pub struct NamespaceTreeRoot {
    pub assigner: usize,
    pub tree: NamespaceTreeNode,
}

/// The views of the segments of an exec path.
pub open spec fn path_view(p: Seq<String>) -> Seq<Seq<char>> {
    p.map_values(|s: String| s@)
}

/// No two entries of a child list share a key.
pub open spec fn unique_keys(s: Seq<(String, NamespaceTreeNode)>) -> bool {
    forall|i: int, j: int| 0 <= i < j < s.len() ==> (#[trigger] s[i].0@) != (#[trigger] s[j].0@)
}

/// No raw ID occurs in two distinct subtrees of a child list.
pub open spec fn children_disjoint(s: Seq<(String, NamespaceTreeNode)>) -> bool {
    forall|i: int, j: int, x: int|
        0 <= i < j < s.len() && #[trigger] s[i].1.contains_id(x) ==> !#[trigger] s[j].1.contains_id(x)
}

impl NamespaceTreeNode {
    /// Whether some child of this node is keyed by `name`.
    pub open spec fn has_child(self, name: Seq<char>) -> bool {
        exists|i: int| 0 <= i < self.children@.len() && self.children@[i].0@ == name
    }

    /// The child keyed by `name`; meaningful only when the keys are
    /// unique and `has_child(name)` holds.
    pub open spec fn child(self, name: Seq<char>) -> NamespaceTreeNode {
        let i = choose|i: int| 0 <= i < self.children@.len() && self.children@[i].0@ == name;
        self.children@[i].1
    }

    /// How many fresh nodes following `path` from this node would
    /// create: zero for an existing path, and once the path leaves
    /// the tree, one per remaining segment.
    pub open spec fn spec_missing_count(self, path: Seq<Seq<char>>) -> int
        decreases path.len(),
    {
        if path.len() == 0 {
            0
        } else if self.has_child(path[0]) {
            self.child(path[0]).spec_missing_count(path.skip(1))
        } else {
            path.len() as int
        }
    }

    /// The ID of the node reached from this node by following `path`,
    /// if every segment exists.
    pub open spec fn spec_find(self, path: Seq<Seq<char>>) -> Option<NamespaceId>
        decreases path.len(),
    {
        if path.len() == 0 {
            Some(self.id)
        } else if self.has_child(path[0]) {
            self.child(path[0]).spec_find(path.skip(1))
        } else {
            None
        }
    }

    /// Whether the raw ID `x` occurs anywhere in this subtree.
    pub open spec fn contains_id(self, x: int) -> bool
        decreases self,
    {
        ||| x == self.id.0
        ||| exists|i: int|
            0 <= i < self.children@.len() && (#[trigger] self.children@[i]).1.contains_id(x)
    }

    /// Every raw ID in this subtree is strictly below `bound`.
    pub open spec fn bounded(self, bound: int) -> bool {
        forall|x: int| self.contains_id(x) ==> x < bound
    }

    /// Well-formedness: child keys are unique at every node, no child
    /// subtree repeats this node's ID, and the ID sets of distinct child
    /// subtrees are disjoint. Together these make path lookup injective.
    pub open spec fn wf(self) -> bool
        decreases self,
    {
        &&& unique_keys(self.children@)
        &&& children_disjoint(self.children@)
        &&& forall|i: int| 0 <= i < self.children@.len() ==> (#[trigger] self.children@[i]).1.wf()
        &&& forall|i: int|
            0 <= i < self.children@.len() ==> !(#[trigger] self.children@[i]).1.contains_id(
                self.id.0 as int,
            )
    }

    /// The entry at index `k` is the unique child with its key.
    pub proof fn lemma_child_at(self, name: Seq<char>, k: int)
        requires
            unique_keys(self.children@),
            0 <= k < self.children@.len(),
            self.children@[k].0@ == name,
        ensures
            self.has_child(name),
            self.child(name) == self.children@[k].1,
    {
        assert(self.has_child(name));
        let w = choose|i: int| 0 <= i < self.children@.len() && self.children@[i].0@ == name;
        if w < k {
            assert(self.children@[w].0@ != self.children@[k].0@);
        } else if k < w {
            assert(self.children@[k].0@ != self.children@[w].0@);
        }
    }

    /// A well-formed node's looked-up child is itself well-formed.
    pub proof fn lemma_child_wf(self, name: Seq<char>)
        requires
            self.wf(),
            self.has_child(name),
        ensures
            self.child(name).wf(),
    {
        assert(unique_keys(self.children@));
        let w = choose|i: int| 0 <= i < self.children@.len() && self.children@[i].0@ == name;
        assert(0 <= w < self.children@.len() && self.children@[w].0@ == name);
        assert(self.children@[w].1.wf());
    }

    pub fn new(id: NamespaceId, children: Vec<(String, NamespaceTreeNode)>) -> (r: Self)
        ensures
            r.id == id,
            r.children == children,
    {
        Self { children, id }
    }

    /// The children of this node.
    pub fn children(&self) -> (r: &Vec<(String, NamespaceTreeNode)>)
        ensures
            r == &self.children,
    {
        &self.children
    }

    /// The child keyed by `component`, if any. Requires unique child
    /// keys so that the result is the unique such child.
    pub fn get(&self, component: &String) -> (r: Option<&NamespaceTreeNode>)
        requires
            unique_keys(self.children@),
        ensures
            match r {
                Some(node) => self.has_child(component@) && *node == self.child(component@),
                None => !self.has_child(component@),
            },
    {
        let n = self.children.len();
        let mut j: usize = 0;
        while j < n
            invariant
                unique_keys(self.children@),
                n == self.children@.len(),
                j <= n,
                forall|k: int| 0 <= k < j ==> self.children@[k].0@ != component@,
            decreases n - j,
        {
            if self.children[j].0 == *component {
                proof {
                    self.lemma_child_at(component@, j as int);
                }
                return Some(&self.children[j].1);
            }
            j += 1;
        }
        None
    }

    /// The ID of this node.
    pub fn id(&self) -> (r: NamespaceId)
        ensures
            r == self.id,
    {
        self.id
    }

    /// Whether `path` names a (possibly transitive) descendant of this
    /// node, or the node itself when `path` is empty.
    pub fn contains(&self, path: &Vec<String>) -> (r: bool)
        requires
            self.wf(),
        ensures
            r == self.spec_find(path_view(path@)) is Some,
    {
        self.find_namespace(path).is_some()
    }

    /// Look up the namespace reached by `path` from this node and return
    /// its ID, without mutating the tree.
    pub fn find_namespace(&self, path: &Vec<String>) -> (r: Option<NamespaceId>)
        requires
            self.wf(),
        ensures
            r == self.spec_find(path_view(path@)),
    {
        let r = self.find_namespace_from(path, 0);
        proof {
            assert(path_view(path@).skip(0) =~= path_view(path@));
        }
        r
    }

    fn find_namespace_from(&self, path: &Vec<String>, i: usize) -> (r: Option<NamespaceId>)
        requires
            i <= path@.len(),
            self.wf(),
        ensures
            r == self.spec_find(path_view(path@).skip(i as int)),
        decreases path@.len() - i,
    {
        if i == path.len() {
            return Some(self.id);
        }
        match self.get(&path[i]) {
            Some(child) => {
                proof {
                    self.lemma_child_wf(path@[i as int]@);
                }
                let r = child.find_namespace_from(path, i + 1);
                proof {
                    assert(path_view(path@).skip(i as int).skip(1) =~= path_view(path@).skip(
                        i as int + 1,
                    ));
                }
                r
            },
            None => None,
        }
    }

    /// The node reached from this node by following `path`; meaningful
    /// only when `spec_find(path)` is `Some`.
    pub open spec fn spec_node_at(self, path: Seq<Seq<char>>) -> NamespaceTreeNode
        decreases path.len(),
    {
        if path.len() == 0 {
            self
        } else {
            self.child(path[0]).spec_node_at(path.skip(1))
        }
    }

    /// A found ID occurs in the subtree, and is the ID of the node at
    /// that path.
    pub proof fn lemma_find_contains(self, path: Seq<Seq<char>>)
        requires
            self.spec_find(path) is Some,
        ensures
            self.spec_find(path) == Some(self.spec_node_at(path).id),
            self.contains_id(self.spec_node_at(path).id.0 as int),
        decreases path.len(),
    {
        if path.len() == 0 {
        } else {
            let c = self.child(path[0]);
            c.lemma_find_contains(path.skip(1));
            let w = choose|i: int|
                0 <= i < self.children@.len() && self.children@[i].0@ == path[0];
            assert(self.children@[w].1 == c);
            assert(self.children@[w].1.contains_id(c.spec_node_at(path.skip(1)).id.0 as int));
        }
    }

    /// The node at a found path is itself well-formed.
    pub proof fn lemma_node_at_wf(self, path: Seq<Seq<char>>)
        requires
            self.wf(),
            self.spec_find(path) is Some,
        ensures
            self.spec_node_at(path).wf(),
        decreases path.len(),
    {
        if path.len() == 0 {
        } else {
            self.lemma_child_wf(path[0]);
            self.child(path[0]).lemma_node_at_wf(path.skip(1));
        }
    }

    /// In a well-formed tree, distinct paths lead to distinct IDs.
    pub proof fn lemma_find_injective(self, p1: Seq<Seq<char>>, p2: Seq<Seq<char>>)
        requires
            self.wf(),
            self.spec_find(p1) is Some,
            self.spec_find(p2) is Some,
            p1 != p2,
        ensures
            self.spec_find(p1) != self.spec_find(p2),
        decreases p1.len(),
    {
        self.lemma_find_contains(p1);
        self.lemma_find_contains(p2);
        if p1.len() == 0 {
            // p2 is nonempty: its ID lies in a child subtree, which
            // cannot repeat this node's ID.
            if p2.len() == 0 {
                assert(p1 =~= p2);
            }
            let c = self.child(p2[0]);
            c.lemma_find_contains(p2.skip(1));
            let w = choose|i: int|
                0 <= i < self.children@.len() && self.children@[i].0@ == p2[0];
            assert(!self.children@[w].1.contains_id(self.id.0 as int));
        } else if p2.len() == 0 {
            let c = self.child(p1[0]);
            c.lemma_find_contains(p1.skip(1));
            assert(self.spec_find(p2) == Some(self.id));
            let w = choose|i: int|
                0 <= i < self.children@.len() && self.children@[i].0@ == p1[0];
            assert(!self.children@[w].1.contains_id(self.id.0 as int));
        } else if p1[0] == p2[0] {
            let c = self.child(p1[0]);
            self.lemma_child_wf(p1[0]);
            if p1.skip(1) == p2.skip(1) {
                assert(p1.len() == p2.len());
                assert forall|k: int| 0 <= k < p1.len() implies p1[k] == p2[k] by {
                    if k > 0 {
                        assert(p1.skip(1)[k - 1] == p1[k]);
                        assert(p2.skip(1)[k - 1] == p2[k]);
                    }
                }
                assert(p1 =~= p2);
            } else {
                c.lemma_find_injective(p1.skip(1), p2.skip(1));
            }
        } else {
            // Different head segments: the two IDs lie in disjoint
            // child subtrees.
            let c1 = self.child(p1[0]);
            let c2 = self.child(p2[0]);
            c1.lemma_find_contains(p1.skip(1));
            c2.lemma_find_contains(p2.skip(1));
            let w1 = choose|i: int|
                0 <= i < self.children@.len() && self.children@[i].0@ == p1[0];
            let w2 = choose|i: int|
                0 <= i < self.children@.len() && self.children@[i].0@ == p2[0];
            if w1 == w2 {
                assert(self.children@[w1].0@ == p1[0] && self.children@[w1].0@ == p2[0]);
            } else {
                let id1 = c1.spec_node_at(p1.skip(1)).id.0 as int;
                let id2 = c2.spec_node_at(p2.skip(1)).id.0 as int;
                assert(self.children@[w1].1.contains_id(id1));
                assert(self.children@[w2].1.contains_id(id2));
                if id1 == id2 {
                    if w1 < w2 {
                        assert(!self.children@[w2].1.contains_id(id1));
                    } else {
                        assert(!self.children@[w1].1.contains_id(id2));
                    }
                }
            }
        }
    }

    /// Whatever a child subtree contains, this node contains.
    proof fn lemma_child_contains(self, k: int, x: int)
        requires
            0 <= k < self.children@.len(),
            self.children@[k].1.contains_id(x),
        ensures
            self.contains_id(x),
    {
    }

    /// The index of the child keyed by `name`, if any.
    fn child_index(&self, name: &String) -> (r: Option<usize>)
        ensures
            match r {
                Some(j) => j < self.children@.len() && self.children@[j as int].0@ == name@,
                None => !self.has_child(name@),
            },
    {
        let n = self.children.len();
        let mut j: usize = 0;
        while j < n
            invariant
                n == self.children@.len(),
                j <= n,
                forall|k: int| 0 <= k < j ==> self.children@[k].0@ != name@,
            decreases n - j,
        {
            if self.children[j].0 == *name {
                return Some(j);
            }
            j += 1;
        }
        None
    }

    /// Walk `path` from segment `i` onward, creating any missing nodes
    /// with fresh IDs drawn from `assigner`, and return the ID of the
    /// terminal node. An existing path is found, not re-created.
    pub fn insert_or_find_namespace(
        &mut self,
        path: &Vec<String>,
        i: usize,
        assigner: &mut usize,
    ) -> (r: NamespaceId)
        requires
            i <= path@.len(),
            old(self).wf(),
            old(self).bounded(*old(assigner) + 1),
            *old(assigner) + path@.len() - i <= usize::MAX,
        ensures
            final(self).wf(),
            final(self).bounded(*final(assigner) + 1),
            *old(assigner) <= *final(assigner),
            *final(assigner) <= *old(assigner) + (path@.len() - i),
            *final(assigner) == *old(assigner) + old(self).spec_missing_count(
                path_view(path@).skip(i as int),
            ),
            final(self).id == old(self).id,
            final(self).spec_find(path_view(path@).skip(i as int)) == Some(r),
            forall|p: Seq<Seq<char>>|
                old(self).spec_find(p) is Some ==> final(self).spec_find(p) == old(
                    self,
                ).spec_find(p),
            forall|x: int|
                final(self).contains_id(x) ==> old(self).contains_id(x) || (*old(assigner) < x
                    <= *final(assigner)),
            forall|x: int| old(self).contains_id(x) ==> final(self).contains_id(x),
            old(self).spec_find(path_view(path@).skip(i as int)) is Some ==> (old(
                self,
            ).spec_find(path_view(path@).skip(i as int)) == Some(r) && *final(assigner) == *old(
                assigner,
            ) && (forall|p: Seq<Seq<char>>|
                final(self).spec_find(p) == old(self).spec_find(p))),
            old(self).spec_find(path_view(path@).skip(i as int)) is None ==> !old(
                self,
            ).contains_id(r.0 as int) && r.0 > *old(assigner),
        decreases path@.len() - i,
    {
        let ghost tail = path_view(path@).skip(i as int);
        if i == path.len() {
            proof {
                assert(tail =~= Seq::<Seq<char>>::empty());
            }
            return self.id;
        }
        let ghost name = path@[i as int]@;
        proof {
            assert(tail[0] == name);
            assert(tail.skip(1) =~= path_view(path@).skip(i as int + 1));
        }
        match self.child_index(&path[i]) {
            Some(j) => {
                proof {
                    self.lemma_child_at(name, j as int);
                    assert(self.children@[j as int].1.wf());
                    assert forall|x: int|
                        self.children@[j as int].1.contains_id(x) implies x < *assigner + 1 by {
                        self.lemma_child_contains(j as int, x);
                    }
                }
                let ghost old_self = *self;
                let ghost a0 = *assigner;
                let r = self.children[j].1.insert_or_find_namespace(path, i + 1, assigner);
                proof {
                    let s_old = old_self.children@;
                    let s_new = self.children@;
                    let c_old = s_old[j as int].1;
                    let c_new = s_new[j as int].1;
                    assert(s_new =~= s_old.update(j as int, (s_old[j as int].0, c_new)));
                    assert(forall|k: int|
                        0 <= k < s_new.len() && k != j ==> s_new[k] == s_old[k]);
                    assert(s_new[j as int].0 == s_old[j as int].0);
                    // Well-formedness of the updated node.
                    assert(unique_keys(s_new)) by {
                        assert(forall|k: int|
                            0 <= k < s_new.len() ==> (#[trigger] s_new[k]).0@ == s_old[k].0@);
                    }
                    assert(old_self.contains_id(old_self.id.0 as int));
                    assert(old_self.id.0 <= a0);
                    assert forall|k: int, l: int, x: int|
                        0 <= k < l < s_new.len() && #[trigger] s_new[k].1.contains_id(x)
                            implies !#[trigger] s_new[l].1.contains_id(x) by {
                        if k == j {
                            // x is in the updated subtree: either it was
                            // already there, or it is fresh and above every
                            // ID of the sibling.
                            assert(c_new.contains_id(x));
                            if c_old.contains_id(x) {
                                assert(!s_old[l].1.contains_id(x));
                            } else {
                                assert(a0 < x <= *assigner);
                                if s_new[l].1.contains_id(x) {
                                    assert(s_old[l].1.contains_id(x));
                                    old_self.lemma_child_contains(l, x);
                                    assert(x <= a0);
                                }
                            }
                        } else if l == j {
                            assert(s_old[k].1.contains_id(x));
                            if s_new[l].1.contains_id(x) {
                                assert(c_new.contains_id(x));
                                if c_old.contains_id(x) {
                                    assert(!s_old[l].1.contains_id(x));
                                    assert(false);
                                } else {
                                    assert(a0 < x <= *assigner);
                                    old_self.lemma_child_contains(k, x);
                                    assert(x <= a0);
                                    assert(false);
                                }
                            }
                        } else {
                            assert(s_old[k].1.contains_id(x));
                            assert(!s_old[l].1.contains_id(x));
                        }
                    }
                    assert forall|k: int|
                        0 <= k < s_new.len() implies !(#[trigger] s_new[k]).1.contains_id(
                        self.id.0 as int,
                    ) by {
                        if k == j {
                            if s_new[k].1.contains_id(self.id.0 as int) {
                                assert(c_new.contains_id(self.id.0 as int));
                                if c_old.contains_id(self.id.0 as int) {
                                    assert(!s_old[j as int].1.contains_id(
                                        old_self.id.0 as int,
                                    ));
                                    assert(false);
                                } else {
                                    assert(a0 < self.id.0 as int);
                                    assert(false);
                                }
                            }
                        } else {
                            assert(!s_old[k].1.contains_id(self.id.0 as int));
                        }
                    }
                    assert(self.wf());
                    // Boundedness and ID transfer.
                    assert forall|x: int| self.contains_id(x) implies old_self.contains_id(x)
                        || (a0 < x <= *assigner) by {
                        if x != self.id.0 {
                            let k = choose|k: int|
                                0 <= k < s_new.len() && (#[trigger] s_new[k]).1.contains_id(x);
                            if k == j {
                                if c_old.contains_id(x) {
                                    old_self.lemma_child_contains(k, x);
                                }
                            } else {
                                old_self.lemma_child_contains(k, x);
                            }
                        }
                    }
                    assert forall|x: int| old_self.contains_id(x) implies self.contains_id(x) by {
                        if x != old_self.id.0 {
                            let k = choose|k: int|
                                0 <= k < s_old.len() && (#[trigger] s_old[k]).1.contains_id(x);
                            if k == j {
                                self.lemma_child_contains(k, x);
                            } else {
                                self.lemma_child_contains(k, x);
                            }
                        }
                    }
                    assert forall|x: int| self.contains_id(x) implies x < *assigner + 1 by {
                        if old_self.contains_id(x) {
                            assert(x < a0 + 1);
                        }
                    }
                    // The result is found at the path.
                    assert(self.has_child(name)) by {
                        assert(s_new[j as int].0@ == name);
                    }
                    self.lemma_child_at(name, j as int);
                    assert(self.spec_find(tail) == c_new.spec_find(tail.skip(1)));
                    assert(self.spec_find(tail) == Some(r));
                    // Lookup preservation.
                    assert forall|p: Seq<Seq<char>>| old_self.spec_find(p) is Some
                        implies self.spec_find(p) == old_self.spec_find(p) by {
                        if p.len() != 0 {
                            assert(old_self.has_child(p[0]));
                            let w = choose|k: int|
                                0 <= k < s_old.len() && s_old[k].0@ == p[0];
                            old_self.lemma_child_at(p[0], w);
                            assert(s_new[w].0@ == p[0]);
                            self.lemma_child_at(p[0], w);
                            if w == j {
                                assert(c_old.spec_find(p.skip(1)) is Some);
                                assert(c_new.spec_find(p.skip(1)) == c_old.spec_find(p.skip(1)));
                            } else {
                                assert(s_new[w].1 == s_old[w].1);
                            }
                        }
                    }
                    // An existing path changes nothing observable.
                    if old_self.spec_find(tail) is Some {
                        assert(old_self.has_child(name));
                        old_self.lemma_child_at(name, j as int);
                        assert(c_old.spec_find(tail.skip(1)) is Some);
                        assert(c_new.spec_find(tail.skip(1)) == c_old.spec_find(tail.skip(1)));
                        assert(*assigner == a0);
                        assert forall|p: Seq<Seq<char>>|
                            self.spec_find(p) == old_self.spec_find(p) by {
                            if p.len() != 0 {
                                if old_self.has_child(p[0]) {
                                    let w = choose|k: int|
                                        0 <= k < s_old.len() && s_old[k].0@ == p[0];
                                    old_self.lemma_child_at(p[0], w);
                                    assert(s_new[w].0@ == p[0]);
                                    self.lemma_child_at(p[0], w);
                                    if w == j {
                                        assert(c_new.spec_find(p.skip(1)) == c_old.spec_find(
                                            p.skip(1),
                                        ));
                                    }
                                } else {
                                    assert(!self.has_child(p[0])) by {
                                        if self.has_child(p[0]) {
                                            let w = choose|k: int|
                                                0 <= k < s_new.len() && s_new[k].0@ == p[0];
                                            assert(s_old[w].0@ == p[0]);
                                        }
                                    }
                                }
                            }
                        }
                    } else {
                        assert(!old_self.contains_id(r.0 as int)) by {
                            if old_self.has_child(name) {
                                old_self.lemma_child_at(name, j as int);
                                assert(c_old.spec_find(tail.skip(1)) is None);
                                assert(!c_old.contains_id(r.0 as int));
                                if old_self.contains_id(r.0 as int) {
                                    if r.0 as int != old_self.id.0 {
                                        let k = choose|k: int|
                                            0 <= k < s_old.len() && (
                                            #[trigger] s_old[k]).1.contains_id(r.0 as int);
                                        if k != j {
                                            assert(a0 < r.0);
                                            old_self.lemma_child_contains(k, r.0 as int);
                                            assert(r.0 <= a0);
                                        }
                                    } else {
                                        assert(old_self.id.0 <= a0);
                                        assert(a0 < r.0);
                                    }
                                }
                            }
                        }
                    }
                }
                r
            },
            None => {
                proof {
                    assert(self.spec_find(tail) is None);
                }
                let ghost old_self = *self;
                let ghost a0 = *assigner;
                *assigner = *assigner + 1;
                let mut new_node = NamespaceTreeNode {
                    children: Vec::new(),
                    id: NamespaceId(*assigner),
                };
                let r: NamespaceId;
                if i + 1 == path.len() {
                    proof {
                        assert(tail.skip(1) =~= Seq::<Seq<char>>::empty());
                    }
                    r = new_node.id;
                } else {
                    proof {
                        assert(path_view(path@).skip(i as int + 1).len() > 0);
                        assert(new_node.children@.len() == 0);
                        assert(new_node.spec_find(path_view(path@).skip(i as int + 1)) is None);
                        assert forall|x: int| new_node.contains_id(x) implies x < *assigner
                            + 1 by {}
                    }
                    r = new_node.insert_or_find_namespace(path, i + 1, assigner);
                    proof {
                        assert(r.0 > a0 + 1 - 1);
                        new_node.lemma_find_contains(path_view(path@).skip(i as int + 1));
                        assert(new_node.contains_id(r.0 as int));
                        assert(r.0 < *assigner + 1);
                    }
                }
                let ghost nn = new_node;
                self.children.push((path[i].clone(), new_node));
                proof {
                    let s_old = old_self.children@;
                    let s_new = self.children@;
                    assert(s_new =~= s_old.push((path@[i as int], nn)));
                    assert(s_new[s_old.len() as int].1 == nn);
                    assert(s_new[s_old.len() as int].0@ == name);
                    let jn = s_old.len() as int;
                    // The fresh subtree's IDs are all above a0.
                    assert(forall|x: int| nn.contains_id(x) ==> a0 < x <= *assigner);
                    assert(old_self.contains_id(old_self.id.0 as int));
                    assert(old_self.id.0 <= a0);
                    // Well-formedness.
                    assert(unique_keys(s_new)) by {
                        assert(forall|k: int| 0 <= k < jn ==> (#[trigger] s_new[k]) == s_old[k]);
                        assert forall|k: int, l: int|
                            0 <= k < l < s_new.len() implies (#[trigger] s_new[k].0@) != (
                        #[trigger] s_new[l].0@) by {
                            if l == jn {
                                assert(s_old[k].0@ != name) by {
                                    if s_old[k].0@ == name {
                                        assert(old_self.has_child(name));
                                    }
                                }
                            }
                        }
                    }
                    assert forall|k: int, l: int, x: int|
                        0 <= k < l < s_new.len() && #[trigger] s_new[k].1.contains_id(x)
                            implies !#[trigger] s_new[l].1.contains_id(x) by {
                        if l == jn {
                            if s_new[l].1.contains_id(x) {
                                assert(a0 < x);
                                old_self.lemma_child_contains(k, x);
                            }
                        }
                    }
                    assert forall|k: int|
                        0 <= k < s_new.len() implies !(#[trigger] s_new[k]).1.contains_id(
                        self.id.0 as int,
                    ) by {
                        if k == jn {
                            if nn.contains_id(self.id.0 as int) {
                                assert(a0 < self.id.0);
                            }
                        }
                    }
                    assert forall|k: int| 0 <= k < s_new.len() implies (
                    #[trigger] s_new[k]).1.wf() by {
                        if k != jn {
                            assert(s_old[k].1.wf());
                        }
                    }
                    assert(self.wf());
                    // ID transfer and boundedness.
                    assert forall|x: int| self.contains_id(x) implies old_self.contains_id(x)
                        || (a0 < x <= *assigner) by {
                        if x != self.id.0 {
                            let k = choose|k: int|
                                0 <= k < s_new.len() && (#[trigger] s_new[k]).1.contains_id(x);
                            if k != jn {
                                old_self.lemma_child_contains(k, x);
                            }
                        }
                    }
                    assert forall|x: int| old_self.contains_id(x) implies self.contains_id(x) by {
                        if x != old_self.id.0 {
                            let k = choose|k: int|
                                0 <= k < s_old.len() && (#[trigger] s_old[k]).1.contains_id(x);
                            self.lemma_child_contains(k, x);
                        }
                    }
                    assert forall|x: int| self.contains_id(x) implies x < *assigner + 1 by {
                        if old_self.contains_id(x) {
                            assert(x < a0 + 1);
                        }
                    }
                    // The fresh ID is genuinely fresh.
                    assert(a0 < r.0 <= *assigner);
                    assert(!old_self.contains_id(r.0 as int));
                    // The path is now found.
                    assert(self.has_child(name)) by {
                        assert(s_new[jn].0@ == name);
                    }
                    self.lemma_child_at(name, jn);
                    assert(nn.spec_find(tail.skip(1)) == Some(r));
                    assert(self.spec_find(tail) == Some(r));
                    // Old lookups are preserved.
                    assert forall|p: Seq<Seq<char>>| old_self.spec_find(p) is Some
                        implies self.spec_find(p) == old_self.spec_find(p) by {
                        if p.len() != 0 {
                            assert(old_self.has_child(p[0]));
                            let w = choose|k: int|
                                0 <= k < s_old.len() && s_old[k].0@ == p[0];
                            old_self.lemma_child_at(p[0], w);
                            assert(s_new[w].0@ == p[0]);
                            self.lemma_child_at(p[0], w);
                            assert(s_new[w].1 == s_old[w].1);
                        }
                    }
                }
                r
            },
        }
    }

    /// Search this subtree for the node carrying `id`; on success return
    /// the path of segment names leading to it together with the node.
    pub fn find_id(&self, id: NamespaceId) -> (r: (Vec<String>, Option<&NamespaceTreeNode>))
        requires
            self.wf(),
        ensures
            match r.1 {
                Some(node) => {
                    &&& self.spec_find(path_view(r.0@)) == Some(id)
                    &&& *node == self.spec_node_at(path_view(r.0@))
                    &&& node.id == id
                },
                None => !self.contains_id(id.0 as int),
            },
        decreases self,
    {
        if self.id == id {
            proof {
                assert(path_view(Seq::<String>::empty()) =~= Seq::<Seq<char>>::empty());
            }
            return (Vec::new(), Some(self));
        }
        let n = self.children.len();
        let mut j: usize = 0;
        while j < n
            invariant
                self.wf(),
                self.id != id,
                n == self.children@.len(),
                j <= n,
                forall|k: int|
                    0 <= k < j ==> !(#[trigger] self.children@[k]).1.contains_id(id.0 as int),
            decreases n - j,
        {
            proof {
                assert(self.children@[j as int].1.wf());
            }
            let (mut sub, found) = self.children[j].1.find_id(id);
            if found.is_some() {
                let ghost sub0 = sub@;
                let mut names: Vec<String> = Vec::new();
                names.push(self.children[j].0.clone());
                names.append(&mut sub);
                proof {
                    let sname = self.children@[j as int].0@;
                    self.lemma_child_at(sname, j as int);
                    let pv = path_view(names@);
                    assert(names@.len() == 1 + sub0.len());
                    assert(names@[0]@ == sname);
                    assert(pv[0] == sname);
                    assert forall|k: int| 0 <= k < sub0.len() implies pv.skip(1)[k] == path_view(
                        sub0,
                    )[k] by {
                        assert(names@[k + 1] == sub0[k]);
                        assert(pv.skip(1)[k] == pv[k + 1]);
                    }
                    assert(pv.skip(1) =~= path_view(sub0));
                    assert(self.spec_find(pv) == self.children@[j as int].1.spec_find(
                        pv.skip(1),
                    ));
                }
                return (names, found);
            }
            j += 1;
        }
        proof {
            assert(!self.contains_id(id.0 as int));
        }
        (Vec::new(), None)
    }
}

impl NamespaceTreeRoot {
    /// Every ID in the tree has been issued by the counter, and the tree
    /// is well-formed.
    pub open spec fn wf(self) -> bool {
        &&& self.tree.wf()
        &&& self.tree.bounded(self.assigner as int + 1)
    }

    /// The ID of the node reached by `path` from the root.
    pub open spec fn spec_find(self, path: Seq<Seq<char>>) -> Option<NamespaceId> {
        self.tree.spec_find(path)
    }

    /// Create a new namespace tree root. The assigner is used to assign
    /// new namespace IDs.
    pub fn new(assigner: usize, tree: NamespaceTreeNode) -> (r: Self)
        ensures
            r.assigner == assigner,
            r.tree == tree,
    {
        Self { assigner, tree }
    }

    /// The root node of the namespace tree.
    pub fn tree(&self) -> (r: &NamespaceTreeNode)
        ensures
            r == &self.tree,
    {
        &self.tree
    }

    /// Look up the namespace reached by `path` from the root.
    pub fn find_namespace(&self, path: &Vec<String>) -> (r: Option<NamespaceId>)
        requires
            self.wf(),
        ensures
            r == self.spec_find(path_view(path@)),
    {
        self.tree.find_namespace(path)
    }

    /// Insert a namespace into the tree. If the namespace already
    /// exists, return its ID and change nothing; otherwise create the
    /// missing nodes and return the fresh ID of the terminal node.
    pub fn insert_or_find_namespace(&mut self, ns: &Vec<String>) -> (r: NamespaceId)
        requires
            old(self).wf(),
            old(self).assigner + ns@.len() <= usize::MAX,
        ensures
            final(self).wf(),
            final(self).tree.id == old(self).tree.id,
            old(self).assigner <= final(self).assigner,
            final(self).assigner <= old(self).assigner + ns@.len(),
            final(self).assigner == old(self).assigner + old(self).tree.spec_missing_count(
                path_view(ns@),
            ),
            forall|x: int| old(self).tree.contains_id(x) ==> final(self).tree.contains_id(x),
            final(self).spec_find(path_view(ns@)) == Some(r),
            forall|p: Seq<Seq<char>>|
                old(self).spec_find(p) is Some ==> final(self).spec_find(p) == old(
                    self,
                ).spec_find(p),
            old(self).spec_find(path_view(ns@)) is Some ==> (old(self).spec_find(path_view(ns@))
                == Some(r) && final(self).assigner == old(self).assigner && (forall|
                p: Seq<Seq<char>>,
            |
                final(self).spec_find(p) == old(self).spec_find(p))),
            old(self).spec_find(path_view(ns@)) is None ==> !old(self).tree.contains_id(
                r.0 as int,
            ) && r.0 > old(self).assigner,
    {
        let r = self.tree.insert_or_find_namespace(ns, 0, &mut self.assigner);
        proof {
            assert(path_view(ns@).skip(0) =~= path_view(ns@));
        }
        r
    }

    /// Create a fresh tree node carrying the next ID from the counter.
    /// The node is not attached to the tree.
    pub fn new_namespace_node(
        &mut self,
        children: Vec<(String, NamespaceTreeNode)>,
    ) -> (r: NamespaceTreeNode)
        requires
            old(self).assigner < usize::MAX,
        ensures
            final(self).assigner == old(self).assigner + 1,
            final(self).tree == old(self).tree,
            r.id == NamespaceId((old(self).assigner + 1) as usize),
            r.children == children,
    {
        self.assigner = self.assigner + 1;
        NamespaceTreeNode { children, id: NamespaceId(self.assigner) }
    }

    /// Search the tree for the node carrying `id`; on success return the
    /// dotted path leading to it together with the node.
    pub fn find_id(&self, id: NamespaceId) -> (r: (Vec<String>, Option<&NamespaceTreeNode>))
        requires
            self.wf(),
        ensures
            match r.1 {
                Some(node) => {
                    &&& self.spec_find(path_view(r.0@)) == Some(id)
                    &&& *node == self.tree.spec_node_at(path_view(r.0@))
                    &&& node.id == id
                },
                None => !self.tree.contains_id(id.0 as int),
            },
    {
        self.tree.find_id(id)
    }

    /// The dotted path that carries `id`; meaningful only when some
    /// path does. Unique in a well-formed tree.
    pub open spec fn spec_path_of_id(self, id: NamespaceId) -> Seq<Seq<char>> {
        choose|p: Seq<Seq<char>>| self.tree.spec_find(p) == Some(id)
    }

    /// The node that carries `id`; meaningful only when some path
    /// leads to it.
    pub open spec fn spec_node_of_id(self, id: NamespaceId) -> NamespaceTreeNode {
        self.tree.spec_node_at(self.spec_path_of_id(id))
    }

    /// In a well-formed tree, any path that leads to `id` is the path
    /// of `id`, and the node reached is the node of `id`.
    pub proof fn lemma_node_of_id(self, p: Seq<Seq<char>>, id: NamespaceId)
        requires
            self.wf(),
            self.tree.spec_find(p) == Some(id),
        ensures
            self.spec_path_of_id(id) == p,
            self.spec_node_of_id(id) == self.tree.spec_node_at(p),
            self.spec_node_of_id(id).wf(),
            self.spec_node_of_id(id).id == id,
    {
        assert(exists|q: Seq<Seq<char>>| self.tree.spec_find(q) == Some(id));
        let q = self.spec_path_of_id(id);
        if q != p {
            self.tree.lemma_find_injective(q, p);
        }
        self.tree.lemma_node_at_wf(p);
        self.tree.lemma_find_contains(p);
    }

    /// Law: in a well-formed tree, distinct dotted paths always carry
    /// distinct namespace IDs.
    pub proof fn lemma_distinct_paths_distinct_ids(self, p1: Seq<Seq<char>>, p2: Seq<Seq<char>>)
        requires
            self.wf(),
            self.spec_find(p1) is Some,
            self.spec_find(p2) is Some,
            p1 != p2,
        ensures
            self.spec_find(p1) != self.spec_find(p2),
    {
        self.tree.lemma_find_injective(p1, p2);
    }

    /// The ID of the root (global) namespace.
    pub fn root_id(&self) -> (r: NamespaceId)
        ensures
            r == self.tree.id,
    {
        self.tree.id
    }
}

impl Default for NamespaceTreeRoot {
    /// An empty tree: just the root node, with ID `0` and no IDs issued.
    fn default() -> (r: Self)
        ensures
            r.assigner == 0,
            r.tree.id == NamespaceId(0),
            r.tree.children@.len() == 0,
            r.wf(),
    {
        let tree = NamespaceTreeNode { children: Vec::new(), id: NamespaceId(0) };
        Self { assigner: 0, tree }
    }
}

} // verus!
