use vstd::prelude::*;

use crate::qualified_path::QualifiedPath;

verus! {

/// The fixed segment under an area that roots its feature subtree.
pub const FEATURES_PREFIX: &'static str = "feature";

/// The fixed segment under an area that roots its product subtree.
pub const PRODUCTS_PREFIX: &'static str = "product";

/// The namespace role of a tree node.
#[derive(Clone, Copy, PartialEq, Eq, Structural, Debug)]
pub enum NodeType {
    VirtualRoot,
    Area,
    FeatureRoot,
    Feature,
    ProductRoot,
    Product,
    Tag,
}

/// Per-node record of whether a real backend branch exists at the node's
/// path; tags always lack a branch.
#[derive(Clone, Copy, PartialEq, Eq, Structural, Debug)]
pub struct NodeMetadata {
    has_branch: bool,
}

impl NodeMetadata {
    pub closed spec fn spec_has_branch(&self) -> bool {
        self.has_branch
    }

    pub fn new(has_branch: bool) -> (r: Self)
        ensures
            r.spec_has_branch() == has_branch,
    {
        Self { has_branch }
    }

    pub fn has_branch(&self) -> (r: bool)
        ensures
            r == self.spec_has_branch(),
    {
        self.has_branch
    }
}

impl Default for NodeMetadata {
    fn default() -> (r: Self)
        ensures
            !r.spec_has_branch(),
    {
        Self { has_branch: false }
    }
}

/// One node of the namespace tree. Nodes live in the arena owned by
/// `TreeDataModel` and name their children by arena index.
pub struct Node {
    name: String,
    node_type: NodeType,
    metadata: NodeMetadata,
    children: Vec<usize>,
}

impl Node {
    pub closed spec fn spec_name(&self) -> Seq<char> {
        self.name@
    }

    pub closed spec fn spec_type(&self) -> NodeType {
        self.node_type
    }

    pub closed spec fn spec_metadata(&self) -> NodeMetadata {
        self.metadata
    }

    pub closed spec fn spec_children(&self) -> Seq<usize> {
        self.children@
    }

    pub fn get_name(&self) -> (r: &String)
        ensures
            r@ == self.spec_name(),
    {
        &self.name
    }

    pub fn get_type(&self) -> (r: NodeType)
        ensures
            r == self.spec_type(),
    {
        self.node_type
    }

    pub fn get_metadata(&self) -> (r: &NodeMetadata)
        ensures
            *r == self.spec_metadata(),
    {
        &self.metadata
    }
}

/// The classification of a freshly created node, by the fixed position
/// rules: the first segment under the virtual root is an area; under an
/// area only the feature and product roots may be created; below those the
/// role repeats; a tag is only ever a leaf, and nothing hangs below a tag.
pub open spec fn classify(parent: NodeType, name: Seq<char>, is_last: bool, is_tag: bool) -> Option<
    NodeType,
> {
    if parent == NodeType::Tag {
        None
    } else if is_tag && is_last {
        Some(NodeType::Tag)
    } else {
        match parent {
            NodeType::VirtualRoot => Some(NodeType::Area),
            NodeType::Area => if name == FEATURES_PREFIX@ {
                Some(NodeType::FeatureRoot)
            } else if name == PRODUCTS_PREFIX@ {
                Some(NodeType::ProductRoot)
            } else {
                None
            },
            NodeType::FeatureRoot | NodeType::Feature => Some(NodeType::Feature),
            NodeType::ProductRoot | NodeType::Product => Some(NodeType::Product),
            _ => None,
        }
    }
}

/// The in-memory tree model of the namespace, rooted at a synthetic virtual
/// root at arena index zero, together with the list of paths that carry a
/// real backend branch.
pub struct TreeDataModel {
    nodes: Vec<Node>,
    qualified_paths_with_branch: Vec<QualifiedPath>,
}

impl TreeDataModel {
    pub closed spec fn node_count(&self) -> int {
        self.nodes@.len() as int
    }

    pub closed spec fn node_name(&self, i: int) -> Seq<char> {
        self.nodes@[i].spec_name()
    }

    pub closed spec fn node_type_of(&self, i: int) -> NodeType {
        self.nodes@[i].spec_type()
    }

    pub closed spec fn node_has_branch(&self, i: int) -> bool {
        self.nodes@[i].spec_metadata().spec_has_branch()
    }

    pub closed spec fn children_of(&self, i: int) -> Seq<usize> {
        self.nodes@[i].spec_children()
    }

    /// The views of the recorded branch-bearing paths.
    pub closed spec fn branch_paths(&self) -> Seq<Seq<Seq<char>>> {
        self.qualified_paths_with_branch@.map_values(|p: QualifiedPath| p@)
    }

    /// Well-formedness of the arena: a virtual root at index zero, every
    /// child index in range and greater than its parent's, and no two
    /// children of one node sharing a name.
    pub closed spec fn wf(&self) -> bool {
        &&& self.nodes@.len() >= 1
        &&& self.nodes@[0].spec_type() == NodeType::VirtualRoot
        &&& forall|i: int, k: int|
            0 <= i < self.nodes@.len() && 0 <= k < self.children_of(i).len() ==> (i < #[trigger] self.children_of(i)[k] < self.nodes@.len())
        &&& forall|i: int, k1: int, k2: int|
            0 <= i < self.nodes@.len() && 0 <= k1 < self.children_of(i).len() && 0 <= k2
                < self.children_of(i).len() && k1 != k2 ==> self.node_name(
                #[trigger] self.children_of(i)[k1] as int,
            ) != self.node_name(#[trigger] self.children_of(i)[k2] as int)
    }

    /// The child of node `i` whose name is `name`, searching in insertion
    /// order from position `k` on.
    pub closed spec fn child_search(&self, i: int, name: Seq<char>, k: int) -> Option<usize>
        decreases self.children_of(i).len() - k,
    {
        if k < 0 || k >= self.children_of(i).len() {
            None
        } else if self.node_name(self.children_of(i)[k] as int) == name {
            Some(self.children_of(i)[k])
        } else {
            self.child_search(i, name, k + 1)
        }
    }

    pub open spec fn child_with_name(&self, i: int, name: Seq<char>) -> Option<usize> {
        self.child_search(i, name, 0)
    }

    /// Walking from node `i` through the given segments: the chain of nodes
    /// visited, absent as soon as a segment is missing.
    pub open spec fn walk(&self, i: int, segs: Seq<Seq<char>>) -> Option<Seq<usize>>
        decreases segs.len(),
    {
        if segs.len() == 0 {
            Some(Seq::<usize>::empty())
        } else {
            match self.child_with_name(i, segs[0]) {
                Some(c) => match self.walk(c as int, segs.drop_first()) {
                    Some(rest) => Some(seq![c] + rest),
                    None => None,
                },
                None => None,
            }
        }
    }

    /// Whether inserting the given segments below node `i` respects the
    /// classification rules: existing nodes are walked as they stand, and
    /// every node to be created must classify.
    pub open spec fn insert_ok_from(&self, i: int, segs: Seq<Seq<char>>, is_tag: bool) -> bool
        decreases segs.len(),
    {
        if segs.len() == 0 {
            true
        } else {
            match self.child_with_name(i, segs[0]) {
                Some(c) => self.insert_ok_from(c as int, segs.drop_first(), is_tag),
                None => new_chain_ok(self.node_type_of(i), segs, is_tag),
            }
        }
    }

    /// Whether the whole path may be inserted.
    pub open spec fn insert_ok(&self, path: Seq<Seq<char>>, is_tag: bool) -> bool {
        self.insert_ok_from(0, path.skip(1), is_tag)
    }

    /// True if `path` is recorded as carrying a backend branch.
    pub open spec fn has_branch_spec(&self, path: Seq<Seq<char>>) -> bool {
        exists|i: int| 0 <= i < self.branch_paths().len() && self.branch_paths()[i] == path
    }

    /// A fresh model: only the virtual root, and no branch-bearing paths.
    pub fn new() -> (r: Self)
        ensures
            r.wf(),
            r.node_count() == 1,
            r.branch_paths() == Seq::<Seq<Seq<char>>>::empty(),
            r.node_type_of(0) == NodeType::VirtualRoot,
            r.children_of(0).len() == 0,
            r.node_name(0) == Seq::<char>::empty(),
    {
        let root = Node {
            name: String::new(),
            node_type: NodeType::VirtualRoot,
            metadata: NodeMetadata::new(false),
            children: Vec::new(),
        };
        let mut nodes: Vec<Node> = Vec::new();
        nodes.push(root);
        let r = TreeDataModel { nodes, qualified_paths_with_branch: Vec::new() };
        proof {
            assert(r.branch_paths() =~= Seq::<Seq<Seq<char>>>::empty());
        }
        r
    }

    /// The recorded branch-bearing paths.
    pub fn get_qualified_paths_with_branches(&self) -> (r: &Vec<QualifiedPath>)
        ensures
            r@.map_values(|p: QualifiedPath| p@) == self.branch_paths(),
    {
        &self.qualified_paths_with_branch
    }

    /// Membership in the recorded branch-bearing path list.
    pub fn has_branch(&self, qualified_path: &QualifiedPath) -> (r: bool)
        ensures
            r == self.has_branch_spec(qualified_path@),
    {
        let n = self.qualified_paths_with_branch.len();
        let mut i: usize = 0;
        while i < n
            invariant
                0 <= i <= n,
                n == self.branch_paths().len(),
                self.qualified_paths_with_branch@.len() == n,
                forall|k: int| 0 <= k < i ==> self.branch_paths()[k] != qualified_path@,
            decreases n - i,
        {
            if self.qualified_paths_with_branch[i] == *qualified_path {
                proof {
                    assert(self.branch_paths()[i as int] == qualified_path@);
                }
                return true;
            }
            i = i + 1;
        }
        false
    }

    /// The node at arena index `i`.
    pub fn node_at(&self, i: usize) -> (r: &Node)
        requires
            0 <= i < self.node_count(),
        ensures
            r.spec_name() == self.node_name(i as int),
            r.spec_type() == self.node_type_of(i as int),
            r.spec_metadata().spec_has_branch() == self.node_has_branch(i as int),
            r.spec_children() == self.children_of(i as int),
    {
        &self.nodes[i]
    }

    /// The namespace role of the node at index `i`.
    pub fn node_type_at(&self, i: usize) -> (r: NodeType)
        requires
            0 <= i < self.node_count(),
        ensures
            r == self.node_type_of(i as int),
    {
        self.nodes[i].node_type
    }

    /// How many children the node at index `i` has.
    pub fn child_count(&self, i: usize) -> (r: usize)
        requires
            0 <= i < self.node_count(),
        ensures
            r == self.children_of(i as int).len(),
    {
        self.nodes[i].children.len()
    }

    /// The `k`-th child of the node at index `i`.
    pub fn child_at(&self, i: usize, k: usize) -> (r: usize)
        requires
            self.wf(),
            0 <= i < self.node_count(),
            0 <= k < self.children_of(i as int).len(),
        ensures
            r == self.children_of(i as int)[k as int],
            i < r < self.node_count(),
    {
        self.nodes[i].children[k]
    }

    /// The child of node `i` named `name`, if any.
    pub(crate) fn find_child(&self, i: usize, name: &String) -> (r: Option<usize>)
        requires
            self.wf(),
            0 <= i < self.node_count(),
        ensures
            r == self.child_with_name(i as int, name@),
    {
        let kids = &self.nodes[i].children;
        let n = kids.len();
        let mut k: usize = 0;
        while k < n
            invariant
                0 <= k <= n,
                0 <= i < self.node_count(),
                n == self.children_of(i as int).len(),
                kids == &self.nodes[i as int].children,
                self.child_with_name(i as int, name@) == self.child_search(i as int, name@, k as int),
                forall|j: int|
                    0 <= j < n ==> #[trigger] self.children_of(i as int)[j] < self.node_count(),
            decreases n - k,
        {
            let c = kids[k];
            if self.nodes[c].name == *name {
                return Some(c);
            }
            k = k + 1;
        }
        None
    }
}

/// A well-formed model has the virtual root at index zero.
pub proof fn lemma_wf_root(m: &TreeDataModel)
    requires
        m.wf(),
    ensures
        m.node_count() >= 1,
        m.node_type_of(0) == NodeType::VirtualRoot,
{
}

/// In a well-formed model every child index lies strictly between its
/// parent's index and the arena size.
pub proof fn lemma_wf_child_bounds(m: &TreeDataModel, i: int, k: int)
    requires
        m.wf(),
        0 <= i < m.node_count(),
        0 <= k < m.children_of(i).len(),
    ensures
        i < m.children_of(i)[k] < m.node_count(),
{
}

/// One model preserves another's lookups when it keeps every old node's
/// name and only appends to children lists and to the arena.
pub open spec fn preserves_lookups(m1: &TreeDataModel, m2: &TreeDataModel) -> bool {
    &&& m2.node_count() >= m1.node_count()
    &&& forall|i: int|
        0 <= i < m1.node_count() ==> #[trigger] m1.children_of(i).is_prefix_of(m2.children_of(i))
    &&& forall|i: int| 0 <= i < m1.node_count() ==> #[trigger] m2.node_name(i) == m1.node_name(i)
}

/// Lookup preservation is reflexive.
pub proof fn lemma_preserves_lookups_refl(m: &TreeDataModel)
    ensures
        preserves_lookups(m, m),
{
    assert forall|i: int|
        0 <= i < m.node_count() implies #[trigger] m.children_of(i).is_prefix_of(
        m.children_of(i),
    ) by {
        assert(m.children_of(i) =~= m.children_of(i).take(m.children_of(i).len() as int));
    }
}

/// Lookup preservation composes.
pub proof fn lemma_preserves_lookups_trans(
    m1: &TreeDataModel,
    m2: &TreeDataModel,
    m3: &TreeDataModel,
)
    requires
        preserves_lookups(m1, m2),
        preserves_lookups(m2, m3),
    ensures
        preserves_lookups(m1, m3),
{
    assert forall|i: int|
        0 <= i < m1.node_count() implies #[trigger] m1.children_of(i).is_prefix_of(
        m3.children_of(i),
    ) by {
        assert(m1.children_of(i).is_prefix_of(m2.children_of(i)));
        assert(m2.children_of(i).is_prefix_of(m3.children_of(i)));
        assert(m1.children_of(i) =~= m3.children_of(i).take(m1.children_of(i).len() as int));
    }
}

proof fn lemma_child_search_preserved(m1: &TreeDataModel, m2: &TreeDataModel, i: int, name: Seq<char>, k: int)
    requires
        m1.wf(),
        preserves_lookups(m1, m2),
        0 <= i < m1.node_count(),
        m1.child_search(i, name, k) is Some,
        0 <= k,
    ensures
        m2.child_search(i, name, k) == m1.child_search(i, name, k),
    decreases m1.children_of(i).len() - k,
{
    assert(m1.children_of(i).is_prefix_of(m2.children_of(i)));
    assert(k < m1.children_of(i).len());
    assert(m2.children_of(i)[k] == m1.children_of(i)[k]);
    let c = m1.children_of(i)[k];
    assert(0 <= c < m1.node_count());
    assert(m2.node_name(c as int) == m1.node_name(c as int));
    if m1.node_name(c as int) != name {
        lemma_child_search_preserved(m1, m2, i, name, k + 1);
    }
}

/// A walk that resolved keeps resolving, to the same chain, in any model
/// that preserves the lookups of the one it resolved in.
pub proof fn lemma_walk_preserved(m1: &TreeDataModel, m2: &TreeDataModel, i: int, segs: Seq<Seq<char>>)
    requires
        m1.wf(),
        preserves_lookups(m1, m2),
        0 <= i < m1.node_count(),
        m1.walk(i, segs) is Some,
    ensures
        m2.walk(i, segs) == m1.walk(i, segs),
    decreases segs.len(),
{
    if segs.len() > 0 {
        let c = m1.child_with_name(i, segs[0]);
        lemma_child_search_preserved(m1, m2, i, segs[0], 0);
        lemma_child_search_in_range(m1, i, segs[0], 0);
        lemma_walk_preserved(m1, m2, c->Some_0 as int, segs.drop_first());
    }
}

pub(crate) proof fn lemma_child_search_in_range(m: &TreeDataModel, i: int, name: Seq<char>, k: int)
    requires
        m.wf(),
        0 <= i < m.node_count(),
        0 <= k,
        m.child_search(i, name, k) is Some,
    ensures
        i < m.child_search(i, name, k)->Some_0 < m.node_count(),
        m.node_name(m.child_search(i, name, k)->Some_0 as int) == name,
        m.children_of(i).contains(m.child_search(i, name, k)->Some_0),
    decreases m.children_of(i).len() - k,
{
    assert(k < m.children_of(i).len());
    if m.node_name(m.children_of(i)[k] as int) != name {
        lemma_child_search_in_range(m, i, name, k + 1);
    } else {
        assert(m.children_of(i)[k] == m.child_search(i, name, k)->Some_0);
    }
}

proof fn lemma_child_search_none(m: &TreeDataModel, i: int, name: Seq<char>, k: int)
    requires
        0 <= k,
        m.child_search(i, name, k) is None,
    ensures
        forall|j: int|
            k <= j < m.children_of(i).len() ==> m.node_name(
                #[trigger] m.children_of(i)[j] as int,
            ) != name,
    decreases m.children_of(i).len() - k,
{
    if k < m.children_of(i).len() {
        lemma_child_search_none(m, i, name, k + 1);
    }
}

/// Whether a chain of entirely new nodes may hang below a node of type `t`.
pub open spec fn new_chain_ok(t: NodeType, segs: Seq<Seq<char>>, is_tag: bool) -> bool
    decreases segs.len(),
{
    if segs.len() == 0 {
        true
    } else {
        match classify(t, segs[0], segs.len() == 1, is_tag) {
            Some(ct) => new_chain_ok(ct, segs.drop_first(), is_tag),
            None => false,
        }
    }
}

/// The classification rules as executable code.
fn classify_exec(parent: NodeType, name: &String, is_last: bool, is_tag: bool) -> (r: Option<
    NodeType,
>)
    ensures
        r == classify(parent, name@, is_last, is_tag),
{
    if parent == NodeType::Tag {
        None
    } else if is_tag && is_last {
        Some(NodeType::Tag)
    } else {
        match parent {
            NodeType::VirtualRoot => Some(NodeType::Area),
            NodeType::Area => {
                if *name == String::from_str(FEATURES_PREFIX) {
                    Some(NodeType::FeatureRoot)
                } else if *name == String::from_str(PRODUCTS_PREFIX) {
                    Some(NodeType::ProductRoot)
                } else {
                    None
                }
            },
            NodeType::FeatureRoot | NodeType::Feature => Some(NodeType::Feature),
            NodeType::ProductRoot | NodeType::Product => Some(NodeType::Product),
            _ => None,
        }
    }
}

fn chain_ok(t: NodeType, segs: &Vec<String>, k: usize, is_tag: bool) -> (r: bool)
    requires
        k <= segs@.len(),
    ensures
        r == new_chain_ok(t, segs@.map_values(|s: String| s@).skip(k as int), is_tag),
    decreases segs@.len() - k,
{
    let ghost ss = segs@.map_values(|s: String| s@).skip(k as int);
    if k == segs.len() {
        proof {
            assert(ss.len() == 0);
        }
        true
    } else {
        proof {
            assert(ss[0] == segs@[k as int]@);
        }
        match classify_exec(t, &segs[k], k == segs.len() - 1, is_tag) {
            Some(ct) => {
                let r = chain_ok(ct, segs, k + 1, is_tag);
                proof {
                    assert(segs@.map_values(|s: String| s@).skip(k + 1 as int) =~= ss.drop_first());
                }
                r
            },
            None => false,
        }
    }
}

impl TreeDataModel {
    fn can_insert_from(&self, i: usize, segs: &Vec<String>, k: usize, is_tag: bool) -> (r: bool)
        requires
            self.wf(),
            0 <= i < self.node_count(),
            k <= segs@.len(),
        ensures
            r == self.insert_ok_from(
                i as int,
                segs@.map_values(|s: String| s@).skip(k as int),
                is_tag,
            ),
        decreases segs@.len() - k,
    {
        let ghost ss = segs@.map_values(|s: String| s@).skip(k as int);
        if k == segs.len() {
            proof {
                assert(ss.len() == 0);
            }
            true
        } else {
            proof {
                assert(ss[0] == segs@[k as int]@);
            }
            match self.find_child(i, &segs[k]) {
                Some(c) => {
                    proof {
                        lemma_child_search_in_range(self, i as int, ss[0], 0);
                        assert(segs@.map_values(|s: String| s@).skip(k + 1 as int)
                            =~= ss.drop_first());
                    }
                    self.can_insert_from(c, segs, k + 1, is_tag)
                },
                None => {
                    let t = self.nodes[i].node_type;
                    chain_ok(t, segs, k, is_tag)
                },
            }
        }
    }

    /// Inserts an absolute path into the tree, walking and creating nodes
    /// from the virtual root by the classification rules, and records the
    /// path in the branch-bearing list. Re-inserting an existing path is
    /// idempotent: the tree already holds its nodes and the list is left
    /// unchanged. On a classification error nothing is changed. Existing
    /// nodes keep their names and positions, so earlier lookups still
    /// resolve.
    pub fn insert_qualified_path(&mut self, path: QualifiedPath, is_tag: bool) -> (r: Result<
        (),
        WrongNodeTypeError,
    >)
        requires
            old(self).wf(),
            path@.len() > 0,
            path@[0] == Seq::<char>::empty(),
        ensures
            final(self).wf(),
            preserves_lookups(old(self), final(self)),
            r is Ok <==> old(self).insert_ok(path@, is_tag),
            r is Err ==> *final(self) == *old(self),
            r is Ok ==> final(self).branch_paths() == (if old(self).has_branch_spec(path@) {
                old(self).branch_paths()
            } else {
                old(self).branch_paths().push(path@)
            }),
            r is Ok ==> final(self).walk(0, path@.skip(1)) is Some,
            r is Ok ==> final(self).has_branch_spec(path@),
    {
        let tail = path.strip_n_left(1);
        let segs = tail.iter_string();
        let ghost ss = path@.skip(1);
        proof {
            assert(segs@.map_values(|s: String| s@).skip(0) =~= ss);
        }
        if !self.can_insert_from(0, &segs, 0, is_tag) {
            proof {
                lemma_preserves_lookups_refl(self);
            }
            return Err(WrongNodeTypeError::new());
        }
        let n = segs.len();
        let mut i: usize = 0;
        let mut k: usize = 0;
        let ghost mut chain: Seq<usize> = Seq::empty();
        proof {
            assert(ss.take(0) =~= Seq::<Seq<char>>::empty());
            lemma_preserves_lookups_refl(self);
        }
        while k < n
            invariant
                0 <= k <= n,
                n == ss.len(),
                segs@.map_values(|s: String| s@) == ss,
                self.wf(),
                0 <= i < self.node_count(),
                k == 0 ==> i == 0,
                k > 0 ==> chain.len() > 0 && chain.last() == i,
                self.walk(0, ss.take(k as int)) == Some(chain),
                self.insert_ok_from(i as int, ss.skip(k as int), is_tag),
                self.branch_paths() == old(self).branch_paths(),
                preserves_lookups(old(self), self),
            decreases n - k,
        {
            let ghost pre = *self;
            proof {
                assert(ss[k as int] == segs@[k as int]@);
            }
            match self.find_child(i, &segs[k]) {
                Some(c) => {
                    proof {
                        lemma_child_search_in_range(self, i as int, ss[k as int], 0);
                        lemma_walk_snoc(self, ss, k as int, chain, c);
                        chain = chain.push(c);
                        assert(ss.skip(k + 1 as int) =~= ss.skip(k as int).drop_first());
                    }
                    i = c;
                },
                None => {
                    let t_parent = self.nodes[i].node_type;
                    let is_last = k == n - 1;
                    let maybe_t = classify_exec(t_parent, &segs[k], is_last, is_tag);
                    proof {
                        assert(new_chain_ok(t_parent, ss.skip(k as int), is_tag));
                        assert(ss.skip(k as int)[0] == ss[k as int]);
                        assert((ss.skip(k as int).len() == 1) == is_last);
                    }
                    let t = match maybe_t {
                        Some(t) => t,
                        None => {
                            proof {
                                assert(false);
                            }
                            NodeType::Area
                        },
                    };
                    let new_idx = self.nodes.len();
                    let node = Node {
                        name: segs[k].clone(),
                        node_type: t,
                        metadata: NodeMetadata::new(false),
                        children: Vec::new(),
                    };
                    self.nodes.push(node);
                    self.nodes[i].children.push(new_idx);
                    proof {
                        lemma_insert_step_shape(&pre, self, i as int, new_idx, t, ss[k as int]);
                        lemma_preserves_lookups_trans(old(self), &pre, self);
                        lemma_child_search_none(&pre, i as int, ss[k as int], 0);
                        lemma_search_appended(&pre, self, i as int, ss[k as int], new_idx);
                        lemma_walk_preserved(&pre, self, 0, ss.take(k as int));
                        lemma_walk_snoc(self, ss, k as int, chain, new_idx);
                        chain = chain.push(new_idx);
                        assert(ss.skip(k + 1 as int) =~= ss.skip(k as int).drop_first());
                        assert(self.children_of(new_idx as int).len() == 0);
                    }
                    i = new_idx;
                },
            }
            k = k + 1;
        }
        proof {
            assert(ss.take(n as int) =~= ss);
        }
        // record that a real branch exists at the final node; a tag never
        // carries one
        if !is_tag {
            let ghost pre = *self;
            let meta = NodeMetadata::new(true);
            self.nodes[i].metadata = meta;
            proof {
                lemma_metadata_update_shape(&pre, self, i as int);
                lemma_preserves_lookups_trans(old(self), &pre, self);
                lemma_walk_preserved(&pre, self, 0, ss);
            }
        }
        let ghost pre2 = *self;
        let already = self.has_branch(&path);
        proof {
            if already {
                let j = choose|j: int|
                    0 <= j < self.branch_paths().len() && self.branch_paths()[j] == path@;
                assert(old(self).branch_paths()[j] == path@);
                assert(old(self).has_branch_spec(path@));
            } else {
                if old(self).has_branch_spec(path@) {
                    let j = choose|j: int|
                        0 <= j < old(self).branch_paths().len() && old(self).branch_paths()[j]
                            == path@;
                    assert(self.branch_paths()[j] == path@);
                    assert(false);
                }
            }
        }
        if !already {
            self.qualified_paths_with_branch.push(path);
            proof {
                lemma_metadata_update_shape(&pre2, self, 0);
                lemma_preserves_lookups_trans(old(self), &pre2, self);
                lemma_walk_preserved(&pre2, self, 0, ss);
                assert(self.branch_paths() =~= pre2.branch_paths().push(path@));
                assert(self.branch_paths()[self.branch_paths().len() - 1] == path@);
            }
        }
        Ok(())
    }
}

proof fn lemma_walk_snoc(m: &TreeDataModel, ss: Seq<Seq<char>>, k: int, chain: Seq<usize>, c: usize)
    requires
        m.wf(),
        0 <= k < ss.len(),
        m.walk(0, ss.take(k)) == Some(chain),
        m.child_with_name(
            if k == 0 {
                0
            } else {
                chain.last() as int
            },
            ss[k],
        ) == Some(c),
        k > 0 ==> chain.len() > 0,
    ensures
        m.walk(0, ss.take(k + 1)) == Some(chain.push(c)),
{
    assert(ss.take(k + 1).take(k as int) =~= ss.take(k));
    assert(ss.take(k + 1).last() == ss[k]);
    assert(chain.len() == 0 ==> k == 0);
    lemma_walk_snoc_general(m, 0, ss.take(k + 1), chain, c);
}

pub(crate) proof fn lemma_walk_snoc_general(
    m: &TreeDataModel,
    i: int,
    segs: Seq<Seq<char>>,
    chain: Seq<usize>,
    c: usize,
)
    requires
        m.wf(),
        0 <= i < m.node_count(),
        segs.len() >= 1,
        m.walk(i, segs.take(segs.len() - 1)) == Some(chain),
        m.child_with_name(
            if chain.len() == 0 {
                i
            } else {
                chain.last() as int
            },
            segs.last(),
        ) == Some(c),
    ensures
        m.walk(i, segs) == Some(chain.push(c)),
    decreases segs.len(),
{
    if segs.len() == 1 {
        assert(segs.take(0) =~= Seq::<Seq<char>>::empty());
        assert(chain =~= Seq::<usize>::empty());
        assert(segs[0] == segs.last());
        assert(m.child_with_name(i, segs[0]) == Some(c));
        assert(segs.drop_first() =~= Seq::<Seq<char>>::empty());
        assert(m.walk(c as int, segs.drop_first()) == Some(Seq::<usize>::empty()));
        assert(m.walk(i, segs) == Some(seq![c] + Seq::<usize>::empty()));
        assert(seq![c] + Seq::<usize>::empty() =~= chain.push(c));
    } else {
        let pre = segs.take(segs.len() - 1);
        assert(pre[0] == segs[0]);
        let c0 = m.child_with_name(i, segs[0]);
        assert(c0 is Some);
        let c0v = c0->Some_0;
        lemma_child_search_in_range(m, i, segs[0], 0);
        let rest_pre = pre.drop_first();
        let rest_chain = m.walk(c0v as int, rest_pre);
        assert(rest_chain is Some);
        let tail = rest_chain->Some_0;
        assert(chain == seq![c0v] + tail);
        assert(chain.len() > 0);
        assert(chain.last() == if tail.len() == 0 {
            c0v
        } else {
            tail.last()
        });
        assert(segs.drop_first().take(segs.drop_first().len() - 1) =~= rest_pre);
        assert(segs.drop_first().last() == segs.last());
        lemma_walk_snoc_general(m, c0v as int, segs.drop_first(), tail, c);
        assert(seq![c0v] + tail.push(c) =~= (seq![c0v] + tail).push(c));
    }
}

/// Every node along a successful walk bears exactly the segment it was
/// found by, one node per segment.
pub proof fn lemma_walk_names(m: &TreeDataModel, i: int, segs: Seq<Seq<char>>)
    requires
        m.wf(),
        0 <= i < m.node_count(),
        m.walk(i, segs) is Some,
    ensures
        m.walk(i, segs)->Some_0.len() == segs.len(),
        forall|k: int|
            0 <= k < segs.len() ==> 0 <= #[trigger] m.walk(i, segs)->Some_0[k] < m.node_count()
                && m.node_name(m.walk(i, segs)->Some_0[k] as int) == segs[k],
    decreases segs.len(),
{
    if segs.len() > 0 {
        let c = m.child_with_name(i, segs[0])->Some_0;
        lemma_child_search_in_range(m, i, segs[0], 0);
        lemma_walk_names(m, c as int, segs.drop_first());
        let chain = m.walk(i, segs)->Some_0;
        let rest = m.walk(c as int, segs.drop_first())->Some_0;
        assert(chain == seq![c] + rest);
        assert forall|k: int|
            0 <= k < segs.len() implies 0 <= #[trigger] chain[k] < m.node_count() && m.node_name(
            chain[k] as int,
        ) == segs[k] by {
            if k == 0 {
                assert(chain[0] == c);
            } else {
                assert(chain[k] == rest[k - 1]);
                assert(segs.drop_first()[k - 1] == segs[k]);
            }
        }
    }
}

/// Shape facts after appending a fresh node as a child of node `j`.
proof fn lemma_insert_step_shape(
    m1: &TreeDataModel,
    m2: &TreeDataModel,
    j: int,
    new_idx: usize,
    t: NodeType,
    name: Seq<char>,
)
    requires
        m1.wf(),
        0 <= j < m1.node_count(),
        new_idx == m1.node_count(),
        m2.node_count() == m1.node_count() + 1,
        m2.node_name(new_idx as int) == name,
        m2.node_type_of(new_idx as int) == t,
        m2.children_of(new_idx as int) == Seq::<usize>::empty(),
        m2.children_of(j) == m1.children_of(j).push(new_idx),
        forall|x: int| 0 <= x < m1.node_count() ==> #[trigger] m2.node_name(x) == m1.node_name(x),
        forall|x: int|
            0 <= x < m1.node_count() ==> #[trigger] m2.node_type_of(x) == m1.node_type_of(x),
        forall|x: int|
            0 <= x < m1.node_count() && x != j ==> #[trigger] m2.children_of(x) == m1.children_of(
                x,
            ),
        m2.branch_paths() == m1.branch_paths(),
        m1.child_with_name(j, name) is None,
    ensures
        m2.wf(),
        preserves_lookups(m1, m2),
{
    lemma_child_search_none(m1, j, name, 0);
    assert(m2.node_type_of(0) == m1.node_type_of(0));
    assert forall|i: int, k: int|
        0 <= i < m2.node_count() && 0 <= k < m2.children_of(i).len() implies (i
        < #[trigger] m2.children_of(i)[k] < m2.node_count()) by {
        if i < m1.node_count() {
            if i == j {
                if k < m1.children_of(j).len() {
                    assert(m2.children_of(i)[k] == m1.children_of(i)[k]);
                } else {
                    assert(m2.children_of(i)[k] == new_idx);
                }
            } else {
                assert(m2.children_of(i) == m1.children_of(i));
            }
        } else {
            assert(m2.children_of(i).len() == 0);
        }
    }
    assert forall|i: int, k1: int, k2: int|
        0 <= i < m2.node_count() && 0 <= k1 < m2.children_of(i).len() && 0 <= k2 < m2.children_of(
            i,
        ).len() && k1 != k2 implies m2.node_name(#[trigger] m2.children_of(i)[k1] as int)
        != m2.node_name(#[trigger] m2.children_of(i)[k2] as int) by {
        if i < m1.node_count() {
            if i == j {
                let old_len = m1.children_of(j).len();
                if k1 < old_len && k2 < old_len {
                    assert(m2.children_of(i)[k1] == m1.children_of(i)[k1]);
                    assert(m2.children_of(i)[k2] == m1.children_of(i)[k2]);
                } else if k1 < old_len {
                    assert(m2.children_of(i)[k2] == new_idx);
                    assert(m2.children_of(i)[k1] == m1.children_of(i)[k1]);
                    assert(m2.node_name(m1.children_of(j)[k1] as int) != name);
                } else {
                    assert(m2.children_of(i)[k1] == new_idx);
                    assert(k2 < old_len);
                    assert(m2.children_of(i)[k2] == m1.children_of(i)[k2]);
                    assert(m2.node_name(m1.children_of(j)[k2] as int) != name);
                }
            } else {
                assert(m2.children_of(i) == m1.children_of(i));
            }
        } else {
            assert(m2.children_of(i).len() == 0);
        }
    }
    assert forall|i: int|
        0 <= i < m1.node_count() implies #[trigger] m1.children_of(i).is_prefix_of(
        m2.children_of(i),
    ) by {
        if i == j {
            assert(m1.children_of(j).is_prefix_of(m1.children_of(j).push(new_idx)));
        } else {
            assert(m2.children_of(i) == m1.children_of(i));
        }
    }
}

/// After the append, looking the new name up at the parent finds the new
/// node.
proof fn lemma_search_appended(
    m1: &TreeDataModel,
    m2: &TreeDataModel,
    j: int,
    name: Seq<char>,
    new_idx: usize,
)
    requires
        m1.wf(),
        m2.wf(),
        0 <= j < m1.node_count(),
        new_idx == m1.node_count(),
        m2.children_of(j) == m1.children_of(j).push(new_idx),
        m2.node_name(new_idx as int) == name,
        forall|x: int| 0 <= x < m1.node_count() ==> #[trigger] m2.node_name(x) == m1.node_name(x),
        m1.child_with_name(j, name) is None,
    ensures
        m2.child_with_name(j, name) == Some(new_idx),
{
    lemma_child_search_none(m1, j, name, 0);
    lemma_search_appended_rec(m1, m2, j, name, new_idx, 0);
}

proof fn lemma_search_appended_rec(
    m1: &TreeDataModel,
    m2: &TreeDataModel,
    j: int,
    name: Seq<char>,
    new_idx: usize,
    k: int,
)
    requires
        m1.wf(),
        0 <= j < m1.node_count(),
        new_idx == m1.node_count(),
        m2.children_of(j) == m1.children_of(j).push(new_idx),
        m2.node_name(new_idx as int) == name,
        forall|x: int| 0 <= x < m1.node_count() ==> #[trigger] m2.node_name(x) == m1.node_name(x),
        0 <= k <= m1.children_of(j).len(),
        forall|x: int|
            k <= x < m1.children_of(j).len() ==> m1.node_name(
                #[trigger] m1.children_of(j)[x] as int,
            ) != name,
    ensures
        m2.child_search(j, name, k) == Some(new_idx),
    decreases m1.children_of(j).len() - k,
{
    if k == m1.children_of(j).len() {
        assert(m2.children_of(j)[k] == new_idx);
    } else {
        assert(m2.children_of(j)[k] == m1.children_of(j)[k]);
        assert(0 <= m1.children_of(j)[k] < m1.node_count());
        lemma_search_appended_rec(m1, m2, j, name, new_idx, k + 1);
    }
}

/// Shape facts after updating only one node's metadata.
proof fn lemma_metadata_update_shape(m1: &TreeDataModel, m2: &TreeDataModel, j: int)
    requires
        m1.wf(),
        0 <= j < m1.node_count(),
        m2.node_count() == m1.node_count(),
        forall|x: int| 0 <= x < m1.node_count() ==> #[trigger] m2.node_name(x) == m1.node_name(x),
        forall|x: int|
            0 <= x < m1.node_count() ==> #[trigger] m2.node_type_of(x) == m1.node_type_of(x),
        forall|x: int|
            0 <= x < m1.node_count() ==> #[trigger] m2.children_of(x) == m1.children_of(x),
    ensures
        m2.wf(),
        preserves_lookups(m1, m2),
{
    assert(m2.node_type_of(0) == m1.node_type_of(0));
    assert forall|i: int, k: int|
        0 <= i < m2.node_count() && 0 <= k < m2.children_of(i).len() implies (i
        < #[trigger] m2.children_of(i)[k] < m2.node_count()) by {
        assert(m2.children_of(i) == m1.children_of(i));
    }
    assert forall|i: int, k1: int, k2: int|
        0 <= i < m2.node_count() && 0 <= k1 < m2.children_of(i).len() && 0 <= k2 < m2.children_of(
            i,
        ).len() && k1 != k2 implies m2.node_name(#[trigger] m2.children_of(i)[k1] as int)
        != m2.node_name(#[trigger] m2.children_of(i)[k2] as int) by {
        assert(m2.children_of(i) == m1.children_of(i));
        assert(0 <= m1.children_of(i)[k1] < m1.node_count());
        assert(0 <= m1.children_of(i)[k2] < m1.node_count());
        assert(m2.node_name(m1.children_of(i)[k1] as int) == m1.node_name(
            m1.children_of(i)[k1] as int,
        ));
        assert(m2.node_name(m1.children_of(i)[k2] as int) == m1.node_name(
            m1.children_of(i)[k2] as int,
        ));
    }
    assert forall|i: int|
        0 <= i < m1.node_count() implies #[trigger] m1.children_of(i).is_prefix_of(
        m2.children_of(i),
    ) by {
        assert(m2.children_of(i) == m1.children_of(i));
    }
}

/// The absolute paths a backend listing names: one per nonempty line, each
/// parsed as a flat branch name.
pub open spec fn listed_paths(lines: Seq<Seq<char>>) -> Seq<Seq<Seq<char>>>
    decreases lines.len(),
{
    if lines.len() == 0 {
        Seq::empty()
    } else {
        let rest = listed_paths(lines.drop_last());
        if lines.last().len() == 0 {
            rest
        } else {
            rest.push(
                seq![Seq::<char>::empty()] + crate::qualified_path::parse_segments(lines.last()),
            )
        }
    }
}

/// The branch list after recording each listed path in order, appending
/// only those not already recorded.
pub open spec fn append_new(
    acc: Seq<Seq<Seq<char>>>,
    ps: Seq<Seq<Seq<char>>>,
) -> Seq<Seq<Seq<char>>>
    decreases ps.len(),
{
    if ps.len() == 0 {
        acc
    } else {
        let rest = append_new(acc, ps.drop_last());
        if rest.contains(ps.last()) {
            rest
        } else {
            rest.push(ps.last())
        }
    }
}

proof fn lemma_append_new_concat(
    acc: Seq<Seq<Seq<char>>>,
    a: Seq<Seq<Seq<char>>>,
    b: Seq<Seq<Seq<char>>>,
)
    ensures
        append_new(acc, a + b) == append_new(append_new(acc, a), b),
    decreases b.len(),
{
    if b.len() == 0 {
        assert(a + b =~= a);
    } else {
        assert((a + b).drop_last() =~= a + b.drop_last());
        assert((a + b).last() == b.last());
        lemma_append_new_concat(acc, a, b.drop_last());
    }
}

proof fn lemma_listed_paths_concat(a: Seq<Seq<char>>, b: Seq<Seq<char>>)
    ensures
        listed_paths(a + b) == listed_paths(a) + listed_paths(b),
    decreases b.len(),
{
    if b.len() == 0 {
        assert(a + b =~= a);
        assert(listed_paths(a) + listed_paths(b) =~= listed_paths(a));
    } else {
        assert((a + b).drop_last() =~= a + b.drop_last());
        assert((a + b).last() == b.last());
        lemma_listed_paths_concat(a, b.drop_last());
        if b.last().len() > 0 {
            let p = seq![Seq::<char>::empty()] + crate::qualified_path::parse_segments(b.last());
            assert(listed_paths(a) + listed_paths(b.drop_last()).push(p) =~= (listed_paths(a)
                + listed_paths(b.drop_last())).push(p));
        }
    }
}

impl TreeDataModel {
    /// Builds the session's model from the backend's branch and tag
    /// listings, one name per line; tags are inserted as tags. The paths
    /// are recorded in listing order, already-recorded ones only once. On
    /// the first line whose path breaks the classification rules, the model
    /// keeps what was inserted up to it and reports the error.
    #[verifier::loop_isolation(false)]
    pub fn populate_from_listing(&mut self, branches: &str, tags: &str) -> (r: Result<
        (),
        WrongNodeTypeError,
    >)
        requires
            old(self).wf(),
        ensures
            final(self).wf(),
            preserves_lookups(old(self), final(self)),
            r is Ok ==> final(self).branch_paths() == append_new(
                old(self).branch_paths(),
                listed_paths(crate::text::split_char_spec(branches@, '\n')) + listed_paths(
                    crate::text::split_char_spec(tags@, '\n'),
                ),
            ),
            r is Ok ==> ({
                let lines = crate::text::split_char_spec(branches@, '\n')
                    + crate::text::split_char_spec(tags@, '\n');
                forall|j: int|
                    0 <= j < lines.len() && (#[trigger] lines[j]).len() > 0
                        ==> final(self).walk(0, crate::qualified_path::parse_segments(lines[j]))
                        is Some
            }),
            r is Err ==> ({
                let bl = crate::text::split_char_spec(branches@, '\n');
                let lines = bl + crate::text::split_char_spec(tags@, '\n');
                exists|j: int|
                    0 <= j < lines.len() && (#[trigger] lines[j]).len() > 0
                        && final(self).branch_paths() == append_new(
                        old(self).branch_paths(),
                        listed_paths(lines.take(j)),
                    ) && !final(self).insert_ok(
                        seq![Seq::<char>::empty()] + crate::qualified_path::parse_segments(
                            lines[j],
                        ),
                        j >= bl.len(),
                    )
            }),
    {
        let ghost base = self.branch_paths();
        let branch_lines = crate::text::split_lines(branches);
        let ghost bl = crate::text::split_char_spec(branches@, '\n');
        let ghost tl = crate::text::split_char_spec(tags@, '\n');
        let n = branch_lines.len();
        let mut i: usize = 0;
        proof {
            assert(bl.take(0) =~= Seq::<Seq<char>>::empty());
            lemma_preserves_lookups_refl(self);
        }
        while i < n
            invariant
                0 <= i <= n,
                n == bl.len(),
                branch_lines@.map_values(|x: String| x@) == bl,
                branch_lines@.len() == n,
                self.wf(),
                preserves_lookups(old(self), self),
                self.branch_paths() == append_new(base, listed_paths(bl.take(i as int))),
                forall|j: int|
                    0 <= j < i && (#[trigger] bl[j]).len() > 0 ==> self.walk(
                        0,
                        crate::qualified_path::parse_segments(bl[j]),
                    ) is Some,
            decreases n - i,
        {
            proof {
                assert(bl[i as int] == branch_lines@[i as int]@);
                assert(bl.take(i + 1 as int).drop_last() =~= bl.take(i as int));
                assert(bl.take(i + 1 as int).last() == bl[i as int]);
            }
            let line = &branch_lines[i];
            if !line.as_str().is_empty() {
                let path = QualifiedPath::from_branch(line.as_str());
                let ghost pv = seq![Seq::<char>::empty()] + crate::qualified_path::parse_segments(
                    bl[i as int],
                );
                let ghost pre = *self;
                match self.insert_qualified_path(path, false) {
                    Ok(_) => {
                        proof {
                            lemma_preserves_lookups_trans(old(self), &pre, self);
                            assert(listed_paths(bl.take(i + 1 as int)) =~= listed_paths(
                                bl.take(i as int),
                            ).push(pv));
                            assert(listed_paths(bl.take(i + 1 as int)).drop_last()
                                =~= listed_paths(bl.take(i as int)));
                            assert(listed_paths(bl.take(i + 1 as int)).last() == pv);
                            assert(listed_paths(bl.take(i + 1 as int)).len() > 0);
                            if pre.has_branch_spec(pv) {
                                let j = choose|j: int|
                                    0 <= j < pre.branch_paths().len() && pre.branch_paths()[j]
                                        == pv;
                                assert(pre.branch_paths().contains(pv));
                            } else {
                                if pre.branch_paths().contains(pv) {
                                    let j = choose|j: int|
                                        0 <= j < pre.branch_paths().len() && pre.branch_paths()[j]
                                            == pv;
                                    assert(false);
                                }
                            }
                            assert(self.branch_paths() == append_new(
                                base,
                                listed_paths(bl.take(i + 1 as int)),
                            ));
                            assert(pv.skip(1) =~= crate::qualified_path::parse_segments(
                                bl[i as int],
                            ));
                            assert(self.walk(
                                0,
                                crate::qualified_path::parse_segments(bl[i as int]),
                            ) is Some);
                            assert forall|j: int|
                                0 <= j < i + 1 && (#[trigger] bl[j]).len() > 0 implies self.walk(
                                0,
                                crate::qualified_path::parse_segments(bl[j]),
                            ) is Some by {
                                if j < i {
                                    lemma_walk_preserved(
                                        &pre,
                                        self,
                                        0,
                                        crate::qualified_path::parse_segments(bl[j]),
                                    );
                                }
                            }
                        }
                    },
                    Err(e) => {
                        proof {
                            let lines = bl + tl;
                            assert(lines.take(i as int) =~= bl.take(i as int));
                            assert(lines[i as int] == bl[i as int]);
                            assert(!self.insert_ok(pv, false));
                        }
                        return Err(e);
                    },
                }
            }
            i = i + 1;
        }
        proof {
            assert(bl.take(n as int) =~= bl);
        }
        let ghost mid = self.branch_paths();
        let tag_lines = crate::text::split_lines(tags);
        let m = tag_lines.len();
        let mut k: usize = 0;
        proof {
            assert(tl.take(0) =~= Seq::<Seq<char>>::empty());
        }
        while k < m
            invariant
                0 <= k <= m,
                m == tl.len(),
                tag_lines@.map_values(|x: String| x@) == tl,
                tag_lines@.len() == m,
                self.wf(),
                preserves_lookups(old(self), self),
                mid == append_new(base, listed_paths(bl)),
                self.branch_paths() == append_new(mid, listed_paths(tl.take(k as int))),
                forall|j: int|
                    0 <= j < bl.len() && (#[trigger] bl[j]).len() > 0 ==> self.walk(
                        0,
                        crate::qualified_path::parse_segments(bl[j]),
                    ) is Some,
                forall|j: int|
                    0 <= j < k && (#[trigger] tl[j]).len() > 0 ==> self.walk(
                        0,
                        crate::qualified_path::parse_segments(tl[j]),
                    ) is Some,
            decreases m - k,
        {
            proof {
                assert(tl[k as int] == tag_lines@[k as int]@);
                assert(tl.take(k + 1 as int).drop_last() =~= tl.take(k as int));
                assert(tl.take(k + 1 as int).last() == tl[k as int]);
            }
            let line = &tag_lines[k];
            if !line.as_str().is_empty() {
                let path = QualifiedPath::from_branch(line.as_str());
                let ghost pv = seq![Seq::<char>::empty()] + crate::qualified_path::parse_segments(
                    tl[k as int],
                );
                let ghost pre = *self;
                match self.insert_qualified_path(path, true) {
                    Ok(_) => {
                        proof {
                            lemma_preserves_lookups_trans(old(self), &pre, self);
                            assert(listed_paths(tl.take(k + 1 as int)) =~= listed_paths(
                                tl.take(k as int),
                            ).push(pv));
                            assert(listed_paths(tl.take(k + 1 as int)).drop_last()
                                =~= listed_paths(tl.take(k as int)));
                            assert(listed_paths(tl.take(k + 1 as int)).last() == pv);
                            assert(listed_paths(tl.take(k + 1 as int)).len() > 0);
                            if pre.has_branch_spec(pv) {
                                let j = choose|j: int|
                                    0 <= j < pre.branch_paths().len() && pre.branch_paths()[j]
                                        == pv;
                                assert(pre.branch_paths().contains(pv));
                            } else {
                                if pre.branch_paths().contains(pv) {
                                    let j = choose|j: int|
                                        0 <= j < pre.branch_paths().len() && pre.branch_paths()[j]
                                            == pv;
                                    assert(false);
                                }
                            }
                            assert(self.branch_paths() == append_new(
                                mid,
                                listed_paths(tl.take(k + 1 as int)),
                            ));
                            assert(pv.skip(1) =~= crate::qualified_path::parse_segments(
                                tl[k as int],
                            ));
                            assert(self.walk(
                                0,
                                crate::qualified_path::parse_segments(tl[k as int]),
                            ) is Some);
                            assert forall|j: int|
                                0 <= j < bl.len() && (#[trigger] bl[j]).len() > 0 implies self.walk(
                                0,
                                crate::qualified_path::parse_segments(bl[j]),
                            ) is Some by {
                                lemma_walk_preserved(
                                    &pre,
                                    self,
                                    0,
                                    crate::qualified_path::parse_segments(bl[j]),
                                );
                            }
                            assert forall|j: int|
                                0 <= j < k + 1 && (#[trigger] tl[j]).len() > 0 implies self.walk(
                                0,
                                crate::qualified_path::parse_segments(tl[j]),
                            ) is Some by {
                                if j < k {
                                    lemma_walk_preserved(
                                        &pre,
                                        self,
                                        0,
                                        crate::qualified_path::parse_segments(tl[j]),
                                    );
                                }
                            }
                        }
                    },
                    Err(e) => {
                        proof {
                            let lines = bl + tl;
                            let j = bl.len() as int + k as int;
                            assert(lines[j] == tl[k as int]);
                            assert(lines.take(j) =~= bl + tl.take(k as int));
                            lemma_listed_paths_concat(bl, tl.take(k as int));
                            lemma_append_new_concat(
                                base,
                                listed_paths(bl),
                                listed_paths(tl.take(k as int)),
                            );
                            assert(self.branch_paths() == append_new(
                                base,
                                listed_paths(lines.take(j)),
                            ));
                            assert(!self.insert_ok(pv, true));
                        }
                        return Err(e);
                    },
                }
            }
            k = k + 1;
        }
        proof {
            assert(tl.take(m as int) =~= tl);
            lemma_listed_paths_concat(bl, tl);
            lemma_append_new_concat(base, listed_paths(bl), listed_paths(tl));
            let lines = bl + tl;
            assert forall|j: int|
                0 <= j < lines.len() && (#[trigger] lines[j]).len() > 0 implies self.walk(
                0,
                crate::qualified_path::parse_segments(lines[j]),
            ) is Some by {
                if j < bl.len() {
                    assert(lines[j] == bl[j]);
                } else {
                    assert(lines[j] == tl[j - bl.len()]);
                }
            }
        }
        Ok(())
    }
}

/// The error returned when a path cannot be inserted without breaking the
/// node-classification rules.
#[derive(Clone, Copy, Debug, PartialEq, Eq, Structural)]
pub struct WrongNodeTypeError {
    dummy: bool,
}

impl WrongNodeTypeError {
    pub fn new() -> (r: Self) {
        Self { dummy: true }
    }

    /// A human-readable description of the error.
    pub fn describe(&self) -> String {
        String::from_str("path does not fit the namespace rules")
    }
}

} // verus!
