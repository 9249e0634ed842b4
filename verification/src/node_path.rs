use vstd::prelude::*;

use crate::qualified_path::{lemma_parse_segments_empty, parse_segments, spec_add, QualifiedPath};
use crate::tree::{
    lemma_child_search_in_range, lemma_walk_snoc_general, NodeMetadata, NodeType, TreeDataModel,
    FEATURES_PREFIX, PRODUCTS_PREFIX,
};

verus! {

/// The qualified path spelled by a chain of nodes: each node's raw name,
/// cleaned and appended in order. The virtual root's empty name makes the
/// result absolute.
pub open spec fn names_path(m: &TreeDataModel, idxs: Seq<usize>) -> Seq<Seq<char>>
    decreases idxs.len(),
{
    if idxs.len() == 0 {
        Seq::<Seq<char>>::empty()
    } else {
        parse_segments(m.node_name(idxs[0] as int)) + names_path(m, idxs.drop_first())
    }
}

/// A chain of arena indices from the virtual root to a target node.
pub struct NodePath {
    indices: Vec<usize>,
}

impl View for NodePath {
    type V = Seq<usize>;

    closed spec fn view(&self) -> Seq<usize> {
        self.indices@
    }
}

impl Clone for NodePath {
    fn clone(&self) -> (r: Self)
        ensures
            r@ == self@,
    {
        NodePath { indices: self.indices.clone() }
    }
}

impl NodePath {
    /// A well-formed chain: nonempty, rooted at the virtual root, each link
    /// an actual parent-child edge of the model.
    pub open spec fn wf_in(&self, m: &TreeDataModel) -> bool {
        &&& self@.len() > 0
        &&& self@[0] == 0usize
        &&& forall|k: int| 0 <= k < self@.len() ==> #[trigger] self@[k] < m.node_count()
        &&& forall|k: int|
            0 < k < self@.len() ==> m.children_of(#[trigger] self@[k - 1] as int).contains(
                self@[k],
            )
    }

    /// The node the chain ends at.
    pub open spec fn last_node(&self) -> int {
        self@.last() as int
    }

    /// Wraps a chain of indices; nothing is checked here, and only
    /// well-formed chains can be handed to the navigation operations.
    pub fn new(indices: Vec<usize>) -> (r: Self)
        ensures
            r@ == indices@,
    {
        NodePath { indices }
    }

    /// Walks children segment by segment; absent as soon as a segment is
    /// missing.
    #[verifier::loop_isolation(false)]
    pub fn to(self, model: &TreeDataModel, path: &QualifiedPath) -> (r: Option<NodePath>)
        requires
            model.wf(),
            self.wf_in(model),
        ensures
            r is Some <==> model.walk(self.last_node(), path@) is Some,
            r matches Some(np) ==> np@ == self@ + model.walk(self.last_node(), path@)->Some_0,
            r matches Some(np) ==> np.wf_in(model),
    {
        let segs = path.iter_string();
        let ghost ss = path@;
        let ghost start = self.last_node();
        let mut idxs = self.indices;
        let ghost base = idxs@;
        let n = segs.len();
        let mut i: usize = 0;
        let mut cur: usize = idxs[idxs.len() - 1];
        proof {
            assert(ss.take(0) =~= Seq::<Seq<char>>::empty());
            assert(idxs@.skip(base.len() as int) =~= Seq::<usize>::empty());
            assert(base[base.len() - 1] < model.node_count());
        }
        while i < n
            invariant
                0 <= i <= n,
                0 <= start < model.node_count(),
                n == ss.len(),
                segs@.map_values(|s: String| s@) == ss,
                model.wf(),
                idxs@.len() >= base.len() > 0,
                idxs@.take(base.len() as int) == base,
                cur == idxs@.last(),
                cur < model.node_count(),
                base[0] == 0usize,
                forall|k: int| 0 <= k < idxs@.len() ==> #[trigger] idxs@[k] < model.node_count(),
                forall|k: int|
                    0 < k < idxs@.len() ==> model.children_of(
                        #[trigger] idxs@[k - 1] as int,
                    ).contains(idxs@[k]),
                model.walk(start, ss.take(i as int)) == Some(idxs@.skip(base.len() as int)),
            decreases n - i,
        {
            proof {
                assert(ss[i as int] == segs@[i as int]@);
            }
            match model.find_child(cur, &segs[i]) {
                Some(c) => {
                    proof {
                        lemma_child_search_in_range(model, cur as int, ss[i as int], 0);
                        let chain = idxs@.skip(base.len() as int);
                        assert(ss.take(i + 1 as int).take(i as int) =~= ss.take(i as int));
                        assert(ss.take(i + 1 as int).last() == ss[i as int]);
                        if chain.len() == 0 {
                            assert(idxs@ =~= base);
                            assert(cur as int == start);
                        } else {
                            assert(chain.last() == idxs@.last());
                        }
                        lemma_walk_snoc_general(model, start, ss.take(i + 1 as int), chain, c);
                    }
                    let ghost prev = idxs@;
                    idxs.push(c);
                    cur = c;
                    proof {
                        assert(idxs@.take(base.len() as int) =~= base);
                        assert(idxs@.skip(base.len() as int) =~= prev.skip(
                            base.len() as int,
                        ).push(c));
                    }
                },
                None => {
                    proof {
                        assert(model.walk(start, ss.take(i as int)) is Some);
                        let chain = idxs@.skip(base.len() as int);
                        if chain.len() == 0 {
                            assert(idxs@ =~= base);
                            assert(cur as int == start);
                        } else {
                            assert(chain.last() == idxs@.last());
                        }
                        lemma_walk_extend_none(model, start, ss, i as int);
                    }
                    return None;
                },
            }
            i = i + 1;
        }
        proof {
            assert(ss.take(n as int) =~= ss);
        }
        let r = NodePath { indices: idxs };
        proof {
            assert(r@ =~= base + r@.skip(base.len() as int));
        }
        Some(r)
    }

    /// Walks as far as the model allows, keeping the longest valid prefix.
    #[verifier::loop_isolation(false)]
    pub fn to_last_valid(self, model: &TreeDataModel, path: &QualifiedPath) -> (r: NodePath)
        requires
            model.wf(),
            self.wf_in(model),
        ensures
            r.wf_in(model),
            r@ == self@ + best_walk(model, self.last_node(), path@),
    {
        let segs = path.iter_string();
        let ghost ss = path@;
        let ghost init = self@;
        let ghost init_last = self.last_node();
        proof {
            assert(self@[self@.len() - 1] < model.node_count());
        }
        let mut current = self;
        let n = segs.len();
        let mut i: usize = 0;
        proof {
            assert(ss.skip(0) =~= ss);
        }
        while i < n
            invariant
                0 <= i <= n,
                n == ss.len(),
                segs@.map_values(|s: String| s@) == ss,
                model.wf(),
                current.wf_in(model),
                current@ + best_walk(model, current.last_node(), ss.skip(i as int)) == init
                    + best_walk(model, init_last, ss),
            decreases n - i,
        {
            proof {
                assert(ss[i as int] == segs@[i as int]@);
            }
            let part = QualifiedPath::from_raw(segs[i].as_str());
            let ghost pre = current@;
            let next = current.clone().to(model, &part);
            match next {
                Some(np) => {
                    proof {
                        let chain = model.walk(pre.last() as int, parse_segments(ss[i as int]))
                            ->Some_0;
                        lemma_walk_chain_facts(model, pre.last() as int, parse_segments(
                            ss[i as int],
                        ));
                        assert(ss.skip(i as int)[0] == ss[i as int]);
                        assert(ss.skip(i as int).drop_first() =~= ss.skip(i + 1 as int));
                        assert(np@.last() == if chain.len() == 0 {
                            pre.last()
                        } else {
                            chain.last()
                        });
                        assert(pre + (chain + best_walk(model, np@.last() as int, ss.skip(
                            i + 1 as int,
                        ))) =~= (pre + chain) + best_walk(model, np@.last() as int, ss.skip(
                            i + 1 as int,
                        )));
                    }
                    current = np;
                },
                None => {
                    proof {
                        assert(ss.skip(i as int)[0] == ss[i as int]);
                        assert(best_walk(model, current.last_node(), ss.skip(i as int))
                            =~= Seq::<usize>::empty());
                        assert(current@ + Seq::<usize>::empty() =~= current@);
                        assert(current@ =~= init + best_walk(model, init_last, ss));
                    }
                    return current;
                },
            }
            i = i + 1;
        }
        proof {
            assert(best_walk(model, current.last_node(), ss.skip(n as int))
                =~= Seq::<usize>::empty());
            assert(current@ + Seq::<usize>::empty() =~= current@);
        }
        current
    }
}

/// The node a successful walk from `start` ends at.
pub open spec fn walk_end(m: &TreeDataModel, start: int, segs: Seq<Seq<char>>) -> int {
    let chain = m.walk(start, segs)->Some_0;
    if chain.len() == 0 {
        start
    } else {
        chain.last() as int
    }
}

/// The single place runtime role information becomes a typed value: the
/// variant always matches the node's recorded role.
pub enum NodePathType {
    Feature(NodePath),
    FeatureRoot(NodePath),
    Product(NodePath),
    ProductRoot(NodePath),
    Area(NodePath),
    VirtualRoot(NodePath),
    Tag(NodePath),
}

/// The role a concretized path was tagged with.
pub open spec fn tag_of(t: &NodePathType) -> NodeType {
    match t {
        NodePathType::Feature(_) => NodeType::Feature,
        NodePathType::FeatureRoot(_) => NodeType::FeatureRoot,
        NodePathType::Product(_) => NodeType::Product,
        NodePathType::ProductRoot(_) => NodeType::ProductRoot,
        NodePathType::Area(_) => NodeType::Area,
        NodePathType::VirtualRoot(_) => NodeType::VirtualRoot,
        NodePathType::Tag(_) => NodeType::Tag,
    }
}

/// The path a concretized value wraps.
pub open spec fn inner_of(t: &NodePathType) -> Seq<usize> {
    match t {
        NodePathType::Feature(p) => p@,
        NodePathType::FeatureRoot(p) => p@,
        NodePathType::Product(p) => p@,
        NodePathType::ProductRoot(p) => p@,
        NodePathType::Area(p) => p@,
        NodePathType::VirtualRoot(p) => p@,
        NodePathType::Tag(p) => p@,
    }
}

impl NodePath {
    /// The arena index of the node the chain ends at.
    pub fn last_index(&self) -> (r: usize)
        requires
            self@.len() > 0,
        ensures
            r as int == self.last_node(),
    {
        self.indices[self.indices.len() - 1]
    }

    /// Resolves the runtime role of the target node into a tagged value.
    pub fn concretize(self, model: &TreeDataModel) -> (r: NodePathType)
        requires
            model.wf(),
            self.wf_in(model),
        ensures
            tag_of(&r) == model.node_type_of(self.last_node()),
            inner_of(&r) == self@,
    {
        proof {
            assert(self@[self@.len() - 1] < model.node_count());
        }
        let t = model.node_type_at(self.last_index());
        match t {
            NodeType::Feature => NodePathType::Feature(self),
            NodeType::FeatureRoot => NodePathType::FeatureRoot(self),
            NodeType::Product => NodePathType::Product(self),
            NodeType::ProductRoot => NodePathType::ProductRoot(self),
            NodeType::Area => NodePathType::Area(self),
            NodeType::VirtualRoot => NodePathType::VirtualRoot(self),
            NodeType::Tag => NodePathType::Tag(self),
        }
    }

    /// A typed path is wrapped back into the untyped form unchanged.
    pub fn from_concrete(other: NodePath) -> (r: Self)
        ensures
            r@ == other@,
    {
        other
    }

    /// The untyped form of this path, unchanged.
    pub fn transform_to_any_type(self) -> (r: Self)
        ensures
            r@ == self@,
    {
        self
    }

    /// Walks to `path` and keeps the result only if it is an area.
    pub fn to_area(self, model: &TreeDataModel, area: &QualifiedPath) -> (r: Option<NodePath>)
        requires
            model.wf(),
            self.wf_in(model),
        ensures
            r is Some <==> (model.walk(self.last_node(), area@) is Some && model.node_type_of(
                walk_end(model, self.last_node(), area@),
            ) == NodeType::Area),
            r matches Some(np) ==> np@ == self@ + model.walk(self.last_node(), area@)->Some_0
                && np.wf_in(model),
    {
        self.to_of_type(model, area, NodeType::Area)
    }

    /// Walks to the fixed feature-root segment below an area.
    pub fn to_feature_root(self, model: &TreeDataModel) -> (r: Option<NodePath>)
        requires
            model.wf(),
            self.wf_in(model),
        ensures
            r is Some <==> (model.walk(self.last_node(), parse_segments(FEATURES_PREFIX@)) is Some
                && model.node_type_of(
                walk_end(model, self.last_node(), parse_segments(FEATURES_PREFIX@)),
            ) == NodeType::FeatureRoot),
            r matches Some(np) ==> np@ == self@ + model.walk(
                self.last_node(),
                parse_segments(FEATURES_PREFIX@),
            )->Some_0 && np.wf_in(model),
    {
        let path = QualifiedPath::from_raw(FEATURES_PREFIX);
        self.to_of_type(model, &path, NodeType::FeatureRoot)
    }

    /// Walks to the fixed product-root segment below an area.
    pub fn to_product_root(self, model: &TreeDataModel) -> (r: Option<NodePath>)
        requires
            model.wf(),
            self.wf_in(model),
        ensures
            r is Some <==> (model.walk(self.last_node(), parse_segments(PRODUCTS_PREFIX@)) is Some
                && model.node_type_of(
                walk_end(model, self.last_node(), parse_segments(PRODUCTS_PREFIX@)),
            ) == NodeType::ProductRoot),
            r matches Some(np) ==> np@ == self@ + model.walk(
                self.last_node(),
                parse_segments(PRODUCTS_PREFIX@),
            )->Some_0 && np.wf_in(model),
    {
        let path = QualifiedPath::from_raw(PRODUCTS_PREFIX);
        self.to_of_type(model, &path, NodeType::ProductRoot)
    }

    /// Walks to `path` and keeps the result only if it is a feature.
    pub fn to_feature(self, model: &TreeDataModel, path: &QualifiedPath) -> (r: Option<NodePath>)
        requires
            model.wf(),
            self.wf_in(model),
        ensures
            r is Some <==> (model.walk(self.last_node(), path@) is Some && model.node_type_of(
                walk_end(model, self.last_node(), path@),
            ) == NodeType::Feature),
            r matches Some(np) ==> np@ == self@ + model.walk(self.last_node(), path@)->Some_0
                && np.wf_in(model),
    {
        self.to_of_type(model, path, NodeType::Feature)
    }

    /// Walks to `path` and keeps the result only if it is a product.
    pub fn to_product(self, model: &TreeDataModel, path: &QualifiedPath) -> (r: Option<NodePath>)
        requires
            model.wf(),
            self.wf_in(model),
        ensures
            r is Some <==> (model.walk(self.last_node(), path@) is Some && model.node_type_of(
                walk_end(model, self.last_node(), path@),
            ) == NodeType::Product),
            r matches Some(np) ==> np@ == self@ + model.walk(self.last_node(), path@)->Some_0
                && np.wf_in(model),
    {
        self.to_of_type(model, path, NodeType::Product)
    }

    /// Walks to `path` and keeps the result only if its role is `want`.
    fn to_of_type(self, model: &TreeDataModel, path: &QualifiedPath, want: NodeType) -> (r: Option<
        NodePath,
    >)
        requires
            model.wf(),
            self.wf_in(model),
        ensures
            r is Some <==> (model.walk(self.last_node(), path@) is Some && model.node_type_of(
                walk_end(model, self.last_node(), path@),
            ) == want),
            r matches Some(np) ==> np@ == self@ + model.walk(self.last_node(), path@)->Some_0
                && np.wf_in(model),
    {
        let ghost start = self.last_node();
        let ghost base = self@;
        match self.to(model, path) {
            Some(np) => {
                proof {
                    let chain = model.walk(start, path@)->Some_0;
                    if chain.len() == 0 {
                        assert(np@ =~= base);
                        assert(np.last_node() == start);
                    } else {
                        assert(np@.last() == chain.last());
                    }
                    assert(np@[np@.len() - 1] < model.node_count());
                }
                let t = model.node_type_at(np.last_index());
                if t == want {
                    Some(np)
                } else {
                    None
                }
            },
            None => None,
        }
    }

    /// The qualified path spelled by the chain of node names; the virtual
    /// root's empty name makes it absolute.
    #[verifier::loop_isolation(false)]
    pub fn get_qualified_path(&self, model: &TreeDataModel) -> (r: QualifiedPath)
        requires
            model.wf(),
            self.wf_in(model),
        ensures
            r@ == names_path(model, self@),
    {
        let n = self.indices.len();
        let mut r = QualifiedPath::new();
        let mut i: usize = 0;
        proof {
            assert(self@.skip(0) =~= self@);
            assert(r@ + names_path(model, self@) =~= names_path(model, self@));
        }
        while i < n
            invariant
                0 <= i <= n,
                n == self@.len(),
                names_path(model, self@) == r@ + names_path(model, self@.skip(i as int)),
            decreases n - i,
        {
            let idx = self.indices[i];
            proof {
                assert(self@[i as int] < model.node_count());
            }
            let ghost prev = r@;
            r.push(model.node_at(idx).get_name().as_str());
            proof {
                let rest = self@.skip(i as int);
                assert(rest[0] == self@[i as int]);
                assert(rest.drop_first() =~= self@.skip(i + 1 as int));
                assert(prev + (parse_segments(model.node_name(idx as int)) + names_path(
                    model,
                    self@.skip(i + 1 as int),
                )) =~= (prev + parse_segments(model.node_name(idx as int))) + names_path(
                    model,
                    self@.skip(i + 1 as int),
                ));
            }
            i = i + 1;
        }
        proof {
            assert(names_path(model, self@.skip(n as int)) =~= Seq::<Seq<char>>::empty());
            assert(r@ + Seq::<Seq<char>>::empty() =~= r@);
        }
        r
    }

    /// The qualified path of the area's feature root.
    pub fn get_path_to_feature_root(&self, model: &TreeDataModel) -> (r: QualifiedPath)
        requires
            model.wf(),
            self.wf_in(model),
        ensures
            r@ == spec_add(names_path(model, self@), parse_segments(FEATURES_PREFIX@)),
    {
        let own = self.get_qualified_path(model);
        own.add(QualifiedPath::from_raw(FEATURES_PREFIX))
    }

    /// The qualified path of the area's product root.
    pub fn get_path_to_product_root(&self, model: &TreeDataModel) -> (r: QualifiedPath)
        requires
            model.wf(),
            self.wf_in(model),
        ensures
            r@ == spec_add(names_path(model, self@), parse_segments(PRODUCTS_PREFIX@)),
    {
        let own = self.get_qualified_path(model);
        own.add(QualifiedPath::from_raw(PRODUCTS_PREFIX))
    }

    /// The target node's metadata.
    pub fn get_metadata<'a>(&self, model: &'a TreeDataModel) -> (r: &'a NodeMetadata)
        requires
            model.wf(),
            self.wf_in(model),
        ensures
            r.spec_has_branch() == model.node_has_branch(self.last_node()),
    {
        proof {
            assert(self@[self@.len() - 1] < model.node_count());
        }
        model.node_at(self.last_index()).get_metadata()
    }

    /// The direct children of the target node, in insertion order.
    #[verifier::loop_isolation(false)]
    pub fn iter_children(&self, model: &TreeDataModel) -> (r: Vec<NodePath>)
        requires
            model.wf(),
            self.wf_in(model),
        ensures
            r@.len() == model.children_of(self.last_node()).len(),
            forall|k: int|
                0 <= k < r@.len() ==> #[trigger] r@[k]@ == self@.push(
                    model.children_of(self.last_node())[k],
                ) && r@[k].wf_in(model),
    {
        proof {
            assert(self@[self@.len() - 1] < model.node_count());
        }
        let last = self.last_index();
        let n = model.child_count(last);
        let mut r: Vec<NodePath> = Vec::new();
        let mut k: usize = 0;
        while k < n
            invariant
                0 <= k <= n,
                r@.len() == k,
                forall|j: int|
                    0 <= j < k ==> #[trigger] r@[j]@ == self@.push(
                        model.children_of(self.last_node())[j],
                    ) && r@[j].wf_in(model),
            decreases n - k,
        {
            let c = model.child_at(last, k);
            let mut idxs = self.indices.clone();
            idxs.push(c);
            let child = NodePath { indices: idxs };
            proof {
                assert(child@ =~= self@.push(c));
                assert(model.children_of(self.last_node()).contains(c));
            }
            r.push(child);
            k = k + 1;
        }
        r
    }

    /// All descendants of the target node, in preorder.
    #[verifier::loop_isolation(false)]
    pub fn iter_children_req(&self, model: &TreeDataModel) -> (r: Vec<NodePath>)
        requires
            model.wf(),
            self.wf_in(model),
        ensures
            r@.map_values(|p: NodePath| p@) == descendants_from(model, self@, 0),
            forall|k: int| 0 <= k < r@.len() ==> #[trigger] r@[k].wf_in(model),
        decreases model.node_count() - self.last_node(),
    {
        proof {
            assert(self@[self@.len() - 1] < model.node_count());
        }
        let last = self.last_index();
        let n = model.child_count(last);
        let mut r: Vec<NodePath> = Vec::new();
        let mut k: usize = 0;
        proof {
            assert(r@.map_values(|p: NodePath| p@) =~= Seq::<Seq<usize>>::empty());
        }
        while k < n
            invariant
                0 <= k <= n,
                descendants_from(model, self@, 0) == r@.map_values(|p: NodePath| p@)
                    + descendants_from(model, self@, k as int),
                forall|j: int| 0 <= j < r@.len() ==> #[trigger] r@[j].wf_in(model),
            decreases n - k,
        {
            let c = model.child_at(last, k);
            let mut idxs = self.indices.clone();
            idxs.push(c);
            let child = NodePath { indices: idxs };
            proof {
                assert(child@ =~= self@.push(c));
                assert(model.children_of(self.last_node()).contains(c));
                assert(child.wf_in(model));
                assert(child.last_node() == c as int);
            }
            let ghost before = r@.map_values(|p: NodePath| p@);
            r.push(child.clone());
            let mut sub = child.iter_children_req(model);
            let ghost sub_views = sub@.map_values(|p: NodePath| p@);
            let ghost mid = r@;
            r.append(&mut sub);
            proof {
                assert(r@.map_values(|p: NodePath| p@) =~= before + seq![self@.push(c)]
                    + sub_views);
                assert(descendants_from(model, self@, k as int) == seq![self@.push(c)]
                    + descendants_from(model, self@.push(c), 0) + descendants_from(
                    model,
                    self@,
                    k + 1,
                ));
                assert(before + (seq![self@.push(c)] + descendants_from(model, self@.push(c), 0)
                    + descendants_from(model, self@, k + 1)) =~= (before + seq![self@.push(c)]
                    + descendants_from(model, self@.push(c), 0)) + descendants_from(
                    model,
                    self@,
                    k + 1,
                ));
            }
            k = k + 1;
        }
        proof {
            assert(descendants_from(model, self@, n as int) =~= Seq::<Seq<usize>>::empty());
            assert(r@.map_values(|p: NodePath| p@) + Seq::<Seq<usize>>::empty() =~= r@.map_values(
                |p: NodePath| p@,
            ));
        }
        r
    }

    /// The tags hanging below the target node, each as a one-segment path.
    #[verifier::loop_isolation(false)]
    pub fn get_tags(&self, model: &TreeDataModel) -> (r: Vec<QualifiedPath>)
        requires
            model.wf(),
            self.wf_in(model),
        ensures
            r@.map_values(|p: QualifiedPath| p@) == tags_of(model, self.last_node()),
    {
        proof {
            assert(self@[self@.len() - 1] < model.node_count());
        }
        let last = self.last_index();
        let n = model.child_count(last);
        let mut r: Vec<QualifiedPath> = Vec::new();
        let mut k: usize = 0;
        let ghost kids = model.children_of(self.last_node());
        let ghost pred = |c: usize| model.node_type_of(c as int) == NodeType::Tag;
        proof {
            reveal(Seq::filter);
            assert(kids.take(0).filter(pred) =~= Seq::<usize>::empty());
            assert(r@.map_values(|p: QualifiedPath| p@) =~= kids.take(0).filter(pred).map_values(
                |c: usize| parse_segments(model.node_name(c as int)),
            ));
        }
        while k < n
            invariant
                0 <= k <= n,
                n == kids.len(),
                r@.map_values(|p: QualifiedPath| p@) == kids.take(k as int).filter(
                    pred,
                ).map_values(|c: usize| parse_segments(model.node_name(c as int))),
            decreases n - k,
        {
            let c = model.child_at(last, k);
            let ghost before = r@.map_values(|p: QualifiedPath| p@);
            if model.node_type_at(c) == NodeType::Tag {
                let name = model.node_at(c).get_name();
                r.push(QualifiedPath::from_raw(name.as_str()));
            }
            proof {
                reveal(Seq::filter);
                assert(kids.take(k + 1 as int).drop_last() =~= kids.take(k as int));
                assert(kids.take(k + 1 as int).last() == kids[k as int]);
                if pred(c) {
                    assert(kids.take(k + 1 as int).filter(pred) =~= kids.take(k as int).filter(
                        pred,
                    ).push(c));
                    assert(r@.map_values(|p: QualifiedPath| p@) =~= before.push(
                        parse_segments(model.node_name(c as int)),
                    ));
                    assert(kids.take(k as int).filter(pred).push(c).map_values(
                        |x: usize| parse_segments(model.node_name(x as int)),
                    ) =~= kids.take(k as int).filter(pred).map_values(
                        |x: usize| parse_segments(model.node_name(x as int)),
                    ).push(parse_segments(model.node_name(c as int))));
                }
            }
            k = k + 1;
        }
        proof {
            assert(kids.take(n as int) =~= kids);
        }
        r
    }

    /// A plain indented rendering of the subtree below the target node.
    pub fn display_tree(&self, model: &TreeDataModel, show_tags: bool) -> (r: String)
        requires
            model.wf(),
            self.wf_in(model),
    {
        proof {
            assert(self@[self@.len() - 1] < model.node_count());
        }
        render_subtree(model, self.last_index(), 0, show_tags)
    }
}

/// The tags below node `i`: the names of its tag children, each cleaned
/// into a one-segment path.
pub open spec fn tags_of(m: &TreeDataModel, i: int) -> Seq<Seq<Seq<char>>> {
    m.children_of(i).filter(|c: usize| m.node_type_of(c as int) == NodeType::Tag).map_values(
        |c: usize| parse_segments(m.node_name(c as int)),
    )
}

/// The descendants of the chain `prefix`, in preorder, starting at child
/// position `k` of the last node.
pub open spec fn descendants_from(m: &TreeDataModel, prefix: Seq<usize>, k: int) -> Seq<Seq<usize>>
    decreases m.node_count() - prefix.last(), m.children_of(prefix.last() as int).len() - k,
    when prefix.len() > 0 && 0 <= prefix.last() < m.node_count() && m.wf() && 0 <= k
    via descendants_from_decreases
{
    if k >= m.children_of(prefix.last() as int).len() {
        Seq::<Seq<usize>>::empty()
    } else {
        let c = m.children_of(prefix.last() as int)[k];
        seq![prefix.push(c)] + descendants_from(m, prefix.push(c), 0) + descendants_from(
            m,
            prefix,
            k + 1,
        )
    }
}

#[via_fn]
proof fn descendants_from_decreases(m: &TreeDataModel, prefix: Seq<usize>, k: int) {
    if k < m.children_of(prefix.last() as int).len() {
        crate::tree::lemma_wf_child_bounds(m, prefix.last() as int, k);
        let c = m.children_of(prefix.last() as int)[k];
        assert(prefix.push(c).last() == c);
    }
}

/// One line per node, indented by depth.
#[verifier::loop_isolation(false)]
fn render_subtree(model: &TreeDataModel, i: usize, depth: usize, show_tags: bool) -> (r: String)
    requires
        model.wf(),
        0 <= i < model.node_count(),
    decreases model.node_count() - i,
{
    let mut out = String::new();
    let mut d: usize = 0;
    while d < depth
        invariant
            d <= depth,
        decreases depth - d,
    {
        out.append("  ");
        d = d + 1;
    }
    out.append(model.node_at(i).get_name().as_str());
    out.append("\n");
    let n = model.child_count(i);
    let mut k: usize = 0;
    while k < n
        invariant
            0 <= k <= n,
            n == model.children_of(i as int).len(),
        decreases n - k,
    {
        let c = model.child_at(i, k);
        let is_tag = model.node_type_at(c) == NodeType::Tag;
        if show_tags || !is_tag {
            let next_depth = if depth < usize::MAX {
                depth + 1
            } else {
                depth
            };
            let sub = render_subtree(model, c, next_depth, show_tags);
            out.append(sub.as_str());
        }
        k = k + 1;
    }
    out
}

impl TreeDataModel {
    /// The path made of the virtual root alone.
    pub fn get_virtual_root(&self) -> (r: NodePath)
        requires
            self.wf(),
        ensures
            r@ == seq![0usize],
            r.wf_in(self),
    {
        let mut indices: Vec<usize> = Vec::new();
        indices.push(0);
        let r = NodePath { indices };
        proof {
            crate::tree::lemma_wf_root(self);
            assert(r@ =~= seq![0usize]);
        }
        r
    }

    /// Navigates from the virtual root to the named area.
    pub fn get_area(&self, path: &QualifiedPath) -> (r: Option<NodePath>)
        requires
            self.wf(),
        ensures
            r is Some <==> (self.walk(0, path@) is Some && self.node_type_of(
                walk_end(self, 0, path@),
            ) == NodeType::Area),
            r matches Some(np) ==> np@ == seq![0usize] + self.walk(0, path@)->Some_0 && np.wf_in(
                self,
            ),
    {
        self.get_virtual_root().to_area(self, path)
    }

    /// Navigates from the virtual root through an absolute path, skipping
    /// the leading absolute marker.
    pub fn get_node_path(&self, path: &QualifiedPath) -> (r: Option<NodePath>)
        requires
            self.wf(),
            path@.len() >= 1,
        ensures
            r is Some <==> self.walk(0, path@.skip(1)) is Some,
            r matches Some(np) ==> np@ == seq![0usize] + self.walk(0, path@.skip(1))->Some_0
                && np.wf_in(self),
    {
        let tail = path.strip_n_left(1);
        self.get_virtual_root().to(self, &tail)
    }
}

/// Whether a path passes the include/exclude filter.
pub enum QPathFilteringMode {
    INCLUDE,
    EXCLUDE,
}

/// Keeps or drops paths by comparing their qualified form against a fixed
/// list.
pub struct ByQPathFilteringNodePathTransformer {
    pub paths: Vec<QualifiedPath>,
    pub mode: QPathFilteringMode,
}

/// Keeps only paths whose target node's branch flag matches.
pub struct HasBranchFilteringNodePathTransformer {
    pub has_branch: bool,
}

/// Applies a list of transformers in order; the first to drop a path drops
/// it for the whole chain.
pub struct ChainingNodePathTransformer {
    pub transformers: Vec<NodePathTransformers>,
}

/// The closed set of path-stream transformers.
pub enum NodePathTransformers {
    ChainingNodePathTransformer(ChainingNodePathTransformer),
    HasBranchFilteringNodePathTransformer(HasBranchFilteringNodePathTransformer),
    ByQPathFilteringNodePathTransformer(ByQPathFilteringNodePathTransformer),
}

/// Whether the include/exclude filter keeps a path.
pub open spec fn qpath_filter_keeps(
    f: &ByQPathFilteringNodePathTransformer,
    m: &TreeDataModel,
    p: Seq<usize>,
) -> bool {
    let listed = exists|i: int|
        0 <= i < f.paths@.len() && (#[trigger] f.paths@[i])@ == names_path(m, p);
    match f.mode {
        QPathFilteringMode::INCLUDE => listed,
        QPathFilteringMode::EXCLUDE => !listed,
    }
}

/// Whether a transformer keeps a path; every transformer here filters and
/// never rewrites.
pub open spec fn transformer_keeps(t: &NodePathTransformers, m: &TreeDataModel, p: Seq<usize>) -> bool
    decreases t, 0int,
{
    match t {
        NodePathTransformers::ChainingNodePathTransformer(c) => chain_keeps(
            &c.transformers,
            m,
            p,
            0,
        ),
        NodePathTransformers::HasBranchFilteringNodePathTransformer(f) => m.node_has_branch(
            p.last() as int,
        ) == f.has_branch,
        NodePathTransformers::ByQPathFilteringNodePathTransformer(f) => qpath_filter_keeps(f, m, p),
    }
}

/// Whether every transformer from position `k` on keeps the path.
pub open spec fn chain_keeps(
    ts: &Vec<NodePathTransformers>,
    m: &TreeDataModel,
    p: Seq<usize>,
    k: int,
) -> bool
    decreases ts, ts@.len() - k,
{
    if k < 0 || k >= ts@.len() {
        true
    } else {
        transformer_keeps(&ts@[k], m, p) && chain_keeps(ts, m, p, k + 1)
    }
}

impl ByQPathFilteringNodePathTransformer {
    pub fn new(paths: Vec<QualifiedPath>, mode: QPathFilteringMode) -> (r: Self)
        ensures
            r.paths@ == paths@,
            r.mode == mode,
    {
        Self { paths, mode }
    }

    /// Keeps the path exactly when the filter admits its qualified form.
    pub fn apply(&self, model: &TreeDataModel, node_path: NodePath) -> (r: Option<NodePath>)
        requires
            model.wf(),
            node_path.wf_in(model),
        ensures
            r is Some <==> qpath_filter_keeps(self, model, node_path@),
            r matches Some(np) ==> np@ == node_path@,
    {
        let qp = node_path.get_qualified_path(model);
        let n = self.paths.len();
        let mut listed = false;
        let mut i: usize = 0;
        while i < n
            invariant
                0 <= i <= n,
                n == self.paths@.len(),
                qp@ == names_path(model, node_path@),
                listed <==> exists|j: int|
                    0 <= j < i && (#[trigger] self.paths@[j])@ == names_path(model, node_path@),
            decreases n - i,
        {
            if self.paths[i] == qp {
                proof {
                    assert((self.paths@[i as int])@ == names_path(model, node_path@));
                }
                listed = true;
            }
            i = i + 1;
        }
        let keep = match self.mode {
            QPathFilteringMode::INCLUDE => listed,
            QPathFilteringMode::EXCLUDE => !listed,
        };
        if keep {
            Some(node_path)
        } else {
            None
        }
    }

    /// Filters a whole stream of paths.
    #[verifier::loop_isolation(false)]
    pub fn transform(&self, model: &TreeDataModel, node_paths: Vec<NodePath>) -> (r: Vec<NodePath>)
        requires
            model.wf(),
            forall|k: int| 0 <= k < node_paths@.len() ==> (#[trigger] node_paths@[k]).wf_in(model),
        ensures
            r@.map_values(|p: NodePath| p@) == node_paths@.map_values(|p: NodePath| p@).filter(
                |p: Seq<usize>| qpath_filter_keeps(self, model, p),
            ),
            forall|k: int| 0 <= k < r@.len() ==> (#[trigger] r@[k]).wf_in(model),
    {
        let n = node_paths.len();
        let mut r: Vec<NodePath> = Vec::new();
        let mut i: usize = 0;
        let ghost views = node_paths@.map_values(|p: NodePath| p@);
        let ghost pred = |p: Seq<usize>| qpath_filter_keeps(self, model, p);
        proof {
            reveal(Seq::filter);
            assert(views.take(0).filter(pred) =~= Seq::<Seq<usize>>::empty());
            assert(r@.map_values(|p: NodePath| p@) =~= views.take(0).filter(pred));
        }
        while i < n
            invariant
                model.wf(),
                0 <= i <= n,
                n == node_paths@.len(),
                views == node_paths@.map_values(|p: NodePath| p@),
                forall|k: int|
                    0 <= k < node_paths@.len() ==> (#[trigger] node_paths@[k]).wf_in(model),
                r@.map_values(|p: NodePath| p@) == views.take(i as int).filter(pred),
                forall|k: int| 0 <= k < r@.len() ==> (#[trigger] r@[k]).wf_in(model),
            decreases n - i,
        {
            let ghost before = r@.map_values(|p: NodePath| p@);
            proof {
                assert(node_paths@[i as int].wf_in(model));
                assert(views[i as int] == node_paths@[i as int]@);
            }
            let p = node_paths[i].clone();
            match self.apply(model, p) {
                Some(np) => {
                    r.push(np);
                    proof {
                        assert(r@.map_values(|q: NodePath| q@) =~= before.push(
                            views[i as int],
                        ));
                    }
                },
                None => {},
            }
            proof {
                reveal(Seq::filter);
                assert(views.take(i + 1 as int).drop_last() =~= views.take(i as int));
                assert(views.take(i + 1 as int).last() == views[i as int]);
            }
            i = i + 1;
        }
        proof {
            assert(views.take(n as int) =~= views);
        }
        r
    }
}

impl HasBranchFilteringNodePathTransformer {
    pub fn new(has_branch: bool) -> (r: Self)
        ensures
            r.has_branch == has_branch,
    {
        Self { has_branch }
    }

    /// Keeps the path exactly when its target node's branch flag matches.
    pub fn apply(&self, model: &TreeDataModel, node_path: NodePath) -> (r: Option<NodePath>)
        requires
            model.wf(),
            node_path.wf_in(model),
        ensures
            r is Some <==> model.node_has_branch(node_path.last_node()) == self.has_branch,
            r matches Some(np) ==> np@ == node_path@,
    {
        if node_path.get_metadata(model).has_branch() == self.has_branch {
            Some(node_path)
        } else {
            None
        }
    }

    /// Filters a whole stream of paths.
    #[verifier::loop_isolation(false)]
    pub fn transform(&self, model: &TreeDataModel, node_paths: Vec<NodePath>) -> (r: Vec<NodePath>)
        requires
            model.wf(),
            forall|k: int| 0 <= k < node_paths@.len() ==> (#[trigger] node_paths@[k]).wf_in(model),
        ensures
            r@.map_values(|p: NodePath| p@) == node_paths@.map_values(|p: NodePath| p@).filter(
                |p: Seq<usize>| model.node_has_branch(p.last() as int) == self.has_branch,
            ),
            forall|k: int| 0 <= k < r@.len() ==> (#[trigger] r@[k]).wf_in(model),
    {
        let n = node_paths.len();
        let mut r: Vec<NodePath> = Vec::new();
        let mut i: usize = 0;
        let ghost views = node_paths@.map_values(|p: NodePath| p@);
        let ghost pred = |p: Seq<usize>| model.node_has_branch(p.last() as int) == self.has_branch;
        proof {
            reveal(Seq::filter);
            assert(views.take(0).filter(pred) =~= Seq::<Seq<usize>>::empty());
            assert(r@.map_values(|p: NodePath| p@) =~= views.take(0).filter(pred));
        }
        while i < n
            invariant
                model.wf(),
                0 <= i <= n,
                n == node_paths@.len(),
                views == node_paths@.map_values(|p: NodePath| p@),
                forall|k: int|
                    0 <= k < node_paths@.len() ==> (#[trigger] node_paths@[k]).wf_in(model),
                r@.map_values(|p: NodePath| p@) == views.take(i as int).filter(pred),
                forall|k: int| 0 <= k < r@.len() ==> (#[trigger] r@[k]).wf_in(model),
            decreases n - i,
        {
            let ghost before = r@.map_values(|p: NodePath| p@);
            proof {
                assert(node_paths@[i as int].wf_in(model));
                assert(views[i as int] == node_paths@[i as int]@);
            }
            let p = node_paths[i].clone();
            match self.apply(model, p) {
                Some(np) => {
                    r.push(np);
                    proof {
                        assert(r@.map_values(|q: NodePath| q@) =~= before.push(
                            views[i as int],
                        ));
                    }
                },
                None => {},
            }
            proof {
                reveal(Seq::filter);
                assert(views.take(i + 1 as int).drop_last() =~= views.take(i as int));
                assert(views.take(i + 1 as int).last() == views[i as int]);
            }
            i = i + 1;
        }
        proof {
            assert(views.take(n as int) =~= views);
        }
        r
    }
}

impl ChainingNodePathTransformer {
    pub fn new(transformers: Vec<NodePathTransformers>) -> (r: Self)
        ensures
            r.transformers@ == transformers@,
    {
        Self { transformers }
    }

    /// Keeps the path exactly when every transformer in the chain keeps it.
    #[verifier::loop_isolation(false)]
    pub fn apply(&self, model: &TreeDataModel, node_path: NodePath) -> (r: Option<NodePath>)
        requires
            model.wf(),
            node_path.wf_in(model),
        ensures
            r is Some <==> chain_keeps(&self.transformers, model, node_path@, 0),
            r matches Some(np) ==> np@ == node_path@,
        decreases self, 1int, 0int,
    {
        let n = self.transformers.len();
        let mut current = node_path;
        let mut i: usize = 0;
        while i < n
            invariant
                0 <= i <= n,
                current@ == node_path@,
                current.wf_in(model),
                chain_keeps(&self.transformers, model, node_path@, 0) <==> chain_keeps(
                    &self.transformers,
                    model,
                    node_path@,
                    i as int,
                ),
            decreases n - i,
        {
            proof {
                assert(self.transformers@[i as int] == self.transformers@.index(i as int));
            }
            match self.transformers[i].apply(model, current) {
                Some(np) => {
                    current = np;
                },
                None => {
                    return None;
                },
            }
            i = i + 1;
        }
        Some(current)
    }

    /// Filters a whole stream of paths.
    #[verifier::loop_isolation(false)]
    pub fn transform(&self, model: &TreeDataModel, node_paths: Vec<NodePath>) -> (r: Vec<NodePath>)
        requires
            model.wf(),
            forall|k: int| 0 <= k < node_paths@.len() ==> (#[trigger] node_paths@[k]).wf_in(model),
        ensures
            r@.map_values(|p: NodePath| p@) == node_paths@.map_values(|p: NodePath| p@).filter(
                |p: Seq<usize>| chain_keeps(&self.transformers, model, p, 0),
            ),
            forall|k: int| 0 <= k < r@.len() ==> (#[trigger] r@[k]).wf_in(model),
    {
        let n = node_paths.len();
        let mut r: Vec<NodePath> = Vec::new();
        let mut i: usize = 0;
        let ghost views = node_paths@.map_values(|p: NodePath| p@);
        let ghost pred = |p: Seq<usize>| chain_keeps(&self.transformers, model, p, 0);
        proof {
            reveal(Seq::filter);
            assert(views.take(0).filter(pred) =~= Seq::<Seq<usize>>::empty());
            assert(r@.map_values(|p: NodePath| p@) =~= views.take(0).filter(pred));
        }
        while i < n
            invariant
                model.wf(),
                0 <= i <= n,
                n == node_paths@.len(),
                views == node_paths@.map_values(|p: NodePath| p@),
                forall|k: int|
                    0 <= k < node_paths@.len() ==> (#[trigger] node_paths@[k]).wf_in(model),
                r@.map_values(|p: NodePath| p@) == views.take(i as int).filter(pred),
                forall|k: int| 0 <= k < r@.len() ==> (#[trigger] r@[k]).wf_in(model),
            decreases n - i,
        {
            let ghost before = r@.map_values(|p: NodePath| p@);
            proof {
                assert(node_paths@[i as int].wf_in(model));
                assert(views[i as int] == node_paths@[i as int]@);
            }
            let p = node_paths[i].clone();
            match self.apply(model, p) {
                Some(np) => {
                    r.push(np);
                    proof {
                        assert(r@.map_values(|q: NodePath| q@) =~= before.push(
                            views[i as int],
                        ));
                    }
                },
                None => {},
            }
            proof {
                reveal(Seq::filter);
                assert(views.take(i + 1 as int).drop_last() =~= views.take(i as int));
                assert(views.take(i + 1 as int).last() == views[i as int]);
            }
            i = i + 1;
        }
        proof {
            assert(views.take(n as int) =~= views);
        }
        r
    }
}

impl NodePathTransformers {
    /// Dispatches to the wrapped transformer.
    pub fn apply(&self, model: &TreeDataModel, node_path: NodePath) -> (r: Option<NodePath>)
        requires
            model.wf(),
            node_path.wf_in(model),
        ensures
            r is Some <==> transformer_keeps(self, model, node_path@),
            r matches Some(np) ==> np@ == node_path@,
        decreases self, 2int, 0int,
    {
        match self {
            NodePathTransformers::ChainingNodePathTransformer(t) => t.apply(model, node_path),
            NodePathTransformers::HasBranchFilteringNodePathTransformer(t) => t.apply(
                model,
                node_path,
            ),
            NodePathTransformers::ByQPathFilteringNodePathTransformer(t) => t.apply(
                model,
                node_path,
            ),
        }
    }
}

/// The chain of nodes reached by walking raw segments one at a time,
/// stopping at the first that does not resolve.
pub open spec fn best_walk(m: &TreeDataModel, i: int, raw: Seq<Seq<char>>) -> Seq<usize>
    decreases raw.len(),
{
    if raw.len() == 0 {
        Seq::<usize>::empty()
    } else {
        match m.walk(i, parse_segments(raw[0])) {
            Some(chain) => if chain.len() == 0 {
                best_walk(m, i, raw.drop_first())
            } else {
                chain + best_walk(m, chain.last() as int, raw.drop_first())
            },
            None => Seq::<usize>::empty(),
        }
    }
}

/// `names_path` distributes over chain concatenation.
pub proof fn lemma_names_path_concat(m: &TreeDataModel, a: Seq<usize>, b: Seq<usize>)
    ensures
        names_path(m, a + b) == names_path(m, a) + names_path(m, b),
    decreases a.len(),
{
    if a.len() == 0 {
        assert(a + b =~= b);
        assert(Seq::<Seq<char>>::empty() + names_path(m, b) =~= names_path(m, b));
    } else {
        assert((a + b)[0] == a[0]);
        assert((a + b).drop_first() =~= a.drop_first() + b);
        lemma_names_path_concat(m, a.drop_first(), b);
        assert(parse_segments(m.node_name(a[0] as int)) + (names_path(m, a.drop_first())
            + names_path(m, b)) =~= (parse_segments(m.node_name(a[0] as int)) + names_path(
            m,
            a.drop_first(),
        )) + names_path(m, b));
    }
}

proof fn lemma_names_path_plain(m: &TreeDataModel, chain: Seq<usize>, segs: Seq<Seq<char>>)
    requires
        chain.len() == segs.len(),
        forall|k: int|
            0 <= k < segs.len() ==> m.node_name(#[trigger] chain[k] as int) == segs[k]
                && parse_segments(segs[k]) == seq![segs[k]],
    ensures
        names_path(m, chain) == segs,
    decreases chain.len(),
{
    if chain.len() > 0 {
        assert forall|k: int|
            0 <= k < segs.drop_first().len() implies m.node_name(
            #[trigger] chain.drop_first()[k] as int,
        ) == segs.drop_first()[k] && parse_segments(segs.drop_first()[k]) == seq![
            segs.drop_first()[k],
        ] by {
            assert(chain.drop_first()[k] == chain[k + 1]);
            assert(segs.drop_first()[k] == segs[k + 1]);
        }
        lemma_names_path_plain(m, chain.drop_first(), segs.drop_first());
        assert(parse_segments(m.node_name(chain[0] as int)) == seq![segs[0]]);
        assert(seq![segs[0]] + segs.drop_first() =~= segs);
    } else {
        assert(segs =~= Seq::<Seq<char>>::empty());
        assert(names_path(m, chain) =~= Seq::<Seq<char>>::empty());
    }
}

/// The names along a successful walk spell the walked segments, provided
/// each segment is a plain word that parses as itself.
pub proof fn lemma_walk_spells_segments(m: &TreeDataModel, i: int, segs: Seq<Seq<char>>)
    requires
        m.wf(),
        0 <= i < m.node_count(),
        m.walk(i, segs) is Some,
        forall|k: int| 0 <= k < segs.len() ==> parse_segments(#[trigger] segs[k]) == seq![segs[k]],
    ensures
        names_path(m, m.walk(i, segs)->Some_0) == segs,
{
    crate::tree::lemma_walk_names(m, i, segs);
    lemma_names_path_plain(m, m.walk(i, segs)->Some_0, segs);
}

/// Law of the naming round trip: the chain an inserted absolute path
/// resolves to spells that path again, provided the virtual root bears the
/// empty name and each segment is a plain word that parses as itself.
pub proof fn lemma_names_path_round_trip(m: &TreeDataModel, path: Seq<Seq<char>>)
    requires
        m.wf(),
        path.len() > 0,
        path[0] == Seq::<char>::empty(),
        m.node_name(0) == Seq::<char>::empty(),
        m.walk(0, path.skip(1)) is Some,
        forall|k: int| 1 <= k < path.len() ==> parse_segments(#[trigger] path[k]) == seq![path[k]],
    ensures
        names_path(m, seq![0usize] + m.walk(0, path.skip(1))->Some_0) == path,
{
    let chain = m.walk(0, path.skip(1))->Some_0;
    crate::tree::lemma_wf_root(m);
    crate::tree::lemma_walk_names(m, 0, path.skip(1));
    lemma_names_path_concat(m, seq![0usize], chain);
    lemma_parse_segments_empty();
    assert(seq![0usize].drop_first() =~= Seq::<usize>::empty());
    assert(seq![0usize][0] == 0usize);
    assert(names_path(m, Seq::<usize>::empty()) =~= Seq::<Seq<char>>::empty());
    assert(names_path(m, seq![0usize]) == parse_segments(m.node_name(0)) + names_path(
        m,
        Seq::<usize>::empty(),
    ));
    assert(names_path(m, seq![0usize]) =~= seq![Seq::<char>::empty()]);
    assert forall|k: int|
        0 <= k < path.skip(1).len() implies parse_segments(#[trigger] path.skip(1)[k]) == seq![
        path.skip(1)[k],
    ] by {
        assert(path.skip(1)[k] == path[k + 1]);
    }
    lemma_walk_spells_segments(m, 0, path.skip(1));
    assert(seq![Seq::<char>::empty()] + path.skip(1) =~= path);
}

/// A successful walk yields a chain of in-range nodes, one per segment.
proof fn lemma_walk_chain_facts(m: &TreeDataModel, i: int, segs: Seq<Seq<char>>)
    requires
        m.wf(),
        0 <= i < m.node_count(),
        m.walk(i, segs) is Some,
    ensures
        m.walk(i, segs)->Some_0.len() == segs.len(),
        forall|k: int|
            0 <= k < segs.len() ==> #[trigger] m.walk(i, segs)->Some_0[k] < m.node_count(),
    decreases segs.len(),
{
    if segs.len() > 0 {
        let c = m.child_with_name(i, segs[0])->Some_0;
        lemma_child_search_in_range(m, i, segs[0], 0);
        lemma_walk_chain_facts(m, c as int, segs.drop_first());
    }
}

/// A failed lookup below an otherwise valid prefix fails the whole walk.
proof fn lemma_walk_extend_none(m: &TreeDataModel, start: int, ss: Seq<Seq<char>>, i: int)
    requires
        m.wf(),
        0 <= start < m.node_count(),
        0 <= i < ss.len(),
        m.walk(start, ss.take(i)) is Some,
        m.child_with_name(
            {
                let chain = m.walk(start, ss.take(i))->Some_0;
                if chain.len() == 0 {
                    start
                } else {
                    chain.last() as int
                }
            },
            ss[i],
        ) is None,
    ensures
        m.walk(start, ss) is None,
    decreases i,
{
    if i == 0 {
        assert(ss.take(0) =~= Seq::<Seq<char>>::empty());
        assert(m.walk(start, ss.take(0))->Some_0 =~= Seq::<usize>::empty());
    } else {
        let pre = ss.take(i);
        assert(pre[0] == ss[0]);
        match m.child_with_name(start, ss[0]) {
            Some(c) => {
                lemma_child_search_in_range(m, start, ss[0], 0);
                let chain = m.walk(start, pre)->Some_0;
                let sub = m.walk(c as int, pre.drop_first());
                assert(sub is Some);
                assert(chain == seq![c] + sub->Some_0);
                assert(pre.drop_first() =~= ss.drop_first().take(i - 1));
                assert(ss.drop_first()[i - 1] == ss[i as int]);
                let subchain = sub->Some_0;
                assert(chain.len() == 1 + subchain.len());
                if subchain.len() == 0 {
                    assert(chain.last() == c);
                } else {
                    assert(chain.last() == subchain.last());
                }
                lemma_walk_extend_none(m, c as int, ss.drop_first(), i - 1);
            },
            None => {
                assert(m.walk(start, pre) is None);
            },
        }
    }
}

} // verus!
