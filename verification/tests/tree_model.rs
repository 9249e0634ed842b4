use tangl::{
    ByQPathFilteringNodePathTransformer, ChainingNodePathTransformer,
    HasBranchFilteringNodePathTransformer, NodePath, NodePathTransformers, QPathFilteringMode,
    QualifiedPath, TreeDataModel,
};

fn prepare_model() -> TreeDataModel {
    let mut model = TreeDataModel::new();
    model
        .insert_qualified_path(QualifiedPath::from_raw("/main/feature/root"), false)
        .unwrap();
    model
        .insert_qualified_path(QualifiedPath::from_raw("/main/feature/root/foo"), false)
        .unwrap();
    model
}

fn paths_of(model: &TreeDataModel, nodes: Vec<NodePath>) -> Vec<String> {
    nodes
        .into_iter()
        .map(|node_path| node_path.get_qualified_path(model).to_string())
        .collect()
}

#[test]
fn tree_node_path_with_virtual_root() {
    let mut tree = TreeDataModel::new();
    tree.insert_qualified_path(QualifiedPath::from_raw("/main"), false)
        .unwrap();
    let path = tree
        .get_node_path(&QualifiedPath::from_raw("/main"))
        .unwrap();
    assert_eq!(path.get_qualified_path(&tree).to_string(), "/main")
}

#[test]
fn test_chaining_node_path_transformer() {
    let model = prepare_model();
    let chain = ChainingNodePathTransformer::new(vec![
        NodePathTransformers::ByQPathFilteringNodePathTransformer(
            ByQPathFilteringNodePathTransformer::new(
                vec![QualifiedPath::from_raw("/main/feature/root")],
                QPathFilteringMode::EXCLUDE,
            ),
        ),
        NodePathTransformers::HasBranchFilteringNodePathTransformer(
            HasBranchFilteringNodePathTransformer::new(true),
        ),
    ]);
    let root = model.get_virtual_root();
    let actual = paths_of(&model, chain.transform(&model, root.iter_children_req(&model)));
    assert_eq!(actual, vec!["/main/feature/root/foo"]);
}

#[test]
fn test_q_path_filtering_node_path_transformer_include() {
    let model = prepare_model();
    let transformer = ByQPathFilteringNodePathTransformer::new(
        vec![QualifiedPath::from_raw("/main/feature/root")],
        QPathFilteringMode::INCLUDE,
    );
    let root = model.get_virtual_root();
    let actual = paths_of(
        &model,
        transformer.transform(&model, root.iter_children_req(&model)),
    );
    assert_eq!(actual, vec!["/main/feature/root"]);
}

#[test]
fn test_q_path_filtering_node_path_transformer_exclude() {
    let model = prepare_model();
    let transformer = ByQPathFilteringNodePathTransformer::new(
        vec![QualifiedPath::from_raw("/main/feature/root")],
        QPathFilteringMode::EXCLUDE,
    );
    let root = model.get_virtual_root();
    let actual = paths_of(
        &model,
        transformer.transform(&model, root.iter_children_req(&model)),
    );
    assert_eq!(
        actual,
        vec!["/main", "/main/feature", "/main/feature/root/foo"]
    );
}

#[test]
fn test_tree_membership() {
    // inserted paths carry a branch, others do not
    let mut tree = TreeDataModel::new();
    tree.insert_qualified_path(QualifiedPath::from_raw("/main"), false)
        .unwrap();
    tree.insert_qualified_path(QualifiedPath::from_raw("/main/feature/root"), false)
        .unwrap();
    tree.insert_qualified_path(QualifiedPath::from_raw("/main/feature/root/foo"), false)
        .unwrap();
    assert!(tree.has_branch(&QualifiedPath::from_raw("/main/feature/root/foo")));
    assert!(!tree.has_branch(&QualifiedPath::from_raw("/main/feature/root/bar")));
}

#[test]
fn test_insert_rejects_misplaced_segment() {
    // under an area only the feature and product roots may be created
    let mut tree = TreeDataModel::new();
    let result = tree.insert_qualified_path(QualifiedPath::from_raw("/main/oops/x"), false);
    assert!(result.is_err());
    // the branch list is untouched on the error
    assert!(!tree.has_branch(&QualifiedPath::from_raw("/main/oops/x")));
}

#[test]
fn test_insert_is_idempotent_for_navigation() {
    let mut tree = TreeDataModel::new();
    tree.insert_qualified_path(QualifiedPath::from_raw("/main/feature/root"), false)
        .unwrap();
    tree.insert_qualified_path(QualifiedPath::from_raw("/main/feature/root"), false)
        .unwrap();
    let root = tree.get_virtual_root();
    // re-inserting creates no second child anywhere
    assert_eq!(root.iter_children_req(&tree).len(), 3);
}

#[test]
fn test_reinsert_keeps_single_branch_entry() {
    let mut tree = TreeDataModel::new();
    tree.insert_qualified_path(QualifiedPath::from_raw("/main/feature/root"), false)
        .unwrap();
    tree.insert_qualified_path(QualifiedPath::from_raw("/main/feature/root"), false)
        .unwrap();
    // re-inserting an existing path records it only once
    assert_eq!(tree.get_qualified_paths_with_branches().len(), 1);
    assert!(tree.has_branch(&QualifiedPath::from_raw("/main/feature/root")));
}

#[test]
fn test_tags_are_listed_but_carry_no_branch_flag() {
    let mut tree = TreeDataModel::new();
    tree.insert_qualified_path(QualifiedPath::from_raw("/main/feature/root"), false)
        .unwrap();
    tree.insert_qualified_path(QualifiedPath::from_raw("/main/feature/root/v1"), true)
        .unwrap();
    let node = tree
        .get_node_path(&QualifiedPath::from_raw("/main/feature/root"))
        .unwrap();
    let tags: Vec<String> = node
        .get_tags(&tree)
        .into_iter()
        .map(|t| t.to_string())
        .collect();
    assert_eq!(tags, vec!["v1"]);
    let tag_node = tree
        .get_node_path(&QualifiedPath::from_raw("/main/feature/root/v1"))
        .unwrap();
    assert!(!tag_node.get_metadata(&tree).has_branch());
}

#[test]
fn test_navigation_stops_at_missing_segment() {
    let model = prepare_model();
    assert!(model
        .get_node_path(&QualifiedPath::from_raw("/main/feature/other"))
        .is_none());
    let root = model.get_virtual_root();
    let best = root.to_last_valid(&model, &QualifiedPath::from_raw("main/feature/other"));
    assert_eq!(best.get_qualified_path(&model).to_string(), "/main/feature");
}

#[test]
fn test_populate_from_backend_listing() {
    // a raw branch listing, current-branch marker and indentation included
    let branches = "* main\n  _main/_feature/root\n  _main/_feature/_root/foo\n";
    let tags = "_main/v1\n";
    let mut model = TreeDataModel::new();
    model.populate_from_listing(branches, tags).unwrap();
    assert!(model.has_branch(&QualifiedPath::from_raw("/main")));
    assert!(model.has_branch(&QualifiedPath::from_raw("/main/feature/root")));
    assert!(model.has_branch(&QualifiedPath::from_raw("/main/feature/root/foo")));
    assert!(!model.has_branch(&QualifiedPath::from_raw("/main/feature/root/bar")));
    let area = model
        .get_node_path(&QualifiedPath::from_raw("/main"))
        .unwrap();
    let tag_names: Vec<String> = area
        .get_tags(&model)
        .into_iter()
        .map(|t| t.to_string())
        .collect();
    assert_eq!(tag_names, vec!["v1"]);
}
