//! A verified core for managing software-product-line workflows — features,
//! products and derivations — on top of a version-control backend that only
//! knows flat branches: the qualified-path algebra, the typed tree model of
//! the namespace, the conflict-detection engine, and the derivation state
//! machine with its durable commit-message records.

pub mod clique;
pub mod commit;
pub mod completion;
pub mod conflict;
pub mod derivation;
pub mod engine;
pub mod merge;
pub mod node_path;
pub mod qualified_path;
pub mod record;
pub mod text;
pub mod tree;
pub mod untie;

pub use clique::{
    build_edges, calculate_mergeable_features, clique_to_paths, get_max_clique, map_paths_to_id,
    path_to_id,
};
pub use commit::Commit;
pub use completion::RelativePathCompleter;
pub use conflict::{
    ConflictCheckBaseBranch, ConflictCheckRun, ConflictChecker, ConflictKind, ConflictProbe,
    ConflictStatistic, ConflictStatistics, GitError, ProbeAction, ProbeEvent, ProbeState,
};
pub use derivation::{
    DerivationFlowError, DerivationMetadata, DerivationState, FeatureMetadata, MetadataView,
};
pub use engine::{
    get_derivation_start_metadata, get_last_metadata, plan_abort, plan_continue, AbortDecision,
    ContinueDecision,
};
pub use merge::{MergeAction, MergeEvent, MergeRun, MergeRunState};
pub use node_path::{
    ByQPathFilteringNodePathTransformer, ChainingNodePathTransformer,
    HasBranchFilteringNodePathTransformer, NodePath, NodePathTransformers, NodePathType,
    QPathFilteringMode,
};
pub use qualified_path::QualifiedPath;
pub use record::{
    make_derivation_commit_message, parse_derivation_commit_message, RecordParseError,
};
pub use tree::{
    Node, NodeMetadata, NodeType, TreeDataModel, WrongNodeTypeError, FEATURES_PREFIX,
    PRODUCTS_PREFIX,
};
pub use untie::{
    choose_untie_target, extract_feature_names, filter_untie_candidates, scan_untie_commits,
};
