//! Migration of web applications: discovery, transpilation, optimisation and planning.
pub mod html_tree;
pub mod site_model;
pub mod transpile;
pub mod site_laws;
pub mod rebuild_laws;
pub mod html_laws;
pub mod model_laws;
pub mod discovery;
pub mod discovery_laws;
pub mod syntax;
pub mod syntax_laws;
pub mod tree_sitter_discovery;
pub mod js_transform;
pub mod js_laws;
pub mod declarations;
pub mod code_laws;
pub mod optimize;
pub mod use_laws;
pub mod type_infer;
pub mod type_laws;
pub mod function_laws;
pub mod deploy;
pub mod equivalence;
pub mod percent;
pub mod percent_laws;
pub mod coverage;
pub mod eve;
pub mod plan_laws;
pub mod check_laws;
