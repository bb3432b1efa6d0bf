//! A host shell for documents: a small CSS subset, and what each node of a document becomes.
pub mod css;
pub mod layout;
pub mod style_laws;
pub mod sheet_laws;
