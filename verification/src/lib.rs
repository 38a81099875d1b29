//! The module hierarchy of a source root, rebuilt from its files and kept
//! consistent as they change.
//!
//! A [`db::RootDatabase`] holds the inputs, the items of the files and the
//! source roots, and counts the writes to them with a
//! [`cancel::RevisionClock`]. Queries run on a [`db::Snapshot`] of the
//! inputs, which memoizes their results, and are canceled once a write has
//! moved the clock past the revision of the snapshot:
//!
//! - [`source::submodules`] lists the submodules that a module source
//!   declares, going by the items that the parser found in its file;
//! - [`resolve::resolve_submodule`] maps a declaration to the files that
//!   may hold the module, through the [`input::FileResolver`] of the
//!   source root, which may be a table of paths, [`file_map::FileMap`], or
//!   a pair of functions, [`fn_resolver::FnResolver`];
//! - [`builder::module_tree`] assembles the [`tree::ModuleTree`] of a
//!   source root from the two. It is proved to give the tree that
//!   [`build_state::module_tree_of`] defines, and of that tree all that
//!   [`build_state::is_module_tree`] says: every member file has exactly
//!   one module, parents and children agree, and every link is what
//!   following its submodule leads to;
//! - [`scope::module_scope`] lists the names that a module of the tree
//!   declares.
//!
//! Parsing is the caller's part: a file comes as the items that
//! [`syntax::SyntaxItem`] describes. The hash collections of the build are
//! those of `rustc_hash`, and the paths of [`file_map::FileMap`] are
//! worked out by `relative_path`. What is taken on trust of them is said
//! where they are called: in [`fx`] and [`file_map`].

pub mod build_state;
pub mod builder;
pub mod cancel;
pub mod db;
pub mod file_map;
pub mod fn_resolver;
mod following;
pub mod fx;
pub mod input;
pub mod memo;
pub mod resolve;
pub mod scope;
pub mod source;
pub mod syntax;
pub mod tree;
