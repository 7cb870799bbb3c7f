//! Folding a submodule's history into the history of the repository that
//! holds it, as if the submodule had always been a plain directory there.
//!
//! This crate holds the rules of that rewrite and the proofs that they
//! keep. It reads no repository and writes none: a program around it walks
//! the histories, hands each commit over as plain values, and creates what
//! the crate asks for.
//!
//! The work goes in the order that [`pipeline`] lays down:
//!
//! 1. [`cli`] reads the arguments, [`precheck`] says whether the working
//!    tree is clean and whether the user's substitutions lead into the
//!    submodule's history.
//! 2. [`submodule`] takes every commit of the submodule, parents first,
//!    and says which commit to create in its place; [`store`] keeps which
//!    new object stands for which old one.
//! 3. [`scan`] looks through the host history for submodule pointers that
//!    lead nowhere.
//! 4. [`host`] takes every commit of the host history, parents first, and
//!    says whether it stays or which commit to create in its place;
//!    [`tree`] says how the tree of such a commit is changed.
//! 5. [`finalize`] says where to move the branch.
//!
//! What holds of whole passes is proved in [`laws`] and [`history`].

mod assoc;
pub mod cli;
pub mod commit;
pub mod error;
pub mod finalize;
pub mod history;
pub mod host;
pub mod laws;
pub mod mappings;
pub mod oid;
pub mod pipeline;
pub mod precheck;
pub mod scan;
pub mod store;
pub mod submodule;
pub mod tree;
pub mod walk;
