//! Package discovery and change detection for a package-build tree.
//!
//! - `package`: the package model, and discovery over a snapshot of the
//!   submodules and of the top two levels of the working tree.
//! - `changes`: which packages own the paths changed between two commits,
//!   and the choice of the base commit.
//! - `pkgbuild`: reading version and name fields from recipe text.
//! - `order`, `text`: name order and string helpers.

pub mod text;
pub mod order;
pub mod pkgbuild;
pub mod package;
pub mod changes;
