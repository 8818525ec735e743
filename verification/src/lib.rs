//! Kotlin-style collection types over a dynamic value model.
//!
//! Seven container types — read-only and mutable lists, insertion-ordered
//! sets, ordered maps, and a grouping helper — hold dynamically typed
//! [`value::Value`] elements and offer the Kotlin collection method surface:
//! query, transform, fold, set algebra, sorting and grouping. Containers may
//! carry a declared element kind which every insertion is checked against.
#![allow(unused_imports)]
#![verifier::loop_isolation(false)]

use vstd::prelude::*;

pub mod errors;
pub mod kot_grouping;
pub mod kot_list;
pub mod kot_map;
pub mod kot_mutable_list;
pub mod kot_mutable_map;
pub mod kot_mutable_set;
pub mod kot_set;
pub mod model;
pub mod value;
pub mod vec_ops;
