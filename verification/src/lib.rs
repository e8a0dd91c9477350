//! JSON CRDT building blocks, operational transformation, and arena-backed
//! ordered trees, with their behaviour stated and proved.
use vstd::prelude::*;

pub mod text;
pub mod clock;
pub mod rga;
pub mod nodes;
pub mod operations;
pub mod crdt;
pub mod equal;
pub mod view;
pub mod ot_model;
pub mod ot_laws;
pub mod ot_binary;
pub mod ot_string;
pub mod tree;
pub mod llrb;
pub mod sorted_map;
pub mod str_utils;
pub mod diff_bin;
pub mod json_equal;
pub mod json_walk;
pub mod json_pretty;
pub mod json_patch;
pub mod patch_json;
pub mod verbose;
pub mod print;
