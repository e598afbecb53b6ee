//! Duplicate-file detection: the decisions of the pipeline that walks a
//! directory tree, buckets files by size, collapses hard links, hashes what is
//! left and groups files with equal content.

pub mod entry;
pub mod classify;
pub mod walk;
pub mod bucket;
pub mod collapse;
pub mod hasher;
pub mod order;
pub mod group;
pub mod report;
