//! Course page generation for HITSZ-OpenAuto, verified with Verus.
//!
//! - `constants`: the semester table and the file-tree exclusion rules;
//! - `models`: the data of training plans, courses, worktrees and pages;
//! - `table`: text-keyed tables for the data files' objects;
//! - `loader`: repository IDs, grade details and plan enrichment;
//! - `tree`: file trees of worktrees and their JSX;
//! - `generator`: front matter, titles, page text and semester card order;
//! - `site`: every page and index page that one plan, and the years, produce;
//! - `fetcher`: repository listing, file decoding and fetch bookkeeping;
//! - `text`, `sorting`: the character and ordering toolkit beneath them.
use vstd::prelude::*;

pub mod text;
pub mod sorting;
pub mod constants;
pub mod models;
pub mod table;
pub mod tree;
pub mod generator;
pub mod loader;
pub mod fetcher;
pub mod site;

verus! {
}
