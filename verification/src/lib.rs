//! Ranking of items by pairwise human judgement.
//!
//! The crate holds the logic of an interactive labelling tool.
//!
//! - [`compare`], [`ordpaths`], [`relation`], [`line`], [`matrix`] and
//!   [`persist`]: the results of comparisons, groups of items that were
//!   judged equal, and the cache that stores results with their mirrors and
//!   keeps ties transitively closed.
//! - [`event`], [`sort`], [`cmper`], [`links`], [`dispatch`] and [`engine`]:
//!   the two sides of a ranking run. The sorter places groups by binary insertion
//!   and asks one comparison at a time; the resolver answers from the cache
//!   or asks the human.
//! - [`images`], [`items`], [`picker`], [`tag`], [`tagger`], [`observer`],
//!   [`dataset`] and the rest: finding items, paging, picking, tagging and
//!   describing data sets.
//!
//! Nothing here reads files or the terminal: the program around the library
//! does, and hands over plain values.

pub mod compare;
pub mod ordpaths;
pub mod relation;
pub mod line;
pub mod matrix;
pub mod persist;
pub mod event;
pub mod sort;
pub mod cmper;
pub mod links;
pub mod dispatch;
pub mod engine;
pub mod images;
pub mod state;
pub mod items;
pub mod components;
pub mod input;
pub mod assoc;
pub mod order;
pub mod tag;
pub mod picker;
pub mod tagger;
pub mod observer;
pub mod dataset;
