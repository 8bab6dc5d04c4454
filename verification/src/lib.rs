//! Verified core of a disk-space explorer.

pub mod agreement;
pub mod arena_scanner;
pub mod args;
pub mod background_query;
pub mod bulk;
pub mod bytes;
pub mod categories;
pub mod category_worker;
pub mod cleanup;
pub mod color;
pub mod commands;
pub mod config;
pub mod deleter;
pub mod deleting;
pub mod extd;
pub mod finding;
pub mod fitting;
pub mod icon_art;
pub mod intern;
pub mod keys;
pub mod kinds;
pub mod labels;
pub mod listing;
pub mod matching;
pub mod measure;
pub mod names;
pub mod navigate;
pub mod ntfs;
pub mod order;
pub mod path;
pub mod permissions;
pub mod platform;
pub mod probe;
pub mod recording;
pub mod report;
pub mod scanner;
pub mod screenshot;
pub mod search;
pub mod seqs;
pub mod session;
pub mod shape;
pub mod showing;
pub mod sizes;
pub mod suggestions;
pub mod suggestions_ui;
pub mod targets;
pub mod text;
pub mod tiling;
pub mod tree;
pub mod tree_view;
pub mod treemap;
pub mod ui;
pub mod whereabouts;
pub mod wide;
pub mod window;
