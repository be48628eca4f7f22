//! Page structure: from positioned text runs to blocks.
//!
//! Positions and sizes are real numbers and stay with the caller. What they
//! decide comes in as flags, ranks and handles; everything that follows from
//! those decisions is settled here.
pub mod captions;
pub mod columns;
pub mod decor;
pub mod detect;
pub mod flatten;
pub mod furniture;
pub mod headings;
pub mod ids;
pub mod items;
pub mod lines;
pub mod lists;
pub mod markers;
pub mod model;
pub mod numerals;
pub mod order;
pub mod outline;
pub mod page;
pub mod paragraphs;
pub mod plan;
pub mod select;
pub mod sorted;
pub mod tables;
pub mod text;
