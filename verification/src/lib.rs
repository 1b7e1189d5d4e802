//! The logic of a scraper for the torrents that nyaa.si lists: which URLs are asked
//! for and when, what stands on a page, what of it is downloaded, under which names
//! it is kept, and what is remembered of it.
pub mod clock;
pub mod content;
pub mod listing;
pub mod names;
pub mod pacing;
pub mod percent;
pub mod plan;
pub mod run;
pub mod seqs;
pub mod size;
pub mod state;
pub mod table;
pub mod text;
pub mod urls;
