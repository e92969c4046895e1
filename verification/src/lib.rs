pub mod actions;
pub mod batch;
pub mod bin;
pub mod contents;
pub mod conventions;
pub mod csv;
pub mod desk;
pub mod directories;
pub mod documents;
pub mod evidence;
pub mod exif_time;
pub mod groups;
pub mod hashing;
pub mod indexing;
pub mod keeper;
pub mod ledger;
pub mod like;
pub mod listings;
pub mod lists;
pub mod loading;
pub mod matching;
pub mod merge;
pub mod messages;
pub mod model;
pub mod outside;
pub mod paths;
pub mod photos;
pub mod previews;
pub mod progress;
pub mod project;
pub mod promises;
pub mod removal;
pub mod reports;
pub mod rescan;
pub mod review;
pub mod safety;
pub mod scan;
pub mod settings;
pub mod sweeping;
pub mod text;
pub mod tidying;
pub mod usn;
pub mod verdicts;
pub mod walk;
