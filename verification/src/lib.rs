//! The verified core of a music library manager: where files go, in which
//! order collections play, which records a scan or an organize run touches,
//! and how metadata candidates are found and compared.
pub mod cli;
pub mod collection_delete;
pub mod collection_order;
pub mod cover_art;
pub mod deletion;
pub mod error;
pub mod http;
pub mod import_run;
pub mod importer;
pub mod json;
pub mod lookup;
pub mod matching;
pub mod models;
pub mod musicbrainz;
pub mod name_preference;
pub mod organize_apply;
pub mod organize_preview;
pub mod organize_probes;
pub mod organizer;
pub mod paths;
pub mod player;
pub mod pruner;
pub mod queries;
pub mod releases;
pub mod relocator;
pub mod report;
pub mod rows;
pub mod schema;
pub mod search;
pub mod settings;
pub mod setup;
pub mod sorting;
pub mod sweep;
pub mod tag_write;
pub mod tagger;
pub mod tally;
pub mod template;
pub mod text;
