//! A note-taking scratchpad core: an in-memory collection of text notes,
//! its close/delete lifecycle, a session snapshot codec, and a
//! collision-free file-export planner.

mod codec;
mod export;
mod note;
mod numeral;

pub use export::candidate_name;
pub use export::dir_name_of;
pub use export::export_dir_name;
pub use export::export_dir_name_at;
pub use export::export_plan;
pub use export::exports_parent;
pub use export::lemma_dir_names_distinct;
pub use export::plan_views;
pub use export::resolve_filename;
pub use export::resolved_filename;
pub use export::rfc3339_of;
pub use export::str_views;
pub use export::ExportError;
pub use export::PlannedFile;

pub use codec::lemma_snapshot_round_trip;
pub use codec::snap_of;
pub use codec::snaps;
pub use codec::spec_decode;
pub use codec::spec_encode;
pub use codec::Snap;

pub use note::ids_increasing;
pub use note::lemma_ids_distinct;
pub use note::note_is_open;
pub use note::MyApp;
pub use note::Note;
pub use numeral::to_decimal;
