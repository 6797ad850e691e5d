//! Packs the text files of an Obsidian vault into a small number of Markdown
//! documents, newest files first.

pub mod capacity;
pub mod document;
pub mod escape;
pub mod globs;
pub mod laws;
pub mod listing;
pub mod model;
pub mod naming;
pub mod order;
pub mod plan;
pub mod resume;
pub mod retry;
pub mod round_trip;
pub mod run;
pub mod scan;
pub mod summary;
pub mod text;
pub mod timestamp;

pub use escape::escape_md_cell;
pub use globs::build_glob_set;
pub use model::{
    ManifestEntry, MdFile, PackOptions, PackPlan, PACK_BASE_OVERHEAD, PER_FILE_OVERHEAD,
};
pub use naming::{clean_existing_pack_outputs, find_highest_pack_index};
pub use plan::plan_packs;
pub use resume::read_already_packed_rel_paths;
pub use retry::should_retry;
pub use scan::PACKABLE_EXTENSIONS;
pub use timestamp::format_unix_timestamp;
