//! Candidate discovery for utility-class style generation: byte-exact scanning
//! of text blobs for candidate tokens, and compression of a content tree into
//! glob patterns.

pub mod classifier;
pub mod extractor;
pub mod globs;
pub mod order;
pub mod path_order;
pub mod paths;
pub mod pipeline;
pub mod policy;
pub mod sorted_set;
pub mod split;
pub mod text;

pub use extractor::Extractor;
pub use extractor::ExtractorOptions;
pub use globs::is_git_ignored_content_path;
pub use globs::resolve_content_paths;
pub use globs::ContentPathInfo;
pub use globs::ResolveError;
pub use globs::WalkOutcome;
pub use pipeline::parse_all_blobs;
pub use pipeline::parse_candidate_strings;
pub use pipeline::parse_candidate_strings_from_files;
pub use pipeline::read_all_files;
pub use pipeline::ChangedContent;
pub use pipeline::Parsing;
pub use pipeline::IO;
pub use policy::is_allowed_content_path;
