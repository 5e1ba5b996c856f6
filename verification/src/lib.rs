//! Verified query core of a best-effort C-family code index: text and cursor
//! analysis, callable resolution, comment rendering, name search and the
//! source-excerpt, project and status rules around them.

pub mod chars;
pub mod query;
pub mod table_laws;
pub mod text;
pub mod text_laws;
pub mod chain_laws;
pub mod paren_laws;
pub mod order;
pub mod call_laws;
pub mod call_model;
pub mod model;
pub mod quota_laws;
pub mod reach;
pub mod callables;
pub mod signatures;
pub mod signature_laws;
pub mod parameter_laws;
pub mod lists;
pub mod lines;
pub mod comments;
pub mod project_context;
pub mod project_laws;
pub mod text_index;
pub mod facts;
pub mod resolver;
pub mod name_segment;
pub mod path_map;
pub mod name_table;
pub mod name_updates;
pub mod name_search;
pub mod search_laws;
pub mod finding_laws;
pub mod name_tokens;
pub mod postings;
pub mod prefix_paths;
pub mod segment_index;
pub mod match_laws;
pub mod token_laws;
pub mod memory;
pub mod name_recall;
pub mod priority;
pub mod recall_laws;
pub mod recall_sources;
pub mod recall_index;
pub mod name_coloring;
pub mod count_laws;
pub mod current_file_overlay;
pub mod overlay_laws;
pub mod local_completion;
pub mod cursor_binding;
pub mod local_laws;
pub mod definitions;
pub mod definition_laws;
pub mod documentation;
pub mod spacing_laws;
pub mod hover;
pub mod hover_laws;
pub mod progress;
pub mod lsp_kinds;
pub mod leases;
pub mod source_excerpt;
