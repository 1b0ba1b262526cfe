//! A source-to-source mixin injection compiler for PHP trees.
//!
//! Injection units declare, through `#@Inject(...)` directives, statements to
//! be spliced into functions of a separate source tree.  The library locates
//! function and class boundaries with a line-oriented structural scan, turns
//! directives into edit requests, applies them as precise text splices, and
//! keeps the position map consistent after every edit.  All file and
//! directory handling lives outside the library; everything here works on
//! plain text handed in by the caller.

use vstd::prelude::*;

pub mod compiler;
pub mod config;
pub mod error;
pub mod interpreter;
pub mod mixin;
pub mod php;
pub mod util;
pub mod watcher;

pub use compiler::FileEntry;
pub use compiler::Injection;
pub use compiler::compile;
pub use compiler::create_mixin_call_string;
pub use compiler::extract_src_map_from_target;
pub use compiler::extract_target_mapping;
pub use compiler::move_mappings;
pub use config::Config;
pub use config::ConfigFile;
pub use error::CompileError;
pub use interpreter::Interpreter;
pub use interpreter::sort_mixins;
pub use php::SourceMapping;
pub use php::extract_namespace;
pub use php::extract_function_name;
pub use php::extract_function_params;
pub use php::extract_class_name;
pub use php::extract_source_mappings;

pub use mixin::Mixin;
pub use mixin::MixinArgs;
pub use mixin::MixinAppend;
pub use mixin::MixinHead;
pub use mixin::MixinNone;
pub use mixin::MixinPrepend;
pub use mixin::MixinReplace;
pub use mixin::MixinSlice;
pub use mixin::MixinTail;
pub use mixin::MixinType;
pub use mixin::MixinTypes;
pub use mixin::parse_i32;
pub use util::get_index;
pub use util::get_index_of_line;
pub use util::count_occurences_not_in_string;
pub use util::split_lines;
pub use watcher::WatchEvent;
pub use watcher::should_recompile;

verus! {

} // verus!
