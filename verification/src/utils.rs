pub mod blob_util;
pub mod commit_util;
pub mod config_util;
pub mod diff_util;
pub mod hash_util;
pub mod ignore_util;
pub mod lcs;
pub mod object_util;
pub mod ptl_util;
pub mod repo_util;
pub mod text_util;
pub mod tree_util;
pub mod working_dir_util;
pub mod zlib_util;
