pub mod path_utils;
pub mod text_utils;
