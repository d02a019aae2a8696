pub mod cli;
pub mod config;
pub mod date;
pub mod error;
pub mod frontmatter;
pub mod home;
pub mod id;
pub mod io;
pub mod markdown;
pub mod model;
pub mod parser;
pub mod renderer;
pub mod slots;
pub mod task_parser;
pub mod text;
pub mod version;
