pub mod text;
pub mod ansi;
pub mod command;
pub mod frame;
pub mod path;
pub mod theme;
pub mod template;
pub mod sysinfo;
pub mod layout;
pub mod runtime;
