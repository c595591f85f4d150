pub mod dump;
pub mod line;
pub mod options;

pub use dump::dump;
pub use line::glyph;
pub use line::make_line;
pub use options::DumpError;
pub use options::DumpOptions;
