// Line filter for circuit description text: drops every line that opens,
// after its leading whitespace, with a `printf(` or `stop(` directive.

pub mod whitespace;
pub mod directive;
pub mod lines;
pub mod filter;

pub use directive::should_strip;
pub use lines::split_lines;
pub use filter::{kept_lines, render_lines, retain_lines, strip_directives};
pub use whitespace::is_whitespace;
