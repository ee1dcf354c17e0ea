//! Rendering the syntax tree, and the HTML / JSX fragment converter.
pub mod html_jsx;
pub mod html_law;
pub mod mdx_renderer;
pub mod org_renderer;
