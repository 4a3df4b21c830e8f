//! Renders a tagged log into styled sections and page draw calls.
pub mod layout;
pub mod sections;
pub mod text;
