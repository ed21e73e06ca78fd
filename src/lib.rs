pub mod codec;
pub mod handler;
pub mod inline;
pub mod laws;
pub mod model;
pub mod scanner;
pub mod sidecar;
pub mod text;

pub use handler::HtmlIO;
