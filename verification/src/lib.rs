//! An incremental HTTP/1.1 request parser.

pub mod headers;
pub mod laws;
pub mod model;
pub mod request;
pub mod scan;

pub use headers::Headers;
pub use model::Error;
pub use model::Method;
pub use request::HttpRequest;
pub use request::HttpStream;
pub use request::Step;
