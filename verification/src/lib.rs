pub mod header;
pub mod http;
pub mod request;
pub mod response;
pub mod text;

pub use header::Headers;
pub use http::{Methods, Route, Router};
pub use request::{Request, RequestReader};
pub use response::Response;
