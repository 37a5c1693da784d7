pub mod backend;
pub mod lb;
pub mod routing;

pub use backend::{Backend, BackendKind};
pub use routing::BackendRoute;
