pub mod analysis;
pub mod digest;
pub mod fingerprint;
pub mod live;
pub mod liveness;
pub mod metric;
pub mod model;
pub mod order;
pub mod scan;
pub mod scope;
pub mod syntax;
pub mod text;
