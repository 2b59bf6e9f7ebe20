//! What holds of the whole: the promises that span functions, as theorems.
pub mod addresses;
pub mod endpoints;
pub mod exchanging;
pub mod filling;
pub mod guests;
pub mod merging;
pub mod messages;
pub mod polling;
pub mod rendering;
pub mod replies;
pub mod rounds;
pub mod routers;
pub mod settings;
pub mod shorthand;
pub mod spelling;
pub mod tables;
pub mod texts;
