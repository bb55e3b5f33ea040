//! The decision logic of the BAML language server: which position encoding
//! to negotiate, which capabilities to advertise and register, which
//! workspace to open, how notification handlers react to a session reload,
//! and the walk that gathers the `.baml` files below a root directory.

pub mod text;
pub mod gather;
pub mod gather_laws;
pub mod capabilities;
pub mod server;
pub mod handlers;
pub mod settings;
