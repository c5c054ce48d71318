//! Dialog clicker core: a registry of named click bindings, the rules that
//! keep it consistent while bindings are added, renamed and removed, the
//! dispatch from keybind identifiers to bindings, the coordinate transform
//! that turns a binding into an ordered batch of input events, and the
//! persisted configuration format.

pub mod codec;
pub mod config;
pub mod dispatch;
pub mod registry;
pub mod simulate;
pub mod text;

pub use config::Binding;
pub use config::ClickType;
pub use config::Config;
pub use config::CustomBinding;
