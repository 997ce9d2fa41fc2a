//! A static-site build core: the cache of link previews that a build
//! keeps between runs, and the functions its templates call.
pub mod data;
pub mod functions;
