//! What the library promises of whole operations: laws over all inputs, each
//! stated of what goes in and what comes out.
pub mod calls;
pub mod command_line;
pub mod drawing;
pub mod files;
pub mod keys;
pub mod places;
pub mod saving;
pub mod sessions;
pub mod settings;
pub mod startup;
pub mod texts;
