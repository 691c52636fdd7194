//! Validation of mail-merge campaigns: configuration, template placeholders
//! and the consistency between the two.

pub mod config;
pub mod email;
pub mod error;
pub mod order;
pub mod table;
pub mod template;
pub mod text;
