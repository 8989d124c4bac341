//! Comparison of version strings by the UAPI version format rules.
//!
//! [`strverscmp`] orders two arbitrary strings; [`Version`] wraps a string and
//! orders by the same rule.
pub mod compare;
pub mod key;
pub mod version;

pub use compare::{compare_special_char, is_valid_version_char, strverscmp};
pub use version::{sort_versions, Version};
