//! Grouping of IPv4 addresses into covering subnets.
//!
//! A [`Subnet`] is a canonical (base address, mask length) pair. An
//! [`AddressTree`] takes single addresses one at a time and restructures
//! itself so that addresses sharing a common prefix end up below a common
//! intermediate node; the aggregated view maps each discovered subnet to
//! the addresses it covers.

pub mod bits;
pub mod config;
pub mod errors;
pub mod parse;
pub mod subnet;
pub mod text;
pub mod tree;

pub use config::{Config, IPINFO_TOKEN_FILE};
pub use errors::{NumErrorKind, ParseError, ParseIssue};
pub use subnet::Subnet;
pub use tree::{AddressTree, TreeView};
