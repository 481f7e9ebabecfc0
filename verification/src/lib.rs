//! Network configuration for cloud instances with several interfaces: the
//! addresses, links, routes and routing policy rules that the kernel
//! reports, read into plain values, and the requests that the
//! configuration makes of it, decided from them.
//!
//! - `text`: splitting, searching, decimal and hexadecimal digits, and the
//!   decimal syntax of prefix lengths.
//! - `ip`: IPv4 addresses in dotted-quad syntax.
//! - `outcome`: request errors, and how an answer to an add is judged.
//! - `address`: `address/prefix` texts and address listings.
//! - `link`: link records and the table of links keyed by hardware address.
//! - `route`: gateways in a route dump, and the default routes asked for.
//! - `rule`: routing policy rules, their existence, and the course of an add.
//! - `provider`: the cloud environment.
pub mod text;
pub mod ip;
pub mod outcome;
pub mod address;
pub mod link;
pub mod route;
pub mod rule;
pub mod provider;
