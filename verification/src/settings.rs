//! Site-wide settings the caller supplies: the pages directory and the
//! values the outer page layout displays.  The core reads none of them but
//! the pages path; they travel together for the caller's convenience.
use vstd::prelude::*;

verus! {

/// The configuration of one site.
#[derive(Debug)]
pub struct Settings {
    pub pages_path: String,
    pub author: String,
    pub author_url: String,
    pub copyright_start_year: u16,
    pub name: String,
    pub domain: String,
    pub tagline: String,
    pub sentry_dsn: Option<String>,
}

} // verus!
