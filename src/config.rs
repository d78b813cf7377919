//! The site's settings, as the page template uses them.

use vstd::prelude::*;

verus! {

/// The settings of a site.
#[derive(Debug, Clone)]
pub struct Config {
    pub site_name: String,
    pub language: String,
    pub root: String,
    pub author: String,
    pub year: String,
}

} // verus!
