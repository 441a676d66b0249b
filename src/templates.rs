use vstd::prelude::*;

use crate::models::PresidentIndexItem;

verus! {

/// What the voting page shows of a candidate.
pub struct VoteTemplate<'a> {
    pub name: &'a str,
    pub short_name: &'a str,
    pub image_url: &'a str,
    pub office: &'a str,
    pub years_in_office: &'a str,
    pub quote: &'a str,
}

/// What the statistics page shows of a candidate.
pub struct StatsTemplate<'a> {
    pub name: &'a str,
    pub image_url: &'a str,
    pub quote: &'a str,
    pub office: &'a str,
    pub years_in_office: &'a str,
    pub hot: &'a usize,
    pub not: &'a usize,
}

/// What the index page shows: one row per candidate.
pub struct IndexTemplate {
    pub presidents: Vec<PresidentIndexItem>,
}

} // verus!
