use vstd::prelude::*;

use crate::slug::{slug_of, slug_spec};

verus! {

/// A candidate: descriptive fields taken from the data source, and two vote counters.
#[derive(Clone, Debug)]
pub struct President {
    pub name: String,
    pub office: String,
    pub party: String,
    pub quote: Option<String>,
    pub years_in_office: Option<String>,
    pub term_year: u16,
    pub term_length: u16,
    pub images: Vec<PresidentImage>,
    pub hot: usize,
    pub not: usize,
}

/// One row of the index page.
pub struct PresidentIndexItem {
    pub name: String,
    pub short_name: String,
    pub score: isize,
    pub image_url: String,
}

/// An image attached to a candidate.
#[derive(Clone, Debug)]
pub struct PresidentImage {
    pub url: String,
    pub filename: String,
    pub size: usize,
    pub content_type: String,
    pub thumbnails: Thumbnails,
}

/// The three thumbnails of an image.
#[derive(Clone, Debug)]
pub struct Thumbnails {
    pub small: ImageThumbnail,
    pub large: ImageThumbnail,
    pub full: ImageThumbnail,
}

/// One thumbnail of an image.
#[derive(Clone, Debug)]
pub struct ImageThumbnail {
    pub url: String,
    pub width: u16,
    pub height: u16,
}

/// `p` with its counters set to `hot` and `not`, every descriptive field kept.
pub open spec fn with_tally(p: President, hot: usize, not: usize) -> President {
    President { hot: hot, not: not, ..p }
}

/// Whether `p` carries no descriptive data: a placeholder that only holds counters.
pub open spec fn is_blank(p: President) -> bool {
    &&& p.name@.len() == 0
    &&& p.office@.len() == 0
    &&& p.party@.len() == 0
    &&& p.quote is None
    &&& p.years_in_office is None
    &&& p.term_year == 0
    &&& p.term_length == 0
    &&& p.images@.len() == 0
}

/// Whether the score of `p` fits in an `isize`.
pub open spec fn tally_fits(p: President) -> bool {
    p.hot <= isize::MAX && p.not <= isize::MAX
}

/// The URL of the large thumbnail of the first image, or the empty string.
pub open spec fn image_url_spec(p: President) -> Seq<char> {
    if p.images.len() > 0 {
        p.images@[0].thumbnails.large.url@
    } else {
        Seq::<char>::empty()
    }
}

/// The text of an optional field, or the empty string.
pub open spec fn text_or_empty(o: Option<String>) -> Seq<char> {
    match o {
        Some(s) => s@,
        None => Seq::<char>::empty(),
    }
}

impl Default for President {
    fn default() -> (r: President)
        ensures
            is_blank(r),
            r.hot == 0,
            r.not == 0,
    {
        President {
            name: String::new(),
            office: String::new(),
            party: String::new(),
            quote: None,
            years_in_office: None,
            term_year: 0,
            term_length: 0,
            images: Vec::new(),
            hot: 0,
            not: 0,
        }
    }
}

impl President {
    /// Counts one "hot" vote.
    pub fn hot_vote(&mut self)
        requires
            old(self).hot < usize::MAX,
        ensures
            *final(self) == with_tally(*old(self), (old(self).hot + 1) as usize, old(self).not),
    {
        self.hot = self.hot + 1;
    }

    /// Counts one "not" vote.
    pub fn not_vote(&mut self)
        requires
            old(self).not < usize::MAX,
        ensures
            *final(self) == with_tally(*old(self), old(self).hot, (old(self).not + 1) as usize),
    {
        self.not = self.not + 1;
    }

    /// The number of "hot" votes less the number of "not" votes.
    pub fn score(&self) -> (r: isize)
        requires
            tally_fits(*self),
        ensures
            r == self.hot - self.not,
    {
        (self.hot as isize) - (self.not as isize)
    }

    /// The slug of this candidate's name.
    pub fn short_name(&self) -> (r: String)
        ensures
            r@ == slug_spec(self.name@),
    {
        slug_of(self.name.as_str())
    }

    /// The URL of the large thumbnail of the first image, or the empty string.
    pub fn image_url(&self) -> (r: String)
        ensures
            r@ == image_url_spec(*self),
    {
        if self.images.len() > 0 {
            self.images[0].thumbnails.large.url.clone()
        } else {
            String::new()
        }
    }

    /// The row of the index page that shows this candidate.
    pub fn template_item(&self) -> (r: PresidentIndexItem)
        requires
            tally_fits(*self),
        ensures
            r.name@ == self.name@,
            r.short_name@ == slug_spec(self.name@),
            r.score == self.hot - self.not,
            r.image_url@ == image_url_spec(*self),
    {
        PresidentIndexItem {
            name: self.name.clone(),
            short_name: self.short_name(),
            score: self.score(),
            image_url: self.image_url(),
        }
    }
}

/// The text of an optional field, or the empty string.
pub fn text_or_empty_of(o: &Option<String>) -> (r: String)
    ensures
        r@ == text_or_empty(*o),
{
    match o {
        Some(s) => s.clone(),
        None => String::new(),
    }
}

} // verus!
