//! The record that is persisted for each fetched page, upserted by URL.
use crate::canon::opt_text;
use vstd::prelude::*;

verus! {

pub struct PageRecord {
    pub url: String,
    pub title: Option<String>,
    pub description: Option<String>,
}

/// How an upsert writes a record, given whether the URL is stored already.
#[derive(PartialEq, Eq, Structural, Clone, Copy, Debug)]
pub enum UpsertKind {
    Insert,
    Update,
}

/// An optional text as stored: the text, or empty where absent.
pub open spec fn stored_text(o: Option<Seq<char>>) -> Seq<char> {
    match o {
        Some(t) => t,
        None => Seq::empty(),
    }
}

fn text_or_empty(o: &Option<String>) -> (r: String)
    ensures
        r@ == stored_text(opt_text(*o)),
{
    match o {
        Some(t) => t.clone(),
        None => String::new(),
    }
}

impl PageRecord {
    pub fn new(url: String, title: Option<String>, description: Option<String>) -> (r: PageRecord)
        ensures
            r.url == url,
            r.title == title,
            r.description == description,
    {
        PageRecord { url, title, description }
    }

    /// The title as stored: empty where the page has none.
    pub fn stored_title(&self) -> (r: String)
        ensures
            r@ == stored_text(opt_text(self.title)),
    {
        text_or_empty(&self.title)
    }

    /// The description as stored: empty where the page has none.
    pub fn stored_description(&self) -> (r: String)
        ensures
            r@ == stored_text(opt_text(self.description)),
    {
        text_or_empty(&self.description)
    }
}

/// An upsert updates the row of a URL that is stored already, and inserts
/// one otherwise, so that each URL has one row.
pub fn upsert_kind(exists: bool) -> (r: UpsertKind)
    ensures
        r == (if exists {
            UpsertKind::Update
        } else {
            UpsertKind::Insert
        }),
{
    if exists {
        UpsertKind::Update
    } else {
        UpsertKind::Insert
    }
}

} // verus!
