use vstd::prelude::*;

use crate::html::{self, date_key};
use crate::posts::PostDate;

verus! {

/// One entry of the syndication feed.
pub struct FeedEntry {
    pub id: String,
    pub link: String,
    pub content: String,
    pub content_type: String,
    pub src: String,
    pub updated: PostDate,
    pub published: PostDate,
}

/// The entry for a post: its URL is its id, its link and the source of its
/// content, which is its HTML body; it was updated and published on its date.
pub open spec fn entry_of(e: FeedEntry, p: html::PostView) -> bool {
    &&& e.id@ == p.url
    &&& e.link@ == p.url
    &&& e.content@ == p.body
    &&& e.content_type@ == "html"@
    &&& e.src@ == p.url
    &&& e.updated == p.date
    &&& e.published == p.date
}

pub fn make_entry(post: &html::Post) -> (r: FeedEntry)
    ensures
        entry_of(r, post@),
{
    FeedEntry {
        id: post.url.clone(),
        link: post.url.clone(),
        content: post.body.clone(),
        content_type: String::from_str("html"),
        src: post.url.clone(),
        updated: post.date,
        published: post.date,
    }
}

/// The entries for the posts, in the same order.
pub fn make_entries(posts: &Vec<html::Post>) -> (r: Vec<FeedEntry>)
    ensures
        r@.len() == posts@.len(),
        forall|i: int| 0 <= i < posts@.len() ==> entry_of(#[trigger] r@[i], posts@[i]@),
{
    let mut out: Vec<FeedEntry> = Vec::new();
    let mut i: usize = 0;
    while i < posts.len()
        invariant
            i <= posts@.len(),
            out@.len() == i,
            forall|k: int| 0 <= k < i ==> entry_of(#[trigger] out@[k], posts@[k]@),
        decreases posts@.len() - i,
    {
        out.push(make_entry(&posts[i]));
        i = i + 1;
    }
    out
}

/// When the feed was last updated: the latest update of its posts, if it has
/// any.
pub fn feed_updated(posts: &Vec<html::Post>) -> (r: Option<PostDate>)
    ensures
        r is None <==> posts@.len() == 0,
        r matches Some(d) ==> (exists|i: int| 0 <= i < posts@.len() && #[trigger] posts@[i].date == d)
            && forall|i: int| 0 <= i < posts@.len() ==> date_key(#[trigger] posts@[i].date) <= date_key(d),
{
    if posts.len() == 0 {
        return None;
    }
    let mut best = *posts[0].updated();
    let mut best_key = html::date_key_of(&best);
    let mut i: usize = 1;
    while i < posts.len()
        invariant
            1 <= i <= posts@.len(),
            best_key == date_key(best),
            exists|k: int| 0 <= k < i && #[trigger] posts@[k].date == best,
            forall|k: int| 0 <= k < i ==> date_key(#[trigger] posts@[k].date) <= date_key(best),
        decreases posts@.len() - i,
    {
        let key = html::date_key_of(posts[i].updated());
        if key > best_key {
            best = *posts[i].updated();
            best_key = key;
            assert(posts@[i as int].date == best);
        }
        i = i + 1;
    }
    Some(best)
}

} // verus!
