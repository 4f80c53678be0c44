//! Hacker News: where its stories are read and which of them are shown.

use vstd::prelude::*;
use crate::number::{decimal, push_decimal};

verus! {

/// Where the ids of the top stories are listed.
pub const HN_TOP_STORIES_URL: &'static str = "https://hacker-news.firebaseio.com/v0/topstories.json";

/// A Hacker News story, as far as it is shown.
pub struct HNStory {
    pub title: Option<String>,
    pub url: Option<String>,
    pub score: Option<u32>,
}

/// Where the story with id `id` is read.
pub fn story_url(id: u64) -> (s: String)
    ensures
        s@ == "https://hacker-news.firebaseio.com/v0/item/"@ + decimal(id as nat) + ".json"@,
{
    let mut s = "https://hacker-news.firebaseio.com/v0/item/".to_owned();
    push_decimal(&mut s, id);
    s.append(".json");
    s
}

/// The ids of the stories to show: the first `limit` of `ids`, or all of them
/// when there are fewer.
pub fn top_ids(ids: &Vec<u64>, limit: usize) -> (r: Vec<u64>)
    ensures
        r@ == ids@.take(if limit < ids@.len() { limit as int } else { ids@.len() as int }),
{
    let n = if limit < ids.len() { limit } else { ids.len() };
    let mut r: Vec<u64> = Vec::new();
    let mut i: usize = 0;
    while i < n
        invariant
            i <= n <= ids@.len(),
            r@ == ids@.take(i as int),
        decreases n - i,
    {
        r.push(ids[i]);
        assert(r@ =~= ids@.take(i + 1));
        i = i + 1;
    }
    r
}

} // verus!
