//! Reddit: where a subreddit's top posts are read, and their shape.

use vstd::prelude::*;
use crate::number::{decimal, push_decimal};

verus! {

/// The data of one post.
pub struct PostData {
    pub title: Option<String>,
    pub score: u32,
    pub url: Option<String>,
}

/// One post of a listing.
pub struct RedditPost {
    pub data: PostData,
}

/// The posts of a listing.
pub struct RedditData {
    pub children: Vec<RedditPost>,
}

/// A listing of posts.
pub struct RedditResponse {
    pub data: RedditData,
}

/// Where the top `limit` posts of `subreddit` are read.
pub fn subreddit_url(subreddit: &str, limit: usize) -> (s: String)
    ensures
        s@ == "https://www.reddit.com/r/"@ + subreddit@ + "/top.json?limit="@ + decimal(
            limit as nat,
        ),
{
    let mut s = "https://www.reddit.com/r/".to_owned();
    s.append(subreddit);
    s.append("/top.json?limit=");
    push_decimal(&mut s, limit as u64);
    s
}

} // verus!
