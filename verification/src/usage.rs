//! Token accounting: the `usage` object of a response.

use vstd::prelude::*;

use crate::json;
use crate::json::Tree;

verus! {

/// The token counts that a response reports.
#[derive(Clone, Copy, PartialEq, Eq, Debug)]
pub struct Usage {
    pub prompt: Option<u64>,
    pub completion: Option<u64>,
}

/// A member that is a natural number.
pub open spec fn count_in(t: Tree, key: Seq<char>) -> Option<u64> {
    match json::member(t, key) {
        Some(x) => json::whole(x),
        None => None,
    }
}

/// The counts in a response's `usage` member, if it has one that is not null.
pub open spec fn usage_in(t: Tree) -> Option<Usage> {
    match json::member(t, "usage"@) {
        Some(Tree::Null) => None,
        Some(u) => Some(
            Usage {
                prompt: count_in(u, "prompt_tokens"@),
                completion: count_in(u, "completion_tokens"@),
            },
        ),
        None => None,
    }
}

/// The counts in the response that `text` spells, if it is JSON.
pub open spec fn usage_reported(text: Seq<u8>) -> Option<Usage> {
    match json::document(text) {
        Some(t) => usage_in(t),
        None => None,
    }
}

fn count(v: &serde_json::Value, key: &str) -> (r: Option<u64>)
    ensures
        r == count_in(json::contents(*v), key@),
{
    match json::get(v, key) {
        Some(x) => json::as_u64(x),
        None => None,
    }
}

/// The counts in a response.
pub fn usage_of(v: &serde_json::Value) -> (r: Option<Usage>)
    ensures
        r == usage_in(json::contents(*v)),
{
    match json::get(v, "usage") {
        Some(u) => {
            if json::is_null(u) {
                None
            } else {
                Some(
                    Usage {
                        prompt: count(u, "prompt_tokens"),
                        completion: count(u, "completion_tokens"),
                    },
                )
            }
        },
        None => None,
    }
}

/// Read the counts out of a response.
pub fn read_usage(text: &[u8]) -> (r: Option<Usage>)
    ensures
        r == usage_reported(text@),
{
    match json::parse(text) {
        Some(v) => usage_of(&v),
        None => None,
    }
}

} // verus!
