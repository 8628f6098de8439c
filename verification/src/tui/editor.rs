//! Parsing of what the card maker types in.

use vstd::prelude::*;

use crate::text::{
    join_with, lemma_split_trimmed, lemma_split_trimmed_join, split_trimmed, split_trimmed_of,
    str_chars, trim,
};

verus! {

/// Splits `|`-separated tags, trims each, and drops the empty ones.
/// Every tag returned is non-empty, has no whitespace at either end and holds no `|`.
pub fn parse_tags(input: &str) -> (tags: Vec<String>)
    ensures
        tags.deep_view() == split_trimmed(input@, '|'),
        forall|i: int|
            0 <= i < tags@.len() ==> {
                let t = #[trigger] tags.deep_view()[i];
                &&& t.len() > 0
                &&& trim(t) == t
                &&& !t.contains('|')
            },
{
    let chars = str_chars(input);
    let tags = split_trimmed_of(chars.as_slice(), '|');
    proof {
        lemma_split_trimmed(input@, '|');
    }
    tags
}


/// Parsing tags is idempotent: joining the parsed tags with `|` and parsing
/// again gives the same tags.
pub proof fn law_parse_tags_idempotent(input: Seq<char>)
    ensures
        split_trimmed(join_with(split_trimmed(input, '|'), '|'), '|') == split_trimmed(input, '|'),
{
    lemma_split_trimmed(input, '|');
    lemma_split_trimmed_join(split_trimmed(input, '|'), '|');
}

} // verus!
