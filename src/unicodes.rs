//! Text as a list of user-perceived characters.
use vstd::prelude::*;
use unicode_segmentation::UnicodeSegmentation;

verus! {

/// A text split into its grapheme clusters.
pub type UnicodeString<'a> = Vec<&'a str>;

/// The extended grapheme clusters of `s`, in order.
pub uninterp spec fn extended_graphemes(s: Seq<char>) -> Seq<Seq<char>>;

/// Relies on `UnicodeSegmentation::graphemes(s, true)`: the extended
/// grapheme clusters of `s`, in order. They are consecutive non-empty
/// pieces of `s` from its start to its end.
#[verifier::external_body]
fn graphemes(s: &str) -> (r: Vec<&str>)
    ensures
        r@.map_values(|g: &str| g@) == extended_graphemes(s@),
        r@.map_values(|g: &str| g@).flatten() == s@,
        forall|i: int| 0 <= i < r@.len() ==> (#[trigger] r@[i])@.len() > 0,
        s@.len() == 0 ==> r@.len() == 0,
{
    s.graphemes(true).collect()
}

/// `string` split into its extended grapheme clusters: non-empty pieces
/// that, joined, give `string` back.
pub fn string_to_unicode_string(string: &str) -> (r: UnicodeString)
    ensures
        r@.map_values(|g: &str| g@) == extended_graphemes(string@),
        r@.map_values(|g: &str| g@).flatten() == string@,
        forall|i: int| 0 <= i < r@.len() ==> (#[trigger] r@[i])@.len() > 0,
        string@.len() == 0 ==> r@.len() == 0,
{
    graphemes(string)
}

} // verus!
