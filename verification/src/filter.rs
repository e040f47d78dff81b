//! Which entries of a directory tree are taken: hidden ones are passed
//! over, directories are entered, and files count when their name ends
//! like that of an image.

use vstd::prelude::*;
use vstd::string::StrSliceExecFns;

verus! {

/// The pattern that the name of an image file matches.
pub const IMAGE_PATTERN: &'static str = r"\.(?:jpg|jpeg|png)$";

/// Whether `regex::Regex::new` compiles `pattern`.
pub uninterp spec fn regex_accepts(pattern: Seq<char>) -> bool;

/// The byte offsets of the match that `regex::Regex::find` reports in
/// `haystack` for the regular expression compiled from `pattern`.
pub uninterp spec fn regex_find(pattern: Seq<char>, haystack: Seq<char>) -> Option<(usize, usize)>;

/// Compiles `pattern` with `regex::Regex::new` and searches `haystack`
/// with `regex::Regex::find`. The result is `None` where the pattern is
/// turned down, and else the start and end of the match found, if any.
/// Both calls depend on their arguments alone; what they return is named,
/// not stated.
#[verifier::external_body]
fn find_pattern(pattern: &str, haystack: &str) -> (found: Option<Option<(usize, usize)>>)
    ensures
        (found is Some) == regex_accepts(pattern@),
        found matches Some(span) ==> span == regex_find(pattern@, haystack@),
{
    match regex::Regex::new(pattern) {
        Ok(re) => Some(re.find(haystack).map(|m| (m.start(), m.end()))),
        Err(_) => None,
    }
}

/// Whether a name begins with a dot.
pub open spec fn begins_with_dot(name: Seq<char>) -> bool {
    name.len() > 0 && name[0] == '.'
}

/// Whether the image pattern is found in a name.
pub open spec fn matches_image_pattern(name: Seq<char>) -> bool {
    regex_accepts(IMAGE_PATTERN@) && regex_find(IMAGE_PATTERN@, name) is Some
}

/// Whether an entry with these properties is taken: it is not hidden, and
/// it is a directory or an image file.
pub open spec fn is_taken(hidden: bool, directory: bool, image: bool) -> bool {
    !hidden && (directory || image)
}

/// Tells whether an entry is hidden: its name is readable and begins
/// with a dot.
pub fn is_hidden(file_name: Option<&str>) -> (hidden: bool)
    ensures
        hidden == (file_name matches Some(name) && begins_with_dot(name@)),
{
    match file_name {
        Some(name) => !name.is_empty() && name.get_char(0) == '.',
        None => false,
    }
}

/// Tells what a search for a pattern came to: whether the pattern
/// compiled and a match was found.
pub fn pattern_found(outcome: Option<Option<(usize, usize)>>) -> (found: bool)
    ensures
        found == (outcome matches Some(span) && span is Some),
{
    match outcome {
        Some(Some(_)) => true,
        _ => false,
    }
}

/// Tells whether an entry has the name of an image file: the name is
/// readable and the image pattern is found in it.
pub fn is_image_file(file_name: Option<&str>) -> (image: bool)
    ensures
        image == (file_name matches Some(name) && matches_image_pattern(name@)),
{
    match file_name {
        Some(name) => pattern_found(find_pattern(IMAGE_PATTERN, name)),
        None => false,
    }
}

/// Tells whether an entry with these properties is taken.
pub fn takes(hidden: bool, directory: bool, image: bool) -> (taken: bool)
    ensures
        taken == is_taken(hidden, directory, image),
{
    !hidden && (directory || image)
}

/// Tells whether the walk takes an entry: a directory that is taken is
/// entered, a file that is taken is a candidate.
pub fn admits(file_name: Option<&str>, directory: bool) -> (taken: bool)
    ensures
        taken == is_taken(
            file_name matches Some(name) && begins_with_dot(name@),
            directory,
            file_name matches Some(name) && matches_image_pattern(name@),
        ),
{
    takes(is_hidden(file_name), directory, is_image_file(file_name))
}

} // verus!
