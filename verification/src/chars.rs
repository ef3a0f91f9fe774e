//! Characters and strings: the classification and the lower-casing that the
//! tokenizer goes by, and what is taken on trust of the standard library's
//! `char`, `str` and `String`.

use vstd::prelude::*;

verus! {

/// Whether a character carries Unicode's `Alphabetic` property.
pub uninterp spec fn alphabetic(c: char) -> bool;

/// The lower-case form of a word, as Unicode defines it: every character in
/// its lower-case form, whatever the script, and independent of any locale.
pub uninterp spec fn lowercase(word: Seq<char>) -> Seq<char>;

/// `char::is_alphabetic` reports Unicode's `Alphabetic` property of the
/// character; the property itself is not modelled, only named.
pub assume_specification[ char::is_alphabetic ](c: char) -> (b: bool)
    ensures
        b == alphabetic(c),
;

/// `str::to_lowercase` returns the lower-case form of the string, by
/// Unicode's `Lowercase` property and without regard to a locale; the tables
/// are not modelled, only named.
pub assume_specification[ str::to_lowercase ](s: &str) -> (lower: String)
    ensures
        lower@ == lowercase(s@),
;

/// `String::push` appends one character at the end of the string.
pub assume_specification[ String::push ](s: &mut String, ch: char)
    ensures
        final(s)@ == old(s)@.push(ch),
;

/// `str`'s `==` holds exactly when the two strings hold the same characters.
pub assume_specification[ <str as PartialEq>::eq ](a: &str, b: &str) -> (same: bool)
    ensures
        same == (a@ == b@),
;

} // verus!
