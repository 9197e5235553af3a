//! Table of dictionary files, one per word length.
//!
//! The files themselves are read by the surrounding program; the library only
//! owns the mapping from a word length to the path of the word list of that
//! length.

use vstd::prelude::*;

verus! {

/// Path of the dictionary file whose words have length `word_size`, or
/// `None` when no dictionary of that length exists (lengths 4 to 15 are
/// covered).
pub fn get_dict_path(word_size: u32) -> (r: Option<String>)
    ensures
        r is Some <==> 4 <= word_size <= 15,
        word_size == 4 ==> r->Some_0@ == "./data/ve-4.txt"@,
        word_size == 5 ==> r->Some_0@ == "./data/ve-5.txt"@,
        word_size == 6 ==> r->Some_0@ == "./data/e-6.txt"@,
        word_size == 7 ==> r->Some_0@ == "./data/e-7.txt"@,
        word_size == 8 ==> r->Some_0@ == "./data/e-8.txt"@,
        word_size == 9 ==> r->Some_0@ == "./data/a-9.txt"@,
        word_size == 10 ==> r->Some_0@ == "./data/a-10.txt"@,
        word_size == 11 ==> r->Some_0@ == "./data/h-11.txt"@,
        word_size == 12 ==> r->Some_0@ == "./data/h-12.txt"@,
        word_size == 13 ==> r->Some_0@ == "./data/vh-13.txt"@,
        word_size == 14 ==> r->Some_0@ == "./data/vh-14.txt"@,
        word_size == 15 ==> r->Some_0@ == "./data/vh-15.txt"@,
{
    match word_size {
        4 => Some("./data/ve-4.txt".to_owned()),
        5 => Some("./data/ve-5.txt".to_owned()),
        6 => Some("./data/e-6.txt".to_owned()),
        7 => Some("./data/e-7.txt".to_owned()),
        8 => Some("./data/e-8.txt".to_owned()),
        9 => Some("./data/a-9.txt".to_owned()),
        10 => Some("./data/a-10.txt".to_owned()),
        11 => Some("./data/h-11.txt".to_owned()),
        12 => Some("./data/h-12.txt".to_owned()),
        13 => Some("./data/vh-13.txt".to_owned()),
        14 => Some("./data/vh-14.txt".to_owned()),
        15 => Some("./data/vh-15.txt".to_owned()),
        _ => None,
    }
}

} // verus!
