//! The names of band files.

use vstd::prelude::*;
use vstd::string::*;

verus! {

/// The pattern that band files are looked up by: `?` stands for any one
/// character.
pub const BAND_FILE_PATTERN: &'static str = "hyperdrive_band??.bin";

/// A band file is named `hyperdrive_band`, then any two characters, then
/// `.bin`.
pub open spec fn is_band_file_name(name: Seq<char>) -> bool {
    &&& name.len() == 21
    &&& name.subrange(0, 15) == "hyperdrive_band"@
    &&& name.subrange(17, 21) == ".bin"@
}

/// Whether `name[at..]` starts with `part`.
fn holds_at(name: &str, at: usize, part: &str) -> (r: bool)
    requires
        at + part@.len() <= name@.len() <= usize::MAX,
    ensures
        r == (name@.subrange(at as int, at + part@.len()) == part@),
{
    let n: usize = part.unicode_len();
    let mut i: usize = 0;
    while i < n
        invariant
            i <= n,
            n == part@.len(),
            at + n <= name@.len() <= usize::MAX,
            forall|j: int| 0 <= j < i ==> name@[at + j] == part@[j],
        decreases n - i,
    {
        if name.get_char(at + i) != part.get_char(i) {
            return false;
        }
        i = i + 1;
    }
    assert(name@.subrange(at as int, at + n) =~= part@);
    true
}

/// Whether `name` is the name of a band file.
pub fn is_band_file(name: &str) -> (r: bool)
    ensures
        r == is_band_file_name(name@),
{
    proof {
        reveal_strlit("hyperdrive_band");
        reveal_strlit(".bin");
    }
    name.unicode_len() == 21 && holds_at(name, 0, "hyperdrive_band") && holds_at(name, 17, ".bin")
}

/// Whether `name` is one of the names in `listing`.
pub fn is_listed(listing: &Vec<String>, name: &String) -> (r: bool)
    ensures
        r == listing.deep_view().contains(name@),
{
    let mut j: usize = 0;
    while j < listing.len()
        invariant
            j <= listing.len(),
            forall|k: int| 0 <= k < j ==> listing.deep_view()[k] != name@,
        decreases listing.len() - j,
    {
        if listing[j] == *name {
            assert(listing.deep_view()[j as int] == name@);
            return true;
        }
        j = j + 1;
    }
    false
}

} // verus!
