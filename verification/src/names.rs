//! The names of the files in which the library, the playlists and the
//! artwork are kept, and numbers written out in decimal.

use vstd::prelude::*;
use vstd::string::StringExecFns;

verus! {

/// The file of the data directory that holds the library.
pub const LIBRARY_FILE: &'static str = "library.json";

/// The directory of the data directory that holds the user playlists.
pub const PLAYLIST_DIR: &'static str = "playlists";

/// The directory of the cache directory that holds the artwork.
pub const ARTWORK_DIR: &'static str = "artwork";

/// The character of a decimal digit.
pub open spec fn digit_char(d: int) -> char {
    if d == 0 {
        '0'
    } else if d == 1 {
        '1'
    } else if d == 2 {
        '2'
    } else if d == 3 {
        '3'
    } else if d == 4 {
        '4'
    } else if d == 5 {
        '5'
    } else if d == 6 {
        '6'
    } else if d == 7 {
        '7'
    } else if d == 8 {
        '8'
    } else {
        '9'
    }
}

/// A number written in decimal, without leading zeros.
pub open spec fn decimal(n: nat) -> Seq<char>
    decreases n,
{
    if n < 10 {
        seq![digit_char(n as int)]
    } else {
        decimal(n / 10).push(digit_char((n % 10) as int))
    }
}

/// The name of the file of the playlist with the id `id`, below the data
/// directory: `playlists/`, the id in decimal, `.json`.
pub open spec fn playlist_file_name(id: u32) -> Seq<char> {
    PLAYLIST_DIR@ + seq!['/'] + decimal(id as nat) + seq!['.', 'j', 's', 'o', 'n']
}

/// The name of the artwork file `filename`, below the cache directory.
pub open spec fn artwork_file_name(filename: Seq<char>) -> Seq<char> {
    ARTWORK_DIR@ + seq!['/'] + filename
}

/// The decimal digit `d` as a text of one character.
fn digit_text(d: u64) -> (r: &'static str)
    requires
        d < 10,
    ensures
        r@ == seq![digit_char(d as int)],
{
    proof {
        reveal_strlit("0");
        reveal_strlit("1");
        reveal_strlit("2");
        reveal_strlit("3");
        reveal_strlit("4");
        reveal_strlit("5");
        reveal_strlit("6");
        reveal_strlit("7");
        reveal_strlit("8");
        reveal_strlit("9");
    }
    let r = match d {
        0 => "0",
        1 => "1",
        2 => "2",
        3 => "3",
        4 => "4",
        5 => "5",
        6 => "6",
        7 => "7",
        8 => "8",
        _ => "9",
    };
    assert(r@ =~= seq![digit_char(d as int)]);
    r
}

/// Writes `n` in decimal at the end of `out`.
pub fn push_decimal(out: &mut String, n: u64)
    ensures
        final(out)@ == old(out)@ + decimal(n as nat),
    decreases n,
{
    if n >= 10 {
        push_decimal(out, n / 10);
    }
    let ghost before = out@;
    out.append(digit_text(n % 10));
    proof {
        if n >= 10 {
            assert(before + seq![digit_char((n % 10) as int)] =~= old(out)@ + decimal(
                (n / 10) as nat,
            ).push(digit_char((n % 10) as int)));
        }
    }
}

/// The name of the file of the playlist with the id `id`, below the data
/// directory.
pub fn playlist_file(id: u32) -> (r: String)
    ensures
        r@ == playlist_file_name(id),
{
    proof {
        reveal_strlit("/");
        reveal_strlit(".json");
        assert("/"@ =~= seq!['/']);
        assert(".json"@ =~= seq!['.', 'j', 's', 'o', 'n']);
    }
    let mut name = PLAYLIST_DIR.to_owned();
    name.append("/");
    push_decimal(&mut name, id as u64);
    name.append(".json");
    name
}

/// The name of the artwork file `filename`, below the cache directory.
pub fn artwork_file(filename: &str) -> (r: String)
    ensures
        r@ == artwork_file_name(filename@),
{
    proof {
        reveal_strlit("/");
        assert("/"@ =~= seq!['/']);
    }
    let mut name = ARTWORK_DIR.to_owned();
    name.append("/");
    name.append(filename);
    name
}

} // verus!
