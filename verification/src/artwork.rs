//! Content-addressed names for tracks and for cached artwork.
//!
//! A track's id is the SHA-256 digest of its path, in lower-case hex. An
//! artwork file is named by the digest of its bytes, a dot, and the subtype of
//! its media type, so the same picture is stored once however many tracks
//! carry it.

use sha2::Digest;
use vstd::hash_map::StringHashMap;
use vstd::prelude::*;
use vstd::string::{StrSliceExecFns, StringExecFns};
use vstd::utf8::encode_utf8;

verus! {

/// The SHA-256 digest of a byte string.
pub uninterp spec fn sha256(data: Seq<u8>) -> Seq<u8>;

/// Computes the SHA-256 digest of `data` with the `sha2` crate
/// (`Sha256::digest`). The contract names the digest and adds that it is 32
/// bytes long, the output size of the hash.
#[verifier::external_body]
fn sha256_digest(data: &[u8]) -> (digest: Vec<u8>)
    ensures
        digest@ == sha256(data@),
        digest@.len() == 32,
{
    sha2::Sha256::digest(data).to_vec()
}

/// The lower-case hex digit for a value below 16.
pub open spec fn hex_digit(n: int) -> char {
    if n == 0 {
        '0'
    } else if n == 1 {
        '1'
    } else if n == 2 {
        '2'
    } else if n == 3 {
        '3'
    } else if n == 4 {
        '4'
    } else if n == 5 {
        '5'
    } else if n == 6 {
        '6'
    } else if n == 7 {
        '7'
    } else if n == 8 {
        '8'
    } else if n == 9 {
        '9'
    } else if n == 10 {
        'a'
    } else if n == 11 {
        'b'
    } else if n == 12 {
        'c'
    } else if n == 13 {
        'd'
    } else if n == 14 {
        'e'
    } else {
        'f'
    }
}

/// A byte string in lower-case hex: two digits for each byte, the high half
/// first.
pub open spec fn hex_text(bytes: Seq<u8>) -> Seq<char> {
    Seq::new(
        2 * bytes.len(),
        |i: int|
            if i % 2 == 0 {
                hex_digit(bytes[i / 2] as int / 16)
            } else {
                hex_digit(bytes[i / 2] as int % 16)
            },
    )
}

/// The hex digit for `n` as a text of one character.
fn hex_digit_text(n: u8) -> (r: &'static str)
    requires
        n < 16,
    ensures
        r@ == seq![hex_digit(n as int)],
{
    proof {
        reveal_strlit("0");
        reveal_strlit("1");
        reveal_strlit("2");
        reveal_strlit("3");
        reveal_strlit("4");
        reveal_strlit("5");
        reveal_strlit("6");
        reveal_strlit("7");
        reveal_strlit("8");
        reveal_strlit("9");
        reveal_strlit("a");
        reveal_strlit("b");
        reveal_strlit("c");
        reveal_strlit("d");
        reveal_strlit("e");
        reveal_strlit("f");
    }
    let r = match n {
        0 => "0",
        1 => "1",
        2 => "2",
        3 => "3",
        4 => "4",
        5 => "5",
        6 => "6",
        7 => "7",
        8 => "8",
        9 => "9",
        10 => "a",
        11 => "b",
        12 => "c",
        13 => "d",
        14 => "e",
        _ => "f",
    };
    assert(r@ =~= seq![hex_digit(n as int)]);
    r
}

/// Writes `bytes` in lower-case hex.
pub fn to_hex(bytes: &[u8]) -> (r: String)
    ensures
        r@ == hex_text(bytes@),
{
    let mut out = String::new();
    let mut i: usize = 0;
    assert(out@ =~= hex_text(bytes@.take(0)));
    while i < bytes.len()
        invariant
            i <= bytes.len(),
            out@ == hex_text(bytes@.take(i as int)),
        decreases bytes.len() - i,
    {
        let b: u8 = bytes[i];
        let ghost before = out@;
        out.append(hex_digit_text(b / 16));
        out.append(hex_digit_text(b % 16));
        assert(out@ =~= hex_text(bytes@.take(i + 1))) by {
            let next = hex_text(bytes@.take(i + 1));
            assert(out@ == before + seq![hex_digit(b as int / 16)] + seq![hex_digit(b as int % 16)]);
            assert forall|k: int| 0 <= k < next.len() implies out@[k] == next[k] by {
                if k < 2 * i {
                    assert(bytes@.take(i + 1)[k / 2] == bytes@.take(i as int)[k / 2]);
                    assert(before[k] == next[k]);
                } else {
                    assert(k / 2 == i);
                    assert(bytes@.take(i + 1)[k / 2] == b);
                }
            }
        }
        i += 1;
    }
    assert(bytes@.take(i as int) =~= bytes@);
    out
}

/// The id of the track at `path`: the digest of the path's UTF-8 bytes, in
/// hex.
pub open spec fn track_id_of(path: Seq<char>) -> Seq<char> {
    hex_text(sha256(encode_utf8(path)))
}

/// The id of the track at `path`. It depends on the path alone, not on the
/// file's bytes, and is 64 characters long.
pub fn track_id(path: &str) -> (r: String)
    ensures
        r@ == track_id_of(path@),
        r@.len() == 64,
{
    let digest = sha256_digest(path.as_bytes());
    to_hex(digest.as_slice())
}

/// Whether `c` may stand in the subtype of a media type that becomes part of
/// a file name: an ASCII letter or digit, or one of `+ - . _`.
pub open spec fn is_subtype_char(c: char) -> bool {
    ('a' <= c && c <= 'z') || ('A' <= c && c <= 'Z') || ('0' <= c && c <= '9') || c == '+' || c
        == '-' || c == '.' || c == '_'
}

/// The position of the first `/` in `s`, or the length of `s` if it has none.
pub open spec fn first_slash(s: Seq<char>) -> int
    decreases s.len(),
{
    if s.len() == 0 {
        0
    } else if s[0] == '/' {
        0
    } else {
        1 + first_slash(s.drop_first())
    }
}

/// The subtype of a media type such as `image/png`: what follows the first
/// `/`, where that is not empty and made of subtype characters only.
pub open spec fn mime_subtype(mime: Seq<char>) -> Option<Seq<char>> {
    let rest = mime.skip(first_slash(mime) + 1);
    if first_slash(mime) < mime.len() && rest.len() > 0 && (forall|i: int|
        0 <= i < rest.len() ==> is_subtype_char(#[trigger] rest[i])) {
        Some(rest)
    } else {
        None
    }
}

/// The extension of the cached file for artwork of the media type `mime`:
/// its subtype, or `jpg` where none can be told.
pub open spec fn artwork_extension(mime: Seq<char>) -> Seq<char> {
    match mime_subtype(mime) {
        Some(subtype) => subtype,
        None => seq!['j', 'p', 'g'],
    }
}

/// The name of the cached file for artwork with the digest `digest` and of
/// the media type `mime`: the digest in hex, a dot, and the extension.
pub open spec fn digest_name(digest: Seq<u8>, mime: Seq<char>) -> Seq<char> {
    hex_text(digest) + seq!['.'] + artwork_extension(mime)
}

/// The name of the cached file for the artwork `bytes` of the media type
/// `mime`.
pub open spec fn artwork_name(bytes: Seq<u8>, mime: Seq<char>) -> Seq<char> {
    digest_name(sha256(bytes), mime)
}

proof fn lemma_first_slash(s: Seq<char>)
    ensures
        0 <= first_slash(s) <= s.len(),
        first_slash(s) < s.len() ==> s[first_slash(s)] == '/',
        forall|i: int| 0 <= i < first_slash(s) ==> s[i] != '/',
    decreases s.len(),
{
    if s.len() > 0 && s[0] != '/' {
        let rest = s.drop_first();
        lemma_first_slash(rest);
        assert forall|i: int| 0 <= i < first_slash(s) implies s[i] != '/' by {
            if i > 0 {
                assert(s[i] == rest[i - 1]);
            }
        }
    }
}

proof fn lemma_first_slash_is(s: Seq<char>, at: int)
    requires
        0 <= at <= s.len(),
        forall|i: int| 0 <= i < at ==> s[i] != '/',
        at < s.len() ==> s[at] == '/',
    ensures
        first_slash(s) == at,
{
    lemma_first_slash(s);
}

fn is_subtype_character(c: char) -> (r: bool)
    ensures
        r == is_subtype_char(c),
{
    ('a' <= c && c <= 'z') || ('A' <= c && c <= 'Z') || ('0' <= c && c <= '9') || c == '+' || c
        == '-' || c == '.' || c == '_'
}

/// The extension of the cached file for artwork of the media type `mime`.
pub fn extension_for(mime: &str) -> (r: String)
    ensures
        r@ == artwork_extension(mime@),
{
    proof {
        reveal_strlit("jpg");
        assert("jpg"@ =~= seq!['j', 'p', 'g']);
    }
    let mut slash: Option<usize> = None;
    let mut valid: bool = true;
    let total: usize = mime.unicode_len();
    let mut n: usize = 0;
    for c in it: mime.chars()
        invariant
            it.seq() == mime@,
            n == it.index(),
            total == mime@.len(),
            match slash {
                Some(at) => at < n && mime@[at as int] == '/' && (forall|i: int|
                    0 <= i < at ==> mime@[i] != '/') && valid == (forall|i: int|
                    at < i < n ==> is_subtype_char(#[trigger] mime@[i])),
                None => forall|i: int| 0 <= i < n ==> mime@[i] != '/',
            },
    {
        match slash {
            Some(_) => {
                if !is_subtype_character(c) {
                    valid = false;
                }
            },
            None => {
                if c == '/' {
                    slash = Some(n);
                    valid = true;
                }
            },
        }
        n = n + 1;
    }
    match slash {
        Some(at) => {
            proof {
                lemma_first_slash_is(mime@, at as int);
                let rest = mime@.skip(at + 1);
                if valid {
                    assert forall|i: int| 0 <= i < rest.len() implies is_subtype_char(
                        #[trigger] rest[i],
                    ) by {
                        assert(rest[i] == mime@[at + 1 + i]);
                    }
                } else {
                    let i = choose|i: int| at < i < n && !is_subtype_char(#[trigger] mime@[i]);
                    assert(rest[i - at - 1] == mime@[i]);
                }
            }
            if valid && at + 1 < n {
                let rest = mime.substring_char(at + 1, n);
                assert(rest@ =~= mime@.skip(at + 1));
                rest.to_owned()
            } else {
                "jpg".to_owned()
            }
        },
        None => {
            proof {
                lemma_first_slash_is(mime@, mime@.len() as int);
            }
            "jpg".to_owned()
        },
    }
}

/// The name of the cached file for artwork with the digest `digest` and of
/// the media type `mime`.
pub fn filename_for_digest(digest: &[u8], mime: &str) -> (r: String)
    ensures
        r@ == digest_name(digest@, mime@),
{
    proof {
        reveal_strlit(".");
        assert("."@ =~= seq!['.']);
    }
    let mut name = to_hex(digest);
    name.append(".");
    let extension = extension_for(mime);
    name.append(extension.as_str());
    name
}

/// The name of the cached file for the artwork `bytes` of the media type
/// `mime`.
pub fn artwork_filename(bytes: &[u8], mime: &str) -> (r: String)
    ensures
        r@ == artwork_name(bytes@, mime@),
{
    let digest = sha256_digest(bytes);
    filename_for_digest(digest.as_slice(), mime)
}

/// Embedded artwork as a tag reader hands it over.
#[derive(Debug)]
pub struct ArtworkSample {
    /// The picture's bytes; `None` where the sample has no readable buffer.
    pub bytes: Option<Vec<u8>>,
    /// The picture's media type, such as `image/png`; `None` where the
    /// sample does not tell its format.
    pub mime: Option<String>,
}

/// What to do with a picture that was handed to the cache.
#[derive(Debug)]
pub struct ArtworkPlan {
    /// The name of the file in the cache directory.
    pub filename: String,
    /// Whether the file is to be written: `false` where the cache already
    /// holds a file of that name.
    pub write: bool,
}

/// The files of the cache once the artwork `bytes` of the media type `mime`
/// went through it.
pub open spec fn cached(files: Set<Seq<char>>, bytes: Seq<u8>, mime: Seq<char>) -> Set<Seq<char>> {
    files.insert(artwork_name(bytes, mime))
}

/// Whether caching the artwork `bytes` of the media type `mime` writes a file.
pub open spec fn must_write(files: Set<Seq<char>>, bytes: Seq<u8>, mime: Seq<char>) -> bool {
    !files.contains(artwork_name(bytes, mime))
}

/// Caching the same picture a second time writes nothing and leaves the
/// cache as it is; the file name is a function of the bytes and the media
/// type, so it is the same both times.
pub proof fn lemma_cache_again_writes_nothing(files: Set<Seq<char>>, bytes: Seq<u8>, mime: Seq<char>)
    ensures
        !must_write(cached(files, bytes, mime), bytes, mime),
        cached(cached(files, bytes, mime), bytes, mime) == cached(files, bytes, mime),
{
    assert(cached(cached(files, bytes, mime), bytes, mime) =~= cached(files, bytes, mime));
}

/// The names of the artwork files that the cache directory is known to hold.
///
/// The cache only grows: nothing is ever evicted.
pub struct ArtworkCache {
    known: StringHashMap<()>,
}

impl View for ArtworkCache {
    type V = Set<Seq<char>>;

    closed spec fn view(&self) -> Set<Seq<char>> {
        self.known@.dom()
    }
}

impl ArtworkCache {
    /// A cache of which no file is known.
    pub fn new() -> (r: ArtworkCache)
        ensures
            r@ == Set::<Seq<char>>::empty(),
    {
        let r = ArtworkCache { known: StringHashMap::new() };
        assert(r.known@.dom() =~= Set::<Seq<char>>::empty());
        r
    }

    /// Records that the cache directory holds the file `filename`.
    pub fn note_present(&mut self, filename: String)
        ensures
            final(self)@ == old(self)@.insert(filename@),
    {
        self.known.insert(filename, ());
        assert(self.known@.dom() =~= old(self).known@.dom().insert(filename@));
    }

    /// Records that the cache directory does not hold the file `filename`,
    /// as after a write that failed.
    pub fn forget(&mut self, filename: &str)
        ensures
            final(self)@ == old(self)@.remove(filename@),
    {
        self.known.remove(filename);
        assert(self.known@.dom() =~= old(self).known@.dom().remove(filename@));
    }

    /// Whether the cache directory is known to hold the file `filename`.
    pub fn contains(&self, filename: &str) -> (r: bool)
        ensures
            r == self@.contains(filename@),
    {
        self.known.contains_key(filename)
    }

    /// Takes a picture into the cache and tells its file name and whether
    /// the file has to be written.
    ///
    /// There is no artwork, and nothing changes, where the cache directory
    /// is not ready (`dir_ready` is `false`) or the sample lacks its bytes
    /// or its media type.
    pub fn cache_image(
        &mut self,
        sample: &ArtworkSample,
        dir_ready: bool,
    ) -> (r: Option<ArtworkPlan>)
        ensures
            r is Some <==> dir_ready && sample.bytes is Some && sample.mime is Some,
            r is Some ==> {
                let bytes = sample.bytes->0@;
                let mime = sample.mime->0@;
                &&& r->0.filename@ == artwork_name(bytes, mime)
                &&& r->0.write == must_write(old(self)@, bytes, mime)
                &&& final(self)@ == cached(old(self)@, bytes, mime)
            },
            r is None ==> final(self)@ == old(self)@,
    {
        if !dir_ready {
            return None;
        }
        match (&sample.bytes, &sample.mime) {
            (Some(bytes), Some(mime)) => {
                let filename = artwork_filename(bytes.as_slice(), mime.as_str());
                let write = !self.known.contains_key(filename.as_str());
                if write {
                    self.known.insert(filename.clone(), ());
                }
                assert(self.known@.dom() =~= old(self).known@.dom().insert(filename@));
                Some(ArtworkPlan { filename, write })
            },
            _ => None,
        }
    }
}

} // verus!
