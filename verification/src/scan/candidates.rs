//! Which files a scan takes, and the entries it starts from.

use vstd::prelude::*;
use crate::library::{
    entries_map, has_path, lemma_entries_map_keys, paths_unique, Library, MediaMetaData, MetaView,
    TrackView,
};

verus! {

/// A file counts as audio only if it is larger than this many bytes.
pub const MIN_AUDIO_SIZE: u64 = 4096;

/// An ASCII capital letter turned into its small letter; any other character
/// as it is.
pub open spec fn ascii_lower(c: char) -> char {
    if 'A' <= c && c <= 'Z' {
        ((c as u8) + 32) as char
    } else {
        c
    }
}

/// A text with its ASCII capital letters turned into small ones.
pub open spec fn lowered(s: Seq<char>) -> Seq<char> {
    Seq::new(s.len(), |i: int| ascii_lower(s[i]))
}

/// The extension of a file name: what follows its last `.`, or the whole
/// name where it has none.
pub open spec fn extension_of(name: Seq<char>) -> Seq<char>
    decreases name.len(),
{
    if name.len() == 0 {
        name
    } else if name.last() == '.' {
        Seq::empty()
    } else {
        extension_of(name.drop_last()).push(name.last())
    }
}

/// Whether `extension`, in small letters, is one of the audio formats that
/// are indexed.
pub open spec fn is_audio_extension(extension: Seq<char>) -> bool {
    ||| extension == seq!['f', 'l', 'a', 'c']
    ||| extension == seq!['m', '4', 'a']
    ||| extension == seq!['m', 'p', '3']
    ||| extension == seq!['o', 'g', 'g']
    ||| extension == seq!['o', 'p', 'u', 's']
}

/// Whether a file of the name `name` and of `size` bytes is taken into the
/// library: its extension, whatever its case, is an audio format, and it is
/// larger than [`MIN_AUDIO_SIZE`].
pub open spec fn is_candidate(name: Seq<char>, size: u64) -> bool {
    is_audio_extension(lowered(extension_of(name))) && size > MIN_AUDIO_SIZE
}

fn to_ascii_lower(c: char) -> (r: char)
    ensures
        r == ascii_lower(c),
{
    if 'A' <= c && c <= 'Z' {
        ((c as u8) + 32) as char
    } else {
        c
    }
}

/// Whether `text` is made of the characters of `word`.
fn spells(text: &Vec<char>, word: &[char]) -> (r: bool)
    ensures
        r == (text@ == word@),
{
    if text.len() != word.len() {
        return false;
    }
    let mut i: usize = 0;
    while i < text.len()
        invariant
            i <= text.len(),
            text.len() == word.len(),
            forall|k: int| 0 <= k < i ==> text@[k] == word@[k],
        decreases text.len() - i,
    {
        if text[i] != word[i] {
            return false;
        }
        i += 1;
    }
    assert(text@ =~= word@);
    true
}

/// Whether a file of the name `file_name` and of `size` bytes is taken into
/// the library.
pub fn is_audio_candidate(file_name: &str, size: u64) -> (r: bool)
    ensures
        r == is_candidate(file_name@, size),
{
    let mut ext: Vec<char> = Vec::new();
    assert(ext@ =~= lowered(extension_of(file_name@.take(0))));
    for c in it: file_name.chars()
        invariant
            it.seq() == file_name@,
            ext@ == lowered(extension_of(file_name@.take(it.index()))),
    {
        let ghost before = file_name@.take(it.index());
        let ghost now = file_name@.take(it.index() + 1);
        assert(now.drop_last() =~= before);
        assert(now.last() == c);
        if c == '.' {
            ext.clear();
        } else {
            ext.push(to_ascii_lower(c));
        }
        assert(ext@ =~= lowered(extension_of(now)));
    }
    assert(file_name@.take(file_name@.len() as int) =~= file_name@);
    let flac = ['f', 'l', 'a', 'c'];
    let m4a = ['m', '4', 'a'];
    let mp3 = ['m', 'p', '3'];
    let ogg = ['o', 'g', 'g'];
    let opus = ['o', 'p', 'u', 's'];
    proof {
        assert(flac@ =~= seq!['f', 'l', 'a', 'c']);
        assert(m4a@ =~= seq!['m', '4', 'a']);
        assert(mp3@ =~= seq!['m', 'p', '3']);
        assert(ogg@ =~= seq!['o', 'g', 'g']);
        assert(opus@ =~= seq!['o', 'p', 'u', 's']);
    }
    let audio = spells(&ext, flac.as_slice()) || spells(&ext, m4a.as_slice()) || spells(
        &ext,
        mp3.as_slice(),
    ) || spells(&ext, ogg.as_slice()) || spells(&ext, opus.as_slice());
    audio && size > MIN_AUDIO_SIZE
}

/// An entry that the walk over the library's roots came across: a file or,
/// as the walk makes no difference between them, a directory.
#[derive(Debug)]
pub struct FoundFile {
    /// The entry's absolute path.
    pub path: String,
    /// The last component of the path.
    pub file_name: String,
    /// The entry's size in bytes.
    pub size: u64,
}

/// The entries a scan starts from: one for each file that is taken, in the
/// order the files were found, each path once, nothing known of any yet.
pub open spec fn seeded(found: Seq<FoundFile>) -> Seq<TrackView>
    decreases found.len(),
{
    if found.len() == 0 {
        Seq::empty()
    } else {
        let before = seeded(found.drop_last());
        let file = found.last();
        if is_candidate(file.file_name@, file.size) && !has_path(before, file.path@) {
            before.push((file.path@, MetaView::empty()))
        } else {
            before
        }
    }
}

/// The seeded entries are those of the files that are taken, and nothing is
/// known of any of them.
pub proof fn lemma_seeded(found: Seq<FoundFile>)
    ensures
        paths_unique(seeded(found)),
        forall|i: int|
            0 <= i < seeded(found).len() ==> (#[trigger] seeded(found)[i]).1 == MetaView::empty(),
        forall|path: Seq<char>|
            has_path(seeded(found), path) <==> exists|i: int|
                0 <= i < found.len() && (#[trigger] found[i]).path@ == path && is_candidate(
                    found[i].file_name@,
                    found[i].size,
                ),
    decreases found.len(),
{
    if found.len() > 0 {
        let init = found.drop_last();
        let file = found.last();
        let before = seeded(init);
        let all = seeded(found);
        lemma_seeded(init);
        let taken = is_candidate(file.file_name@, file.size) && !has_path(before, file.path@);
        assert forall|i: int, j: int| 0 <= i < j < all.len() implies
            (#[trigger] all[i]).0 != (#[trigger] all[j]).0
        by {
            if j < before.len() {
                assert(all[i] == before[i] && all[j] == before[j]);
            } else {
                assert(all[i] == before[i]);
            }
        }
        assert forall|path: Seq<char>|
            has_path(all, path) <==> exists|i: int|
                0 <= i < found.len() && (#[trigger] found[i]).path@ == path && is_candidate(
                    found[i].file_name@,
                    found[i].size,
                ) by {
            let wanted = exists|i: int|
                0 <= i < found.len() && (#[trigger] found[i]).path@ == path && is_candidate(
                    found[i].file_name@,
                    found[i].size,
                );
            let wanted_before = exists|i: int|
                0 <= i < init.len() && (#[trigger] init[i]).path@ == path && is_candidate(
                    init[i].file_name@,
                    init[i].size,
                );
            assert(has_path(before, path) <==> wanted_before);
            if has_path(all, path) {
                let k = choose|k: int| 0 <= k < all.len() && (#[trigger] all[k]).0 == path;
                if k < before.len() {
                    assert(before[k].0 == path);
                    let i = choose|i: int|
                        0 <= i < init.len() && (#[trigger] init[i]).path@ == path && is_candidate(
                            init[i].file_name@,
                            init[i].size,
                        );
                    assert(found[i] == init[i]);
                } else {
                    assert(found[found.len() - 1].path@ == path);
                }
                assert(wanted);
            }
            if wanted {
                let i = choose|i: int|
                    0 <= i < found.len() && (#[trigger] found[i]).path@ == path && is_candidate(
                        found[i].file_name@,
                        found[i].size,
                    );
                if i < init.len() {
                    assert(init[i] == found[i]);
                    let k = choose|k: int| 0 <= k < before.len() && (#[trigger] before[k]).0 == path;
                    assert(all[k].0 == path);
                } else if taken {
                    assert(all[all.len() - 1].0 == path);
                } else {
                    let k = choose|k: int| 0 <= k < before.len() && (#[trigger] before[k]).0 == path;
                    assert(all[k].0 == path);
                }
            }
        }
    }
}

/// The start of a scan: the library of the files that are taken, with an
/// empty record for each.
pub fn seed(found: &[FoundFile]) -> (r: Library)
    ensures
        r.entry_views() == seeded(found@),
        r@ == entries_map(seeded(found@)),
{
    let mut working = Library::new();
    let mut i: usize = 0;
    assert(found@.take(0) =~= Seq::<FoundFile>::empty());
    while i < found.len()
        invariant
            i <= found.len(),
            working.entry_views() == seeded(found@.take(i as int)),
            working@ == entries_map(seeded(found@.take(i as int))),
        decreases found.len() - i,
    {
        let file = &found[i];
        proof {
            assert(found@.take(i + 1).drop_last() =~= found@.take(i as int));
            assert(found@.take(i + 1).last() == found@[i as int]);
            lemma_seeded(found@.take(i as int));
            lemma_entries_map_keys(seeded(found@.take(i as int)), file.path@);
        }
        if is_audio_candidate(file.file_name.as_str(), file.size) && !working.contains(
            file.path.as_str(),
        ) {
            working.insert(file.path.clone(), MediaMetaData::new());
            proof {
                let before = seeded(found@.take(i as int));
                let entry = (file.path@, MetaView::empty());
                assert(before.push(entry).drop_last() =~= before);
                assert(before.push(entry).last() == entry);
            }
        }
        i += 1;
    }
    assert(found@.take(i as int) =~= found@);
    working
}

} // verus!
