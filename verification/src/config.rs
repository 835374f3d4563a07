//! The settings that outlive a run: the theme and the roots of the library.

use vstd::prelude::*;
use crate::order::same_text;

verus! {

/// The colour scheme of the application.
#[derive(Clone, Copy, Debug, PartialEq, Eq, Structural)]
pub enum AppTheme {
    Dark,
    Light,
    /// Whatever the desktop prefers.
    System,
}

/// The texts that `texts` holds, as a set.
pub open spec fn text_set(texts: Seq<Seq<char>>) -> Set<Seq<char>> {
    Set::new(|t: Seq<char>| texts.contains(t))
}

/// The result of decoding a percent-encoded text; `None` where what comes
/// out is no UTF-8.
pub uninterp spec fn percent_decoded(text: Seq<char>) -> Option<Seq<char>>;

/// Decodes a percent-encoded text with `decode` of the `urlencoding` crate.
/// The result is a function of the text alone; the contract names it. There
/// is none where the decoded bytes are no UTF-8.
#[verifier::external_body]
fn percent_decode(text: &str) -> (r: Option<String>)
    ensures
        r.deep_view() == percent_decoded(text@),
{
    match urlencoding::decode(text) {
        Ok(decoded) => Some(decoded.into_owned()),
        Err(_) => None,
    }
}

/// The texts among `decoded` that are there, in their order.
pub open spec fn present(decoded: Seq<Option<Seq<char>>>) -> Seq<Seq<char>>
    decreases decoded.len(),
{
    if decoded.len() == 0 {
        Seq::empty()
    } else {
        match decoded.last() {
            Some(text) => present(decoded.drop_last()).push(text),
            None => present(decoded.drop_last()),
        }
    }
}

/// The texts of `raw` that can be decoded, decoded, in their order.
pub open spec fn decoded_paths(raw: Seq<Seq<char>>) -> Seq<Seq<char>> {
    present(Seq::new(raw.len(), |i: int| percent_decoded(raw[i])))
}

/// Keeps the texts among `decoded` that are there, in their order.
pub fn keep_present(decoded: Vec<Option<String>>) -> (r: Vec<String>)
    ensures
        r.deep_view() == present(decoded.deep_view()),
{
    let ghost given = decoded.deep_view();
    let mut out: Vec<String> = Vec::new();
    assert(given.take(0) =~= Seq::<Option<Seq<char>>>::empty());
    assert(out.deep_view() =~= Seq::<Seq<char>>::empty());
    for text in it: decoded
        invariant
            it.seq() == decoded@,
            given == decoded.deep_view(),
            out.deep_view() == present(given.take(it.index())),
    {
        let ghost before = out.deep_view();
        assert(given.take(it.index() + 1).drop_last() =~= given.take(it.index()));
        assert(given.take(it.index() + 1).last() == text.deep_view());
        match text {
            Some(text) => {
                out.push(text);
                assert(out.deep_view() =~= before.push(text@));
            },
            None => {},
        }
    }
    assert(given.take(given.len() as int) =~= given);
    out
}

/// Decodes the percent-encoded paths that a folder chooser hands over, and
/// leaves out those that cannot be decoded.
pub fn decode_paths(raw: &[String]) -> (r: Vec<String>)
    ensures
        r.deep_view() == decoded_paths(raw.deep_view()),
{
    let mut decoded: Vec<Option<String>> = Vec::new();
    let mut i: usize = 0;
    let ghost all = raw.deep_view();
    while i < raw.len()
        invariant
            i <= raw.len(),
            all == raw.deep_view(),
            decoded.deep_view() == Seq::new(i as nat, |k: int| percent_decoded(all[k])),
        decreases raw.len() - i,
    {
        let ghost before = decoded.deep_view();
        let text = percent_decode(raw[i].as_str());
        decoded.push(text);
        assert(decoded.deep_view() =~= before.push(percent_decoded(all[i as int])));
        assert(decoded.deep_view() =~= Seq::new((i + 1) as nat, |k: int| percent_decoded(all[k])));
        i += 1;
    }
    keep_present(decoded)
}

/// The settings of the application.
#[derive(Debug)]
pub struct Config {
    pub app_theme: AppTheme,
    library_paths: Vec<String>,
}

/// The mathematical value of a [`Config`].
pub ghost struct ConfigView {
    pub app_theme: AppTheme,
    /// The roots under which the library's files are looked for.
    pub library_paths: Set<Seq<char>>,
}

impl View for Config {
    type V = ConfigView;

    closed spec fn view(&self) -> ConfigView {
        ConfigView {
            app_theme: self.app_theme,
            library_paths: text_set(self.library_paths.deep_view()),
        }
    }
}

impl Default for Config {
    /// The theme of the desktop and no library roots.
    fn default() -> (r: Config)
        ensures
            r@ == (ConfigView { app_theme: AppTheme::System, library_paths: Set::empty() }),
    {
        let r = Config { app_theme: AppTheme::System, library_paths: Vec::new() };
        assert(text_set(r.library_paths.deep_view()) =~= Set::<Seq<char>>::empty());
        r
    }
}

impl Clone for Config {
    fn clone(&self) -> (r: Config)
        ensures
            r@ == self@,
    {
        proof {
            use_type_invariant(self);
        }
        let mut paths: Vec<String> = Vec::new();
        let mut i: usize = 0;
        while i < self.library_paths.len()
            invariant
                i <= self.library_paths.len(),
                paths.deep_view() == self.library_paths.deep_view().take(i as int),
            decreases self.library_paths.len() - i,
        {
            let ghost before = paths.deep_view();
            paths.push(self.library_paths[i].clone());
            assert(paths.deep_view() =~= before.push(self.library_paths[i as int]@));
            assert(self.library_paths.deep_view().take(i + 1) =~= before.push(
                self.library_paths[i as int]@,
            ));
            i += 1;
        }
        assert(self.library_paths.deep_view().take(i as int) =~= self.library_paths.deep_view());
        Config { app_theme: self.app_theme, library_paths: paths }
    }
}

impl Config {
    /// Whether no path occurs twice in `paths`.
    pub open spec fn each_once(paths: Seq<Seq<char>>) -> bool {
        forall|i: int, j: int| 0 <= i < j < paths.len() ==> paths[i] != paths[j]
    }

    #[verifier::type_invariant]
    spec fn well_formed(self) -> bool {
        Config::each_once(self.library_paths.deep_view())
    }

    /// The library roots, each once, in the order they were added.
    pub fn library_paths(&self) -> (r: &[String])
        ensures
            text_set(r.deep_view()) == self@.library_paths,
            Config::each_once(r.deep_view()),
    {
        proof {
            use_type_invariant(self);
        }
        let r = self.library_paths.as_slice();
        assert(r.deep_view() =~= self.library_paths.deep_view());
        r
    }

    /// Whether `path` is a library root.
    pub fn has_library_path(&self, path: &str) -> (r: bool)
        ensures
            r == self@.library_paths.contains(path@),
    {
        position_of(&self.library_paths, path).is_some()
    }

    /// Adds a library root. Tells whether it was new.
    pub fn add_library_path(&mut self, path: String) -> (r: bool)
        ensures
            r == !old(self)@.library_paths.contains(path@),
            final(self)@ == (ConfigView {
                library_paths: old(self)@.library_paths.insert(path@),
                ..old(self)@
            }),
    {
        let mut taken = Config::default();
        std::mem::swap(self, &mut taken);
        proof {
            use_type_invariant(&taken);
        }
        let Config { app_theme, mut library_paths } = taken;
        let ghost before = library_paths.deep_view();
        let fresh = position_of(&library_paths, path.as_str()).is_none();
        if fresh {
            library_paths.push(path);
            assert(library_paths.deep_view() =~= before.push(path@));
            assert forall|t: Seq<char>| before.push(path@).contains(t) <==> (before.contains(t)
                || t == path@) by {
                if before.contains(t) {
                    let k = choose|k: int| 0 <= k < before.len() && before[k] == t;
                    assert(before.push(path@)[k] == t);
                }
                if t == path@ {
                    assert(before.push(path@)[before.len() as int] == t);
                }
            }
        }
        assert(text_set(library_paths.deep_view()) =~= text_set(before).insert(path@));
        *self = Config { app_theme, library_paths };
        fresh
    }

    /// Adds each of `paths` as a library root.
    pub fn add_library_paths(&mut self, paths: Vec<String>)
        ensures
            final(self)@ == (ConfigView {
                library_paths: old(self)@.library_paths.union(text_set(paths.deep_view())),
                ..old(self)@
            }),
    {
        let ghost start = self@;
        let ghost given = paths.deep_view();
        assert(given.take(0) =~= Seq::<Seq<char>>::empty());
        assert(start.library_paths.union(text_set(Seq::<Seq<char>>::empty()))
            =~= start.library_paths);
        for path in it: paths
            invariant
                it.seq() == paths@,
                given == paths.deep_view(),
                self@ == (ConfigView {
                    library_paths: start.library_paths.union(text_set(given.take(it.index()))),
                    ..start
                }),
        {
            let ghost before = given.take(it.index());
            let ghost longer = given.take(it.index() + 1);
            assert(longer =~= before.push(path@));
            assert forall|t: Seq<char>| longer.contains(t) <==> (before.contains(t) || t
                == path@) by {
                if before.contains(t) {
                    let k = choose|k: int| 0 <= k < before.len() && before[k] == t;
                    assert(longer[k] == t);
                }
                if t == path@ {
                    assert(longer[longer.len() - 1] == t);
                }
            }
            assert(start.library_paths.union(text_set(before)).insert(path@)
                =~= start.library_paths.union(text_set(longer)));
            self.add_library_path(path);
        }
        assert(given.take(given.len() as int) =~= given);
    }

    /// Removes a library root. Tells whether it was one.
    pub fn remove_library_path(&mut self, path: &str) -> (r: bool)
        ensures
            r == old(self)@.library_paths.contains(path@),
            final(self)@ == (ConfigView {
                library_paths: old(self)@.library_paths.remove(path@),
                ..old(self)@
            }),
    {
        let mut taken = Config::default();
        std::mem::swap(self, &mut taken);
        proof {
            use_type_invariant(&taken);
        }
        let Config { app_theme, mut library_paths } = taken;
        let ghost before = library_paths.deep_view();
        let found = position_of(&library_paths, path);
        match found {
            Some(at) => {
                library_paths.remove(at);
                let ghost after = library_paths.deep_view();
                assert(after =~= before.remove(at as int));
                assert forall|t: Seq<char>| after.contains(t) <==> (before.contains(t) && t
                    != path@) by {
                    if after.contains(t) {
                        let k = choose|k: int| 0 <= k < after.len() && after[k] == t;
                        if k < at {
                            assert(before[k] == t);
                            assert(before[k] != before[at as int]);
                        } else {
                            assert(before[k + 1] == t);
                            assert(before[at as int] != before[k + 1]);
                        }
                    }
                    if before.contains(t) && t != path@ {
                        let k = choose|k: int| 0 <= k < before.len() && before[k] == t;
                        if k < at {
                            assert(after[k] == t);
                        } else {
                            assert(after[k - 1] == t);
                        }
                    }
                }
                assert(text_set(after) =~= text_set(before).remove(path@));
            },
            None => {
                assert(text_set(before) =~= text_set(before).remove(path@));
            },
        }
        *self = Config { app_theme, library_paths };
        found.is_some()
    }
}

/// The place of `text` in `texts`, if it occurs there.
fn position_of(texts: &Vec<String>, text: &str) -> (r: Option<usize>)
    ensures
        r is Some <==> texts.deep_view().contains(text@),
        r is Some ==> r->0 < texts.len() && texts[r->0 as int]@ == text@,
{
    let mut i: usize = 0;
    while i < texts.len()
        invariant
            i <= texts.len(),
            forall|k: int| 0 <= k < i ==> texts[k]@ != text@,
        decreases texts.len() - i,
    {
        if same_text(texts[i].as_str(), text) {
            assert(texts.deep_view()[i as int] == text@);
            return Some(i);
        }
        i += 1;
    }
    assert forall|k: int| 0 <= k < texts.deep_view().len() implies texts.deep_view()[k]
        != text@ by {
        assert(texts.deep_view()[k] == texts[k]@);
    }
    None
}

} // verus!
