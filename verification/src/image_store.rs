//! Which artwork files are loaded, which are waiting to be loaded, and which
//! requests are worth passing on to the loader.
//!
//! The store keeps the loaded pictures and the paths that wait for the
//! loader. Whoever owns it passes a request on to the loader through a queue
//! of [`REQUEST_CAPACITY`] places; a request that finds the queue full is
//! given up with [`ImageStore::abandon`], so that it may be made again.

use vstd::hash_map::StringHashMap;
use vstd::prelude::*;
use crate::order::same_text;

verus! {

/// The number of requests that may wait for the loader at a time.
pub const REQUEST_CAPACITY: usize = 64;

/// The path of the file `name` in the directory `dir`.
pub uninterp spec fn joined_path(dir: Seq<char>, name: Seq<char>) -> Seq<char>;

/// Joins a directory and a file name with `Path::join` of the standard
/// library. The joined path is a function of the two texts; the contract
/// names it.
#[verifier::external_body]
fn join_path(dir: &str, name: &str) -> (r: String)
    ensures
        r@ == joined_path(dir@, name@),
{
    std::path::Path::new(dir).join(name).to_string_lossy().into_owned()
}

/// The paths of `queue` other than `path`, in their order.
pub open spec fn without(queue: Seq<Seq<char>>, path: Seq<char>) -> Seq<Seq<char>>
    decreases queue.len(),
{
    if queue.len() == 0 {
        Seq::empty()
    } else if queue.last() == path {
        without(queue.drop_last(), path)
    } else {
        without(queue.drop_last(), path).push(queue.last())
    }
}

/// Takes `path` out of `queue`, wherever it stands.
fn remove_path(queue: Vec<String>, path: &str) -> (r: Vec<String>)
    ensures
        r.deep_view() == without(queue.deep_view(), path@),
{
    let ghost given = queue.deep_view();
    let mut out: Vec<String> = Vec::new();
    assert(given.take(0) =~= Seq::<Seq<char>>::empty());
    assert(out.deep_view() =~= Seq::<Seq<char>>::empty());
    for waiting in it: queue
        invariant
            it.seq() == queue@,
            given == queue.deep_view(),
            out.deep_view() == without(given.take(it.index()), path@),
    {
        let ghost before = out.deep_view();
        assert(given.take(it.index() + 1).drop_last() =~= given.take(it.index()));
        assert(given.take(it.index() + 1).last() == waiting@);
        if !same_text(waiting.as_str(), path) {
            out.push(waiting);
            assert(out.deep_view() =~= before.push(waiting@));
        }
    }
    assert(given.take(given.len() as int) =~= given);
    out
}

/// Whether `path` stands in `queue`.
fn is_queued(queue: &Vec<String>, path: &str) -> (r: bool)
    ensures
        r == queue.deep_view().contains(path@),
{
    let mut i: usize = 0;
    while i < queue.len()
        invariant
            i <= queue.len(),
            forall|k: int| 0 <= k < i ==> queue[k]@ != path@,
        decreases queue.len() - i,
    {
        if same_text(queue[i].as_str(), path) {
            assert(queue.deep_view()[i as int] == path@);
            return true;
        }
        i += 1;
    }
    assert forall|k: int| 0 <= k < queue.deep_view().len() implies queue.deep_view()[k]
        != path@ by {
        assert(queue.deep_view()[k] == queue[k]@);
    }
    false
}

/// The loaded pictures of an artwork directory, by path, and the paths that
/// wait to be loaded. `H` is the handle of a loaded picture.
#[verifier::reject_recursive_types(H)]
pub struct ImageStore<H> {
    artwork_dir: String,
    cache: StringHashMap<H>,
    queue: Vec<String>,
}

/// The mathematical value of an [`ImageStore`].
#[verifier::reject_recursive_types(H)]
pub ghost struct ImageStoreView<H> {
    pub artwork_dir: Seq<char>,
    /// The loaded pictures, by path.
    pub cache: Map<Seq<char>, H>,
    /// The paths that wait for the loader, oldest first.
    pub queue: Seq<Seq<char>>,
}

impl<H> ImageStoreView<H> {
    /// Whether a request for the picture at `path` is passed on to the
    /// loader: the picture is neither loaded nor waiting.
    pub open spec fn wants(self, path: Seq<char>) -> bool {
        !self.cache.contains_key(path) && !self.queue.contains(path)
    }
}

impl<H> View for ImageStore<H> {
    type V = ImageStoreView<H>;

    closed spec fn view(&self) -> ImageStoreView<H> {
        ImageStoreView {
            artwork_dir: self.artwork_dir@,
            cache: self.cache@,
            queue: self.queue.deep_view(),
        }
    }
}

impl<H> ImageStore<H> {
    /// A store for the pictures of the directory `artwork_dir`, with nothing
    /// loaded and nothing waiting.
    pub fn new(artwork_dir: String) -> (r: Self)
        ensures
            r@ == (ImageStoreView::<H> {
                artwork_dir: artwork_dir@,
                cache: Map::empty(),
                queue: Seq::empty(),
            }),
    {
        let r = ImageStore { artwork_dir, cache: StringHashMap::new(), queue: Vec::new() };
        assert(r.queue.deep_view() =~= Seq::<Seq<char>>::empty());
        r
    }

    /// Asks for the picture in the file `name` of the artwork directory.
    ///
    /// Gives the file's path if the request is to be passed on to the
    /// loader, and notes that the path is waiting. Gives `None`, and changes
    /// nothing, where the picture is loaded or waiting already.
    pub fn request(&mut self, name: &str) -> (r: Option<String>)
        ensures
            ({
                let path = joined_path(old(self)@.artwork_dir, name@);
                &&& r is Some <==> old(self)@.wants(path)
                &&& r is Some ==> r->0@ == path && final(self)@ == (ImageStoreView {
                    queue: old(self)@.queue.push(path),
                    ..old(self)@
                })
                &&& r is None ==> final(self)@ == old(self)@
            }),
    {
        let path = join_path(self.artwork_dir.as_str(), name);
        self.request_path(path)
    }

    /// Asks for the picture at `path`, as [`ImageStore::request`] does for
    /// a file of the artwork directory.
    pub fn request_path(&mut self, path: String) -> (r: Option<String>)
        ensures
            r is Some <==> old(self)@.wants(path@),
            r is Some ==> r->0@ == path@ && final(self)@ == (ImageStoreView {
                queue: old(self)@.queue.push(path@),
                ..old(self)@
            }),
            r is None ==> final(self)@ == old(self)@,
    {
        if self.cache.contains_key(path.as_str()) {
            return None;
        }
        if is_queued(&self.queue, path.as_str()) {
            return None;
        }
        self.queue.push(path.clone());
        assert(self.queue.deep_view() =~= old(self).queue.deep_view().push(path@));
        Some(path)
    }

    /// Gives up the request for `path`, as when the loader's queue is full:
    /// the path no longer waits, and may be asked for again.
    pub fn abandon(&mut self, path: &str)
        ensures
            final(self)@ == (ImageStoreView {
                queue: without(old(self)@.queue, path@),
                ..old(self)@
            }),
    {
        let mut queue: Vec<String> = Vec::new();
        std::mem::swap(&mut self.queue, &mut queue);
        self.queue = remove_path(queue, path);
    }

    /// Takes up the request for `path` on the loader's side: the path no
    /// longer waits. Tells whether the file is still to be read, which it is
    /// unless the picture is loaded already.
    pub fn begin_load(&mut self, path: &str) -> (r: bool)
        ensures
            r == !old(self)@.cache.contains_key(path@),
            final(self)@ == (ImageStoreView {
                queue: without(old(self)@.queue, path@),
                ..old(self)@
            }),
    {
        let mut queue: Vec<String> = Vec::new();
        std::mem::swap(&mut self.queue, &mut queue);
        self.queue = remove_path(queue, path);
        !self.cache.contains_key(path)
    }

    /// Keeps the picture that was loaded from `path`.
    pub fn finish_load(&mut self, path: String, handle: H)
        ensures
            final(self)@ == (ImageStoreView {
                cache: old(self)@.cache.insert(path@, handle),
                ..old(self)@
            }),
    {
        self.cache.insert(path, handle);
    }

    /// The picture of the file `name` of the artwork directory, if it is
    /// loaded. Never waits for the loader.
    pub fn get(&self, name: &str) -> (r: Option<&H>)
        ensures
            ({
                let path = joined_path(self@.artwork_dir, name@);
                &&& r is Some <==> self@.cache.contains_key(path)
                &&& r is Some ==> *r->0 == self@.cache[path]
            }),
    {
        let path = join_path(self.artwork_dir.as_str(), name);
        self.get_path(path.as_str())
    }

    /// The picture at `path`, if it is loaded.
    pub fn get_path(&self, path: &str) -> (r: Option<&H>)
        ensures
            r is Some <==> self@.cache.contains_key(path@),
            r is Some ==> *r->0 == self@.cache[path@],
    {
        self.cache.get(path)
    }

    /// The number of paths that wait for the loader.
    pub fn waiting(&self) -> (r: usize)
        ensures
            r == self@.queue.len(),
    {
        self.queue.len()
    }
}

/// A request is passed on once: while a path waits or its picture is loaded,
/// asking again changes nothing.
pub proof fn lemma_request_once<H>(store: ImageStoreView<H>, path: Seq<char>)
    requires
        store.wants(path),
    ensures
        !(ImageStoreView { queue: store.queue.push(path), ..store }).wants(path),
{
    let q = store.queue.push(path);
    assert(q[q.len() - 1] == path);
}

/// A path that was given up, or taken up by the loader, no longer waits.
pub proof fn lemma_without_absent(queue: Seq<Seq<char>>, path: Seq<char>)
    ensures
        !without(queue, path).contains(path),
        forall|other: Seq<char>|
            other != path ==> (#[trigger] without(queue, path).contains(other)
                <==> queue.contains(other)),
    decreases queue.len(),
{
    if queue.len() > 0 {
        let init = queue.drop_last();
        lemma_without_absent(init, path);
        let w = without(queue, path);
        let wi = without(init, path);
        if w.contains(path) {
            let k = choose|k: int| 0 <= k < w.len() && w[k] == path;
            if queue.last() != path && k < wi.len() {
                assert(wi[k] == path);
            }
        }
        assert forall|other: Seq<char>| other != path implies (#[trigger] w.contains(other)
            <==> queue.contains(other)) by {
            assert(wi.contains(other) <==> init.contains(other));
            if w.contains(other) {
                let k = choose|k: int| 0 <= k < w.len() && w[k] == other;
                if k < wi.len() {
                    assert(wi[k] == other);
                    assert(wi.contains(other));
                    let m = choose|m: int| 0 <= m < init.len() && init[m] == other;
                    assert(queue[m] == other);
                } else {
                    assert(queue[queue.len() - 1] == other);
                }
            }
            if queue.contains(other) {
                let m = choose|m: int| 0 <= m < queue.len() && queue[m] == other;
                if m < init.len() {
                    assert(init[m] == other);
                    assert(init.contains(other));
                    let k = choose|k: int| 0 <= k < wi.len() && wi[k] == other;
                    assert(w[k] == other);
                } else {
                    assert(w[w.len() - 1] == other);
                }
            }
        }
    }
}

} // verus!
