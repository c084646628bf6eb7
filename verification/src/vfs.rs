use vstd::prelude::*;

verus! {

/// Failures of virtual-filesystem operations: a missing path, and any other
/// condition (a directory where a file was needed, or the reverse).
#[derive(Debug)]
pub enum VfsError {
    NotFound(String),
    Other(String),
}

/// A change the filesystem observed at a path.
#[derive(Debug)]
pub enum VfsEvent {
    Create(String),
    Write(String),
    Remove(String),
}

/// What a path holds: a file's bytes, or a directory listing the paths of its
/// entries.
pub enum FsEntry {
    File(Vec<u8>),
    Dir(Vec<String>),
}

/// Marker for the backends this crate's facade can drive.
pub trait Sealed {

}

/// One entry of a directory listing.
pub struct DirEntry {
    pub path: String,
}

impl DirEntry {
    /// The full path of the entry.
    pub fn path(&self) -> (r: &String)
        ensures
            r == &self.path,
    {
        &self.path
    }
}

/// The listing a `read_dir` returned; entries are handed out front to back.
pub struct ReadDir {
    pub entries: Vec<DirEntry>,
}

impl ReadDir {
    /// Hands out the next entry, front to back.
    pub fn next(&mut self) -> (r: Option<DirEntry>)
        ensures
            old(self).entries@.len() == 0 ==> r is None && final(self).entries@ == old(self).entries@,
            old(self).entries@.len() > 0 ==> r == Some(old(self).entries@[0]) && final(self).entries@ == old(self).entries@.skip(1),
    {
        if self.entries.len() > 0 {
            Some(self.entries.remove(0))
        } else {
            None
        }
    }
}

/// What `metadata` reports of a path.
#[derive(Debug)]
pub struct Metadata {
    pub is_file: bool,
}

impl Metadata {
    /// The path holds a file.
    pub fn is_file(&self) -> (r: bool)
        ensures
            r == self.is_file,
    {
        self.is_file
    }

    /// The path holds a directory.
    pub fn is_dir(&self) -> (r: bool)
        ensures
            r == !self.is_file,
    {
        !self.is_file
    }
}

/// Converts a not-found failure into an explicit absence, at the caller's
/// request; any other failure stays a failure.
pub trait IoResultExt<T>: Sized {
    fn with_not_found(self) -> (r: Result<Option<T>, VfsError>);
}

impl<T> IoResultExt<T> for Result<T, VfsError> {
    fn with_not_found(self) -> (r: Result<Option<T>, VfsError>)
        ensures
            match self {
                Ok(v) => r == Ok::<Option<T>, VfsError>(Some(v)),
                Err(VfsError::NotFound(p)) => r == Ok::<Option<T>, VfsError>(None::<T>),
                Err(e) => r == Err::<Option<T>, VfsError>(e),
            },
    {
        match self {
            Ok(v) => Ok(Some(v)),
            Err(e) => match e {
                VfsError::NotFound(_) => Ok(None),
                other => Err(other),
            },
        }
    }
}

/// First match of a path in the backend's entries.
pub open spec fn find_entry(es: Seq<(String, FsEntry)>, p: Seq<char>) -> Option<FsEntry>
    decreases es.len(),
{
    if es.len() <= 0 {
        None
    } else if es[0].0@ == p {
        Some(es[0].1)
    } else {
        find_entry(es.skip(1), p)
    }
}

/// Entry lookup splits at any point: the first match in the prefix wins,
/// otherwise the suffix decides.
pub proof fn lemma_find_split(es: Seq<(String, FsEntry)>, p: Seq<char>, i: int)
    requires
        0 <= i <= es.len(),
    ensures
        find_entry(es, p) == (if find_entry(es.take(i), p) is Some {
            find_entry(es.take(i), p)
        } else {
            find_entry(es.skip(i), p)
        }),
    decreases i,
{
    if i == 0 {
        assert(es.take(0) =~= Seq::<(String, FsEntry)>::empty());
        assert(es.skip(0) =~= es);
    } else {
        assert(es.take(i)[0] == es[0]);
        if es[0].0@ == p {
        } else {
            lemma_find_split(es.skip(1), p, i - 1);
            assert(es.skip(1).take(i - 1) =~= es.take(i).skip(1));
            assert(es.skip(1).skip(i - 1) =~= es.skip(i));
        }
    }
}

/// Appending an entry changes the lookup only for a path that had no match.
pub proof fn lemma_find_push(es: Seq<(String, FsEntry)>, e: (String, FsEntry), p: Seq<char>)
    ensures
        find_entry(es.push(e), p) == (if find_entry(es, p) is Some {
            find_entry(es, p)
        } else if e.0@ == p {
            Some(e.1)
        } else {
            None::<FsEntry>
        }),
{
    lemma_find_split(es.push(e), p, es.len() as int);
    assert(es.push(e).take(es.len() as int) =~= es);
    assert(es.push(e).skip(es.len() as int) =~= seq![e]);
    assert(seq![e].skip(1) =~= Seq::<(String, FsEntry)>::empty());
    assert(find_entry(seq![e].skip(1), p) is None);
    assert(find_entry(seq![e], p) == (if e.0@ == p {
        Some(e.1)
    } else {
        None::<FsEntry>
    }));
}

/// The in-memory backend: a flat list of paths and what each holds. It never
/// watches anything and never emits an event of its own, so the facade's
/// watch accounting can be exercised without any real filesystem.
pub struct MemBackend {
    pub entries: Vec<(String, FsEntry)>,
}

impl Sealed for MemBackend {

}

impl MemBackend {
    /// The entry a path resolves to.
    pub open spec fn entry_at(self, p: Seq<char>) -> Option<FsEntry> {
        find_entry(self.entries@, p)
    }

    /// Builds an empty backend.
    pub fn new() -> (r: MemBackend)
        ensures
            r.entries@.len() == 0,
    {
        MemBackend { entries: Vec::new() }
    }

    /// Stores a file at a path; the path must be fresh or already a file.
    fn put(&mut self, path: String, entry: FsEntry)
        ensures
            final(self).entry_at(path@) == Some(entry),
            forall|q: Seq<char>| q != path@ ==> #[trigger] final(self).entry_at(q) == old(self).entry_at(q),
    {
        self.remove_entry(&path);
        let ghost mid = *self;
        let ghost filtered = self.entries@;
        let ghost e = (path, entry);
        self.entries.push((path, entry));
        proof {
            assert(self.entries@ =~= filtered.push(e));
            assert forall|q: Seq<char>| true implies #[trigger] self.entry_at(q) == (if q == path@ {
                Some(e.1)
            } else {
                mid.entry_at(q)
            }) by {
                lemma_find_push(filtered, e, q);
                assert(mid.entry_at(q) == find_entry(filtered, q));
                if q == path@ {
                    assert(mid.entry_at(path@) is None);
                }
            }
        }
    }

    /// Strikes a path from the entries.
    fn remove_entry(&mut self, path: &String)
        ensures
            final(self).entry_at(path@) is None,
            forall|q: Seq<char>| q != path@ ==> #[trigger] final(self).entry_at(q) == old(self).entry_at(q),
    {
        let n = self.entries.len();
        let mut out: Vec<(String, FsEntry)> = Vec::new();
        let mut i: usize = 0;
        while i < n
            invariant
                n == old(self).entries@.len(),
                self.entries@ == old(self).entries@.skip(i as int),
                0 <= i <= n,
                find_entry(out@, path@) is None,
                forall|q: Seq<char>| q != path@ ==> #[trigger] find_entry(out@, q) == find_entry(
                    old(self).entries@.take(i as int),
                    q,
                ),
            decreases n - i,
        {
            let ghost out0 = out@;
            let e = self.entries.remove(0);
            let ghost cur = e;
            proof {
                assert(old(self).entries@.skip(i as int)[0] == old(self).entries@[i as int]);
                assert(cur == old(self).entries@[i as int]);
                assert(self.entries@ =~= old(self).entries@.skip(i as int + 1));
            }
            let keep = !(e.0 == *path);
            if keep {
                out.push(e);
            }
            proof {
                assert forall|q: Seq<char>| true implies #[trigger] find_entry(
                    old(self).entries@.take(i as int + 1),
                    q,
                ) == (if find_entry(old(self).entries@.take(i as int), q) is Some {
                    find_entry(old(self).entries@.take(i as int), q)
                } else if cur.0@ == q {
                    Some(cur.1)
                } else {
                    None::<FsEntry>
                }) by {
                    lemma_find_push(old(self).entries@.take(i as int), cur, q);
                    assert(old(self).entries@.take(i as int + 1) =~= old(self).entries@.take(
                        i as int,
                    ).push(cur));
                }
                if keep {
                    assert(out@ =~= out0.push(cur));
                    assert forall|q: Seq<char>| true implies #[trigger] find_entry(out@, q) == (
                    if find_entry(out0, q) is Some {
                        find_entry(out0, q)
                    } else if cur.0@ == q {
                        Some(cur.1)
                    } else {
                        None::<FsEntry>
                    }) by {
                        lemma_find_push(out0, cur, q);
                    }
                }
            }
            i = i + 1;
        }
        proof {
            assert(old(self).entries@.take(n as int) =~= old(self).entries@);
        }
        self.entries = out;
    }

    /// Registers a file with the given bytes, for setting a filesystem up.
    pub fn add_file(&mut self, path: String, data: Vec<u8>)
        ensures
            final(self).entry_at(path@) == Some(FsEntry::File(data)),
            forall|q: Seq<char>| q != path@ ==> #[trigger] final(self).entry_at(q) == old(self).entry_at(q),
    {
        self.put(path, FsEntry::File(data));
    }

    /// Registers a directory and its listing, for setting a filesystem up.
    pub fn add_dir(&mut self, path: String, listing: Vec<String>)
        ensures
            final(self).entry_at(path@) == Some(FsEntry::Dir(listing)),
            forall|q: Seq<char>| q != path@ ==> #[trigger] final(self).entry_at(q) == old(self).entry_at(q),
    {
        self.put(path, FsEntry::Dir(listing));
    }
}

#[verifier::external_type_specification]
#[verifier::external_body]
#[verifier::reject_recursive_types(T)]
pub struct ExSender<T>(crossbeam_channel::Sender<T>);

#[verifier::external_type_specification]
#[verifier::external_body]
#[verifier::reject_recursive_types(T)]
pub struct ExReceiver<T>(crossbeam_channel::Receiver<T>);

/// Relies on crossbeam_channel::unbounded: builds one channel and returns its
/// two ends. Nothing about the channel's content can be stated here.
#[verifier::external_body]
fn event_channel() -> (crossbeam_channel::Sender<VfsEvent>, crossbeam_channel::Receiver<VfsEvent>) {
    crossbeam_channel::unbounded()
}

/// Relies on Receiver::clone: the clone is one more handle on the same
/// channel, so every holder sees every event once. The type is opaque here,
/// so a handle on the same channel is stated as equality.
#[verifier::external_body]
fn clone_receiver(rx: &crossbeam_channel::Receiver<VfsEvent>) -> (r: crossbeam_channel::Receiver<
    VfsEvent,
>)
    ensures
        r == *rx,
{
    rx.clone()
}

/// Relies on Sender::send: queues the event for every receiver handle.
/// Delivery is best effort; with no receiver left the event is dropped.
#[verifier::external_body]
fn send_event(tx: &crossbeam_channel::Sender<VfsEvent>, ev: VfsEvent) {
    let _ = tx.send(ev);
}

/// The virtual filesystem facade: one backend, the set of watched paths, and
/// one event channel every `event_receiver` call hands out anew. A successful
/// `read` or `read_dir` watches the path read; `remove_file` and
/// `remove_dir_all` unwatch first; committing a `Remove` event unwatches its
/// path, so stale watches never accumulate. Serializing concurrent callers is
/// the embedder's concern: every operation takes the facade exclusively.
pub struct Vfs {
    pub backend: MemBackend,
    pub watched: Vec<String>,
    pub watch_enabled: bool,
    pub event_tx: crossbeam_channel::Sender<VfsEvent>,
    pub event_rx: crossbeam_channel::Receiver<VfsEvent>,
}

impl Vfs {
    /// The path is in the facade's watch set.
    pub open spec fn is_watched_spec(self, p: Seq<char>) -> bool {
        exists|i: int| 0 <= i < self.watched@.len() && (#[trigger] self.watched@[i])@ == p
    }

    /// The entry a path resolves to.
    pub open spec fn entry_at(self, p: Seq<char>) -> Option<FsEntry> {
        self.backend.entry_at(p)
    }

    /// Wraps a backend; nothing is watched yet and watching is enabled.
    pub fn new(backend: MemBackend) -> (r: Vfs)
        ensures
            r.backend == backend,
            r.watched@.len() == 0,
            r.watch_enabled,
    {
        let (tx, rx) = event_channel();
        Vfs { backend, watched: Vec::new(), watch_enabled: true, event_tx: tx, event_rx: rx }
    }

    /// Wraps a fresh, empty backend.
    pub fn new_default() -> (r: Vfs)
        ensures
            r.backend.entries@.len() == 0,
            r.watched@.len() == 0,
            r.watch_enabled,
    {
        Vfs::new(MemBackend::new())
    }

    /// Turns watch accounting on or off; the watch set itself is kept.
    pub fn set_watch_enabled(&mut self, enabled: bool)
        ensures
            *final(self) == (Vfs { watch_enabled: enabled, ..*old(self) }),
    {
        self.watch_enabled = enabled;
    }

    /// Reports whether the path is currently watched.
    pub fn is_watched(&self, path: &String) -> (r: bool)
        ensures
            r == self.is_watched_spec(path@),
    {
        let n = self.watched.len();
        let mut i: usize = 0;
        while i < n
            invariant
                n == self.watched@.len(),
                0 <= i <= n,
                forall|j: int| 0 <= j < i ==> (#[trigger] self.watched@[j])@ != path@,
            decreases n - i,
        {
            if self.watched[i] == *path {
                return true;
            }
            i = i + 1;
        }
        false
    }

    /// Adds a path to the watch set, once.
    fn watch(&mut self, path: &String)
        ensures
            final(self).is_watched_spec(path@),
            forall|q: Seq<char>| q != path@ ==> #[trigger] final(self).is_watched_spec(q) == old(
                self,
            ).is_watched_spec(q),
            *final(self) == (Vfs { watched: final(self).watched, ..*old(self) }),
    {
        if !self.is_watched(path) {
            let ghost w0 = self.watched@;
            self.watched.push(path.clone());
            proof {
                assert(self.watched@[w0.len() as int]@ == path@);
                assert forall|q: Seq<char>| q != path@ implies #[trigger] self.is_watched_spec(q)
                    == old(self).is_watched_spec(q) by {
                    if self.is_watched_spec(q) {
                        let i = choose|i: int|
                            0 <= i < self.watched@.len() && (#[trigger] self.watched@[i])@ == q;
                        assert(i < w0.len());
                        assert(w0[i]@ == q);
                    }
                    if old(self).is_watched_spec(q) {
                        let i = choose|i: int|
                            0 <= i < w0.len() && (#[trigger] w0[i])@ == q;
                        assert(self.watched@[i]@ == q);
                    }
                }
            }
        }
    }

    /// Strikes a path from the watch set.
    fn unwatch(&mut self, path: &String)
        ensures
            !final(self).is_watched_spec(path@),
            forall|q: Seq<char>| q != path@ ==> #[trigger] final(self).is_watched_spec(q) == old(
                self,
            ).is_watched_spec(q),
            *final(self) == (Vfs { watched: final(self).watched, ..*old(self) }),
    {
        let n = self.watched.len();
        let mut out: Vec<String> = Vec::new();
        let mut i: usize = 0;
        while i < n
            invariant
                n == old(self).watched@.len(),
                self.watched@ == old(self).watched@,
                *self == (Vfs { watched: self.watched, ..*old(self) }),
                0 <= i <= n,
                forall|j: int| 0 <= j < out@.len() ==> (#[trigger] out@[j])@ != path@,
                forall|j: int|
                    0 <= j < out@.len() ==> exists|x: int|
                        0 <= x < i && (#[trigger] out@[j])@ == old(self).watched@[x]@,
                forall|x: int|
                    0 <= x < i && (#[trigger] old(self).watched@[x])@ != path@ ==> exists|j: int|
                        0 <= j < out@.len() && out@[j]@ == old(self).watched@[x]@,
            decreases n - i,
        {
            let keep = !(self.watched[i] == *path);
            if keep {
                let ghost o0 = out@;
                out.push(self.watched[i].clone());
                proof {
                    assert(out@[o0.len() as int]@ == old(self).watched@[i as int]@);
                    assert forall|x: int|
                        0 <= x < i + 1 && (#[trigger] old(self).watched@[x])@
                        != path@ implies exists|j: int|
                        0 <= j < out@.len() && out@[j]@ == old(self).watched@[x]@ by {
                        if x < i {
                            let j = choose|j: int|
                                0 <= j < o0.len() && (#[trigger] o0[j])@ == old(
                                    self,
                                ).watched@[x]@;
                            assert(out@[j]@ == old(self).watched@[x]@);
                        } else {
                            assert(out@[o0.len() as int]@ == old(self).watched@[x]@);
                        }
                    }
                }
            }
            i = i + 1;
        }
        self.watched = out;
        proof {
            assert forall|q: Seq<char>| q != path@ implies #[trigger] self.is_watched_spec(q)
                == old(self).is_watched_spec(q) by {
                if self.is_watched_spec(q) {
                    let j = choose|j: int|
                        0 <= j < self.watched@.len() && (#[trigger] self.watched@[j])@ == q;
                    let x = choose|x: int|
                        0 <= x < n && (#[trigger] self.watched@[j])@ == old(self).watched@[x]@;
                    assert(old(self).watched@[x]@ == q);
                }
                if old(self).is_watched_spec(q) {
                    let x = choose|x: int|
                        0 <= x < old(self).watched@.len() && (#[trigger] old(self).watched@[x])@
                            == q;
                    let j = choose|j: int|
                        0 <= j < self.watched@.len() && self.watched@[j]@ == old(
                            self,
                        ).watched@[x]@;
                    assert(self.watched@[j]@ == q);
                }
            }
            if self.is_watched_spec(path@) {
                let j = choose|j: int|
                    0 <= j < self.watched@.len() && (#[trigger] self.watched@[j])@ == path@;
            }
        }
    }

    /// Reads a file into a shared immutable buffer, and watches the path.
    /// A directory is a hard failure; a missing path is not-found.
    pub fn read(&mut self, path: &String) -> (r: Result<std::sync::Arc<Vec<u8>>, VfsError>)
        ensures
            match r {
                Ok(d) => {
                    &&& (old(self).entry_at(path@) matches Some(FsEntry::File(b)) && d@ == b@)
                    &&& (old(self).watch_enabled ==> final(self).is_watched_spec(path@))
                    &&& (!old(self).watch_enabled ==> *final(self) == *old(self))
                    &&& forall|q: Seq<char>| q != path@ ==> #[trigger] final(self).is_watched_spec(
                        q,
                    ) == old(self).is_watched_spec(q)
                    &&& final(self).backend == old(self).backend
                    &&& final(self).watch_enabled == old(self).watch_enabled
                },
                Err(VfsError::NotFound(_)) => old(self).entry_at(path@) is None && *final(self)
                    == *old(self),
                Err(VfsError::Other(_)) => (old(self).entry_at(path@) matches Some(
                    FsEntry::Dir(_),
                )) && *final(self) == *old(self),
            },
            r is Ok <==> (old(self).entry_at(path@) matches Some(FsEntry::File(_))),
    {
        let found = self.backend.get_file(path);
        match found {
            Ok(data) => {
                if self.watch_enabled {
                    self.watch(path);
                }
                Ok(std::sync::Arc::new(data))
            },
            Err(e) => Err(e),
        }
    }

    /// Writes a file; an existing directory at the path is a hard failure.
    /// When the path is watched, a write event is emitted.
    pub fn write(&mut self, path: &String, contents: Vec<u8>) -> (r: Result<(), VfsError>)
        ensures
            match r {
                Ok(u) => {
                    &&& final(self).entry_at(path@) == Some(FsEntry::File(contents))
                    &&& forall|q: Seq<char>| q != path@ ==> #[trigger] final(self).entry_at(q)
                        == old(self).entry_at(q)
                },
                Err(e) => (old(self).entry_at(path@) matches Some(FsEntry::Dir(_))) && *final(self)
                    == *old(self) && (e matches VfsError::Other(_)),
            },
            r is Ok <==> !(old(self).entry_at(path@) matches Some(FsEntry::Dir(_))),
            final(self).watched == old(self).watched,
            final(self).watch_enabled == old(self).watch_enabled,
    {
        let is_dir = match self.backend.get_kind(path) {
            Some(k) => !k,
            None => false,
        };
        if is_dir {
            return Err(VfsError::Other(path.clone()));
        }
        if self.watch_enabled && self.is_watched(path) {
            send_event(&self.event_tx, VfsEvent::Write(path.clone()));
        }
        self.backend.add_file(path.clone(), contents);
        Ok(())
    }

    /// Queries what a path holds; a missing path is not-found.
    pub fn metadata(&self, path: &String) -> (r: Result<Metadata, VfsError>)
        ensures
            match r {
                Ok(m) => (m.is_file <==> (self.entry_at(path@) matches Some(FsEntry::File(_))))
                    && self.entry_at(path@) is Some,
                Err(e) => self.entry_at(path@) is None && (e matches VfsError::NotFound(_)),
            },
    {
        match self.backend.get_kind(path) {
            Some(is_file) => Ok(Metadata { is_file }),
            None => Err(VfsError::NotFound(path.clone())),
        }
    }

    /// Reads a directory's listing, and watches the path. A file is a hard
    /// failure; a missing path is not-found.
    pub fn read_dir(&mut self, path: &String) -> (r: Result<ReadDir, VfsError>)
        ensures
            match r {
                Ok(d) => {
                    &&& (old(self).entry_at(path@) matches Some(FsEntry::Dir(ps)) && d.entries@
                        .map_values(|en: DirEntry| en.path) == ps@)
                    &&& (old(self).watch_enabled ==> final(self).is_watched_spec(path@))
                    &&& (!old(self).watch_enabled ==> *final(self) == *old(self))
                    &&& forall|q: Seq<char>| q != path@ ==> #[trigger] final(self).is_watched_spec(
                        q,
                    ) == old(self).is_watched_spec(q)
                    &&& final(self).backend == old(self).backend
                    &&& final(self).watch_enabled == old(self).watch_enabled
                },
                Err(VfsError::NotFound(_)) => old(self).entry_at(path@) is None && *final(self)
                    == *old(self),
                Err(VfsError::Other(_)) => (old(self).entry_at(path@) matches Some(
                    FsEntry::File(_),
                )) && *final(self) == *old(self),
            },
            r is Ok <==> (old(self).entry_at(path@) matches Some(FsEntry::Dir(_))),
    {
        let found = self.backend.get_listing(path);
        match found {
            Ok(names) => {
                if self.watch_enabled {
                    self.watch(path);
                }
                let ghost ns = names@;
                let mut entries: Vec<DirEntry> = Vec::new();
                let mut rest = names;
                while rest.len() > 0
                    invariant
                        rest@ == ns.skip(entries@.len() as int),
                        entries@.len() <= ns.len(),
                        forall|j: int|
                            0 <= j < entries@.len() ==> (#[trigger] entries@[j]).path == ns[j],
                    decreases rest@.len(),
                {
                    let ghost r0 = rest@;
                    let ghost done = entries@.len() as int;
                    let p = rest.remove(0);
                    proof {
                        assert(r0[0] == ns[done]);
                        assert(rest@ =~= ns.skip(done + 1));
                    }
                    entries.push(DirEntry { path: p });
                }
                proof {
                    assert(entries@.map_values(|en: DirEntry| en.path) =~= ns);
                }
                Ok(ReadDir { entries })
            },
            Err(e) => Err(e),
        }
    }

    /// Removes a file, unwatching the path first; the unwatch happens even
    /// when the removal then fails.
    pub fn remove_file(&mut self, path: &String) -> (r: Result<(), VfsError>)
        ensures
            !final(self).is_watched_spec(path@),
            forall|q: Seq<char>| q != path@ ==> #[trigger] final(self).is_watched_spec(q) == old(
                self,
            ).is_watched_spec(q),
            final(self).watch_enabled == old(self).watch_enabled,
            match r {
                Ok(u) => {
                    &&& (old(self).entry_at(path@) matches Some(FsEntry::File(_)))
                    &&& final(self).entry_at(path@) is None
                    &&& forall|q: Seq<char>| q != path@ ==> #[trigger] final(self).entry_at(q)
                        == old(self).entry_at(q)
                },
                Err(e) => final(self).backend == old(self).backend,
            },
            r is Ok <==> (old(self).entry_at(path@) matches Some(FsEntry::File(_))),
    {
        let was_watched = self.is_watched(path);
        self.unwatch(path);
        let ghost mid = *self;
        let r = match self.backend.get_kind(path) {
            Some(true) => {
                if self.watch_enabled && was_watched {
                    send_event(&self.event_tx, VfsEvent::Remove(path.clone()));
                }
                self.backend.drop_entry(path);
                Ok(())
            },
            Some(false) => Err(VfsError::Other(path.clone())),
            None => Err(VfsError::NotFound(path.clone())),
        };
        proof {
            assert(self.watched@ == mid.watched@);
            assert forall|q: Seq<char>| true implies #[trigger] self.is_watched_spec(q)
                == mid.is_watched_spec(q) by {
                if self.is_watched_spec(q) {
                    let i = choose|i: int|
                        0 <= i < self.watched@.len() && (#[trigger] self.watched@[i])@ == q;
                    assert(mid.watched@[i]@ == q);
                }
                if mid.is_watched_spec(q) {
                    let i = choose|i: int|
                        0 <= i < mid.watched@.len() && (#[trigger] mid.watched@[i])@ == q;
                    assert(self.watched@[i]@ == q);
                }
            }
        }
        r
    }

    /// Removes a directory entry, unwatching the path first; the unwatch
    /// happens even when the removal then fails.
    pub fn remove_dir_all(&mut self, path: &String) -> (r: Result<(), VfsError>)
        ensures
            !final(self).is_watched_spec(path@),
            forall|q: Seq<char>| q != path@ ==> #[trigger] final(self).is_watched_spec(q) == old(
                self,
            ).is_watched_spec(q),
            final(self).watch_enabled == old(self).watch_enabled,
            match r {
                Ok(u) => {
                    &&& (old(self).entry_at(path@) matches Some(FsEntry::Dir(_)))
                    &&& final(self).entry_at(path@) is None
                    &&& forall|q: Seq<char>| q != path@ ==> #[trigger] final(self).entry_at(q)
                        == old(self).entry_at(q)
                },
                Err(e) => final(self).backend == old(self).backend,
            },
            r is Ok <==> (old(self).entry_at(path@) matches Some(FsEntry::Dir(_))),
    {
        let was_watched = self.is_watched(path);
        self.unwatch(path);
        let ghost mid = *self;
        let r = match self.backend.get_kind(path) {
            Some(false) => {
                if self.watch_enabled && was_watched {
                    send_event(&self.event_tx, VfsEvent::Remove(path.clone()));
                }
                self.backend.drop_entry(path);
                Ok(())
            },
            Some(true) => Err(VfsError::Other(path.clone())),
            None => Err(VfsError::NotFound(path.clone())),
        };
        proof {
            assert(self.watched@ == mid.watched@);
            assert forall|q: Seq<char>| true implies #[trigger] self.is_watched_spec(q)
                == mid.is_watched_spec(q) by {
                if self.is_watched_spec(q) {
                    let i = choose|i: int|
                        0 <= i < self.watched@.len() && (#[trigger] self.watched@[i])@ == q;
                    assert(mid.watched@[i]@ == q);
                }
                if mid.is_watched_spec(q) {
                    let i = choose|i: int|
                        0 <= i < mid.watched@.len() && (#[trigger] mid.watched@[i])@ == q;
                    assert(self.watched@[i]@ == q);
                }
            }
        }
        r
    }

    /// Hands out one more handle on the facade's single event channel; every
    /// call returns a handle on the same channel, never a new one.
    pub fn event_receiver(&self) -> (r: crossbeam_channel::Receiver<VfsEvent>)
        ensures
            r == self.event_rx,
    {
        clone_receiver(&self.event_rx)
    }

    /// Commits one event drained from the event stream: a removal unwatches
    /// its path, other events change no state. Committing never fails, so
    /// committing the same event twice is harmless.
    pub fn commit_event(&mut self, event: &VfsEvent) -> (r: Result<(), VfsError>)
        ensures
            r is Ok,
            match event {
                VfsEvent::Remove(p) => {
                    &&& !final(self).is_watched_spec(p@)
                    &&& forall|q: Seq<char>| q != p@ ==> #[trigger] final(self).is_watched_spec(q)
                        == old(self).is_watched_spec(q)
                    &&& final(self).backend == old(self).backend
                },
                _ => *final(self) == *old(self),
            },
    {
        match event {
            VfsEvent::Remove(p) => {
                self.unwatch(p);
            },
            _ => {},
        }
        Ok(())
    }
}

impl MemBackend {
    /// Fetches a copy of a file's bytes.
    fn get_file(&self, path: &String) -> (r: Result<Vec<u8>, VfsError>)
        ensures
            match r {
                Ok(d) => (self.entry_at(path@) matches Some(FsEntry::File(b)) && d@ == b@),
                Err(VfsError::NotFound(_)) => self.entry_at(path@) is None,
                Err(VfsError::Other(_)) => (self.entry_at(path@) matches Some(FsEntry::Dir(_))),
            },
            r is Ok <==> (self.entry_at(path@) matches Some(FsEntry::File(_))),
    {
        let n = self.entries.len();
        let mut i: usize = 0;
        while i < n
            invariant
                n == self.entries@.len(),
                0 <= i <= n,
                find_entry(self.entries@.take(i as int), path@) is None,
            decreases n - i,
        {
            proof {
                lemma_find_push(
                    self.entries@.take(i as int),
                    self.entries@[i as int],
                    path@,
                );
                assert(self.entries@.take(i as int + 1) =~= self.entries@.take(i as int).push(
                    self.entries@[i as int],
                ));
                lemma_find_split(self.entries@, path@, i as int + 1);
            }
            let e = &self.entries[i];
            if e.0 == *path {
                match &e.1 {
                    FsEntry::File(d) => {
                        return Ok(vstd::slice::slice_to_vec(d.as_slice()));
                    },
                    FsEntry::Dir(_) => {
                        return Err(VfsError::Other(path.clone()));
                    },
                }
            }
            i = i + 1;
        }
        proof {
            lemma_find_split(self.entries@, path@, n as int);
            assert(self.entries@.take(n as int) =~= self.entries@);
        }
        Err(VfsError::NotFound(path.clone()))
    }

    /// Reports whether the path holds a file (true), a directory (false), or
    /// nothing.
    fn get_kind(&self, path: &String) -> (r: Option<bool>)
        ensures
            match r {
                Some(b) => (b <==> (self.entry_at(path@) matches Some(FsEntry::File(_))))
                    && self.entry_at(path@) is Some,
                None => self.entry_at(path@) is None,
            },
    {
        let n = self.entries.len();
        let mut i: usize = 0;
        while i < n
            invariant
                n == self.entries@.len(),
                0 <= i <= n,
                find_entry(self.entries@.take(i as int), path@) is None,
            decreases n - i,
        {
            proof {
                lemma_find_push(
                    self.entries@.take(i as int),
                    self.entries@[i as int],
                    path@,
                );
                assert(self.entries@.take(i as int + 1) =~= self.entries@.take(i as int).push(
                    self.entries@[i as int],
                ));
                lemma_find_split(self.entries@, path@, i as int + 1);
            }
            let e = &self.entries[i];
            if e.0 == *path {
                match &e.1 {
                    FsEntry::File(_) => {
                        return Some(true);
                    },
                    FsEntry::Dir(_) => {
                        return Some(false);
                    },
                }
            }
            i = i + 1;
        }
        proof {
            lemma_find_split(self.entries@, path@, n as int);
            assert(self.entries@.take(n as int) =~= self.entries@);
        }
        None
    }

    /// Fetches a copy of a directory's listing.
    fn get_listing(&self, path: &String) -> (r: Result<Vec<String>, VfsError>)
        ensures
            match r {
                Ok(ps) => (self.entry_at(path@) matches Some(FsEntry::Dir(l)) && ps@ == l@),
                Err(VfsError::NotFound(_)) => self.entry_at(path@) is None,
                Err(VfsError::Other(_)) => (self.entry_at(path@) matches Some(FsEntry::File(_))),
            },
            r is Ok <==> (self.entry_at(path@) matches Some(FsEntry::Dir(_))),
    {
        let n = self.entries.len();
        let mut i: usize = 0;
        while i < n
            invariant
                n == self.entries@.len(),
                0 <= i <= n,
                find_entry(self.entries@.take(i as int), path@) is None,
            decreases n - i,
        {
            proof {
                lemma_find_push(
                    self.entries@.take(i as int),
                    self.entries@[i as int],
                    path@,
                );
                assert(self.entries@.take(i as int + 1) =~= self.entries@.take(i as int).push(
                    self.entries@[i as int],
                ));
                lemma_find_split(self.entries@, path@, i as int + 1);
            }
            let e = &self.entries[i];
            if e.0 == *path {
                match &e.1 {
                    FsEntry::Dir(l) => {
                        let mut out: Vec<String> = Vec::new();
                        let m = l.len();
                        let mut j: usize = 0;
                        while j < m
                            invariant
                                m == l@.len(),
                                0 <= j <= m,
                                out@.len() == j,
                                forall|x: int| 0 <= x < j ==> #[trigger] out@[x] == l@[x],
                            decreases m - j,
                        {
                            out.push(l[j].clone());
                            j = j + 1;
                        }
                        proof {
                            assert(out@ =~= l@);
                        }
                        return Ok(out);
                    },
                    FsEntry::File(_) => {
                        return Err(VfsError::Other(path.clone()));
                    },
                }
            }
            i = i + 1;
        }
        proof {
            lemma_find_split(self.entries@, path@, n as int);
            assert(self.entries@.take(n as int) =~= self.entries@);
        }
        Err(VfsError::NotFound(path.clone()))
    }

    /// Strikes a path from the entries, whatever it holds.
    fn drop_entry(&mut self, path: &String)
        ensures
            final(self).entry_at(path@) is None,
            forall|q: Seq<char>| q != path@ ==> #[trigger] final(self).entry_at(q) == old(
                self,
            ).entry_at(q),
    {
        self.remove_entry(path);
    }
}

} // verus!
