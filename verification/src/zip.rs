//! How the archive of a package becomes a zip file of the cache.
//!
//! The writer decides what is added to the zip file and when the file is closed and opened again;
//! it asks for one action at a time, and is told what came of it.

use crate::path;
use crate::time;
use vstd::prelude::*;
use vstd::slice::*;
use vstd::string::*;
use vstd::utf8::*;

verus! {

/// How much is added to a zip file before it is closed, so that the buffers are released.
pub const BATCH_SIZE: usize = 10_485_760;

/// The size from which on a file is not buffered.
pub const BIG_FILE_THRESHOLD: u64 = 2_097_152;

/// The mode of every directory.
pub const DIRECTORY_MODE: u16 = 0o755;

/// What an entry of the package's archive is.
#[derive(Debug, PartialEq, Eq, Clone, Copy, Structural)]
pub enum EntryKind {
    Regular,
    Directory,
    GlobalHeader,
    Other,
}

/// How a file is compressed.
#[derive(Debug, PartialEq, Eq, Clone, Copy, Structural)]
pub enum Compression {
    Default,
    Store,
    Deflate(u32),
}

/// How the contents of a file get into the zip file.
#[derive(Debug, PartialEq, Eq, Clone, Copy, Structural)]
pub enum Contents {
    /// They are read into a buffer.
    Buffered,
    /// They are read while the zip file is closed.
    Streamed { size: u64 },
}

/// What an entry adds to the zip file.
#[derive(Debug)]
pub enum Item {
    Nothing,
    File { name: Vec<u8>, contents: Contents, compression: Compression, mode: u16 },
    Directory { name: Vec<u8> },
    /// The entry cannot be added.
    Unsupported { name: Vec<u8> },
}

/// What is to be done next.
#[derive(Debug)]
pub enum Action {
    /// Open the zip file, which must not exist if it is to be created.
    Open { create: bool },
    /// Read the next entry.
    Read,
    /// Add the directories, then the item. All of them get the time.
    Add { directories: Vec<Vec<u8>>, directory_mode: u16, time: u32, item: Item },
    /// Close the zip file.
    Close,
    /// The zip file is written.
    Finish,
    /// The zip file cannot be written.
    Fail,
}

/// What came of adding an item.
#[derive(Debug, PartialEq, Eq, Clone, Copy, Structural)]
pub enum Outcome {
    Added,
    /// There is an item of that name.
    Exists,
    Failed,
}

/// An item that is being added.
#[derive(Debug, PartialEq, Eq, Clone, Copy, Structural)]
pub enum Pending {
    Nothing,
    Directory,
    Buffered { size: u64 },
    Streamed,
}

/// What the writer waits for.
#[derive(Debug, PartialEq, Eq, Clone, Copy, Structural)]
pub enum Phase {
    Opening,
    Reading,
    Adding { pending: Pending },
    Closing { last: bool },
    Finished,
    Failed,
}

/// What there is to know of a writer.
pub struct WriterState {
    pub package: Seq<u8>,
    pub compression: Option<u32>,
    /// The components of the directories that were added.
    pub included: Set<Seq<Seq<u8>>>,
    /// How much was added to the zip file since it was opened.
    pub batch: nat,
    pub phase: Phase,
}

/// Decides what is written to a zip file.
#[derive(Debug)]
pub struct ZipWriter {
    package: Vec<u8>,
    compression: Option<u32>,
    included: Vec<Vec<Vec<u8>>>,
    batch: usize,
    phase: Phase,
}

/// The components of several paths.
pub open spec fn all_names(v: Seq<Vec<Vec<u8>>>) -> Seq<Seq<Seq<u8>>> {
    v.map_values(|n: Vec<Vec<u8>>| path::names(n@))
}

impl View for ZipWriter {
    type V = WriterState;

    closed spec fn view(&self) -> WriterState {
        WriterState {
            package: self.package@,
            compression: self.compression,
            included: all_names(self.included@).to_set(),
            batch: self.batch as nat,
            phase: self.phase,
        }
    }
}

impl WriterState {
    /// What holds of every writer: while there is room for another entry the batch is not full, a
    /// buffered file is small, and no directory was added without the one it lies in.
    pub open spec fn is_valid(self) -> bool {
        &&& (self.phase is Reading || self.phase is Adding) ==> self.batch < BATCH_SIZE
        &&& self.phase matches Phase::Adding { pending: Pending::Buffered { size } } ==> size
            < BIG_FILE_THRESHOLD
        &&& is_closed(self.included)
    }
}

/// Whether a set of directories holds the one that each of them lies in.
pub open spec fn is_closed(included: Set<Seq<Seq<u8>>>) -> bool {
    forall|k: Seq<Seq<u8>>| #[trigger]
        included.contains(k) && k.len() > 1 ==> included.contains(k.drop_last())
}

/// The compression for a level.
pub open spec fn compression_for(level: Option<u32>) -> Compression {
    match level {
        None => Compression::Default,
        Some(0) => Compression::Store,
        Some(i) => Compression::Deflate(i),
    }
}

/// How the contents of a file of a size are added.
pub open spec fn contents_for(size: u64) -> Contents {
    if size >= BIG_FILE_THRESHOLD {
        Contents::Streamed { size }
    } else {
        Contents::Buffered
    }
}

/// The mode that a file gets. The owner may write if the owner could, and everybody may execute
/// or read if anybody could.
pub open spec fn permissions(mode: u32) -> int {
    (if mode & 0o200 != 0 {
        0o200int
    } else {
        0
    }) + (if mode & 0o111 != 0 {
        0o111int
    } else {
        0
    }) + (if mode & 0o444 != 0 {
        0o444int
    } else {
        0
    })
}

/// The path of an entry without its first component.
pub open spec fn stripped(raw: Seq<u8>) -> Seq<u8> {
    let names = path::components(raw);
    if names.len() == 0 {
        seq![]
    } else {
        path::joined_all(names.skip(1))
    }
}

/// Where an entry goes: what its path holds in `package/` lies in `node_modules/`, below the name
/// of the package.
pub open spec fn entry_path(package: Seq<u8>, raw: Seq<u8>) -> Seq<u8> {
    path::joined(path::joined(encode_utf8("node_modules/"@), package), stripped(raw))
}

/// The directories that a path lies in, the outermost first.
pub open spec fn above(p: Seq<u8>) -> Seq<Seq<u8>> {
    match path::parent(p) {
        Some(dir) => path::lineage(dir),
        None => seq![],
    }
}

/// The directories that were not added yet.
pub open spec fn fresh(included: Set<Seq<Seq<u8>>>, dirs: Seq<Seq<u8>>) -> Seq<Seq<u8>> {
    dirs.filter(|d: Seq<u8>| !included.contains(path::components(d)))
}

/// The directories with those that were added now.
pub open spec fn with_all(included: Set<Seq<Seq<u8>>>, dirs: Seq<Seq<u8>>) -> Set<Seq<Seq<u8>>> {
    included.union(dirs.map_values(|d: Seq<u8>| path::components(d)).to_set())
}

/// The directories that are known with an entry at path `p`.
pub open spec fn known_with(included: Set<Seq<Seq<u8>>>, p: Seq<u8>, kind: EntryKind) -> Set<
    Seq<Seq<u8>>,
> {
    if kind == EntryKind::Directory {
        with_all(included, above(p)).insert(path::components(p))
    } else {
        with_all(included, above(p))
    }
}

/// The names of directories in a zip file.
pub open spec fn directory_names(dirs: Seq<Seq<u8>>) -> Seq<Seq<u8>> {
    dirs.map_values(|d: Seq<u8>| d.push(path::SLASH))
}

/// The texts of an item.
pub enum ItemText {
    Nothing,
    File { name: Seq<u8>, contents: Contents, compression: Compression, mode: int },
    Directory { name: Seq<u8> },
    Unsupported { name: Seq<u8> },
}

/// What is added for an entry.
pub struct AddText {
    pub directories: Seq<Seq<u8>>,
    pub directory_mode: u16,
    pub time: u32,
    pub item: ItemText,
}

impl Item {
    /// The texts of the item.
    pub open spec fn text(self) -> ItemText {
        match self {
            Item::Nothing => ItemText::Nothing,
            Item::File { name, contents, compression, mode } => ItemText::File {
                name: name@,
                contents,
                compression,
                mode: mode as int,
            },
            Item::Directory { name } => ItemText::Directory { name: name@ },
            Item::Unsupported { name } => ItemText::Unsupported { name: name@ },
        }
    }
}

impl Action {
    /// What is to be added.
    pub open spec fn added(self) -> Option<AddText> {
        match self {
            Action::Add { directories, directory_mode, time, item } => Some(
                AddText {
                    directories: path::names(directories@),
                    directory_mode,
                    time,
                    item: item.text(),
                },
            ),
            _ => None,
        }
    }
}

/// The item that an entry adds at path `p`, in a zip file with the directories.
pub open spec fn item_for(
    p: Seq<u8>,
    mode: u32,
    kind: EntryKind,
    size: u64,
    level: Option<u32>,
    included: Set<Seq<Seq<u8>>>,
) -> ItemText {
    match kind {
        EntryKind::Regular => ItemText::File {
            name: p,
            contents: contents_for(size),
            compression: compression_for(level),
            mode: permissions(mode),
        },
        EntryKind::Directory => if included.contains(path::components(p)) {
            ItemText::Nothing
        } else {
            ItemText::Directory { name: p }
        },
        EntryKind::GlobalHeader => ItemText::Nothing,
        EntryKind::Other => ItemText::Unsupported { name: p },
    }
}

/// What an entry of a package adds to a zip file with the directories: those above it that are not
/// there, and the item. Nothing but its path, mode, kind and size counts.
pub open spec fn plan(
    package: Seq<u8>,
    level: Option<u32>,
    included: Set<Seq<Seq<u8>>>,
    raw: Seq<u8>,
    mode: u32,
    kind: EntryKind,
    size: u64,
) -> AddText {
    let p = entry_path(package, raw);
    AddText {
        directories: directory_names(fresh(included, above(p))),
        directory_mode: DIRECTORY_MODE,
        time: time::SAFE_TIME,
        item: item_for(p, mode, kind, size, level, with_all(included, above(p))),
    }
}

/// What the writer waits for once an item was handed out.
pub open spec fn phase_for(item: ItemText, size: u64) -> Phase {
    match item {
        ItemText::Nothing => Phase::Adding { pending: Pending::Nothing },
        ItemText::Directory { .. } => Phase::Adding { pending: Pending::Directory },
        ItemText::File { contents: Contents::Buffered, .. } => Phase::Adding {
            pending: Pending::Buffered { size },
        },
        ItemText::File { .. } => Phase::Adding { pending: Pending::Streamed },
        ItemText::Unsupported { .. } => Phase::Failed,
    }
}

/// Whether the item counts as added: a file that is there already is left as it is.
pub open spec fn is_accepted(pending: Pending, outcome: Outcome) -> bool {
    match pending {
        Pending::Nothing => true,
        Pending::Directory => outcome == Outcome::Added,
        Pending::Buffered { .. } => outcome != Outcome::Failed,
        Pending::Streamed => outcome != Outcome::Failed,
    }
}

/// How much an item adds to the batch.
pub open spec fn weight(pending: Pending, bytes: nat) -> nat {
    if pending is Buffered {
        bytes
    } else {
        0
    }
}

/// The mode of a file in a zip file.
pub fn file_mode(mode: u32) -> (r: u16)
    ensures
        r == permissions(mode),
{
    let low = #[verifier::truncate]
    (mode as u16);
    let exec: u16 = if mode & 0o111 != 0 {
        0o111
    } else {
        0
    };
    let read: u16 = if mode & 0o444 != 0 {
        0o444
    } else {
        0
    };
    let r = low & 0o755 | exec | read;
    assert(r == (if mode & 0o200 != 0 {
        0o200u16
    } else {
        0u16
    }) + (if mode & 0o111 != 0 {
        0o111u16
    } else {
        0u16
    }) + (if mode & 0o444 != 0 {
        0o444u16
    } else {
        0u16
    })) by (bit_vector)
        requires
            low == mode as u16,
            exec == (if mode & 0o111 != 0 {
                0o111u16
            } else {
                0u16
            }),
            read == (if mode & 0o444 != 0 {
                0o444u16
            } else {
                0u16
            }),
            r == low & 0o755 | exec | read,
    ;
    r
}

/// Decides where an entry goes.
pub fn zip_path(package: &[u8], raw: &[u8]) -> (r: Vec<u8>)
    ensures
        r@ == entry_path(package@, raw@),
{
    let names = path::split(raw);
    let rest = if names.len() == 0 {
        let rest: Vec<u8> = Vec::new();
        assert(rest@ =~= seq![]);
        rest
    } else {
        let tail = slice_subrange(names.as_slice(), 1, names.len());
        assert(path::names(tail@) =~= path::names(names@).skip(1));
        path::join_all(tail)
    };
    let top = path::join("node_modules/".as_bytes(), package);
    path::join(top.as_slice(), rest.as_slice())
}

/// Whether two paths have the same components.
fn same_names(a: &[Vec<u8>], b: &[Vec<u8>]) -> (r: bool)
    ensures
        r == (path::names(a@) == path::names(b@)),
{
    if a.len() != b.len() {
        assert(path::names(a@).len() != path::names(b@).len());
        return false;
    }
    let mut i: usize = 0;
    while i < a.len()
        invariant
            i <= a@.len(),
            a@.len() == b@.len(),
            forall|k: int| 0 <= k < i ==> (#[trigger] a@[k])@ == b@[k]@,
        decreases a@.len() - i,
    {
        if !same_bytes(a[i].as_slice(), b[i].as_slice()) {
            assert(path::names(a@)[i as int] != path::names(b@)[i as int]);
            return false;
        }
        i = i + 1;
    }
    assert(path::names(a@) =~= path::names(b@));
    true
}

/// Whether bytes are equal.
fn same_bytes(a: &[u8], b: &[u8]) -> (r: bool)
    ensures
        r == (a@ == b@),
{
    if a.len() != b.len() {
        return false;
    }
    let mut i: usize = 0;
    while i < a.len()
        invariant
            i <= a@.len(),
            a@.len() == b@.len(),
            forall|k: int| 0 <= k < i ==> a@[k] == b@[k],
        decreases a@.len() - i,
    {
        if a[i] != b[i] {
            return false;
        }
        i = i + 1;
    }
    assert(a@ =~= b@);
    true
}

impl ZipWriter {
    /// A writer for a package that is yet to be written, and the first action.
    pub fn new(package_name: &str, compression: Option<u32>) -> (r: (ZipWriter, Action))
        ensures
            r.0@.is_valid(),
            r.0@.package == encode_utf8(package_name@),
            r.0@.compression == compression,
            r.0@.included == Set::<Seq<Seq<u8>>>::empty(),
            r.0@.batch == 0,
            r.0@.phase == Phase::Opening,
            r.1 == (Action::Open { create: true }),
    {
        let writer = ZipWriter {
            package: path::copied(package_name.as_bytes()),
            compression,
            included: Vec::new(),
            batch: 0,
            phase: Phase::Opening,
        };
        assert(writer@.included =~= Set::<Seq<Seq<u8>>>::empty());
        (writer, Action::Open { create: true })
    }

    /// The zip file is open.
    pub fn opened(&mut self) -> (r: Action)
        requires
            old(self)@.is_valid(),
            old(self)@.phase == Phase::Opening,
        ensures
            final(self)@.is_valid(),
            final(self)@ == (WriterState { batch: 0, phase: Phase::Reading, ..old(self)@ }),
            r is Read,
    {
        self.batch = 0;
        self.phase = Phase::Reading;
        Action::Read
    }

    /// There are no more entries.
    pub fn ended(&mut self) -> (r: Action)
        requires
            old(self)@.is_valid(),
            old(self)@.phase == Phase::Reading,
        ensures
            final(self)@.is_valid(),
            final(self)@ == (WriterState { phase: Phase::Closing { last: true }, ..old(self)@ }),
            r is Close,
    {
        self.phase = Phase::Closing { last: true };
        Action::Close
    }

    /// The zip file is closed.
    pub fn closed(&mut self) -> (r: Action)
        requires
            old(self)@.is_valid(),
            old(self)@.phase is Closing,
        ensures
            final(self)@.is_valid(),
            old(self)@.phase == (Phase::Closing { last: true }) ==> r is Finish && final(self)@ == (
            WriterState { phase: Phase::Finished, ..old(self)@ }),
            old(self)@.phase == (Phase::Closing { last: false }) ==> r == (Action::Open {
                create: false,
            }) && final(self)@ == (WriterState { phase: Phase::Opening, ..old(self)@ }),
    {
        if self.phase == (Phase::Closing { last: true }) {
            self.phase = Phase::Finished;
            Action::Finish
        } else {
            self.phase = Phase::Opening;
            Action::Open { create: false }
        }
    }

    /// The item was added, or could not be. If it was buffered, `bytes` were read.
    pub fn added(&mut self, bytes: usize, outcome: Outcome) -> (r: Action)
        requires
            old(self)@.is_valid(),
            old(self)@.phase is Adding,
            old(self)@.batch + weight(old(self)@.phase->pending, bytes as nat) <= usize::MAX,
        ensures
            final(self)@.is_valid(),
            ({
                let pending = old(self)@.phase->pending;
                let batch = old(self)@.batch + weight(pending, bytes as nat);
                if !is_accepted(pending, outcome) {
                    r is Fail && final(self)@ == (WriterState {
                        phase: Phase::Failed,
                        ..old(self)@
                    })
                } else if pending is Streamed || batch >= BATCH_SIZE {
                    r is Close && final(self)@ == (WriterState {
                        batch,
                        phase: Phase::Closing { last: false },
                        ..old(self)@
                    })
                } else {
                    r is Read && final(self)@ == (WriterState {
                        batch,
                        phase: Phase::Reading,
                        ..old(self)@
                    })
                }
            }),
    {
        let pending = match self.phase {
            Phase::Adding { pending } => pending,
            _ => Pending::Nothing,
        };
        let accepted = match pending {
            Pending::Nothing => true,
            Pending::Directory => outcome == Outcome::Added,
            Pending::Buffered { .. } => outcome != Outcome::Failed,
            Pending::Streamed => outcome != Outcome::Failed,
        };
        if !accepted {
            self.phase = Phase::Failed;
            return Action::Fail;
        }
        let must_flush = match pending {
            Pending::Streamed => true,
            Pending::Buffered { .. } => {
                self.batch = self.batch + bytes;
                false
            },
            _ => false,
        };
        if must_flush || self.batch >= BATCH_SIZE {
            self.phase = Phase::Closing { last: false };
            Action::Close
        } else {
            self.phase = Phase::Reading;
            Action::Read
        }
    }

    /// Whether a directory was added.
    fn has(&self, names: &[Vec<u8>]) -> (r: bool)
        ensures
            r == self@.included.contains(path::names(names@)),
    {
        let ghost all = all_names(self.included@);
        let mut i: usize = 0;
        while i < self.included.len()
            invariant
                i <= self.included@.len(),
                all == all_names(self.included@),
                forall|k: int| 0 <= k < i ==> #[trigger] all[k] != path::names(names@),
            decreases self.included@.len() - i,
        {
            if same_names(self.included[i].as_slice(), names) {
                assert(all[i as int] == path::names(names@));
                return true;
            }
            assert(all[i as int] != path::names(names@));
            i = i + 1;
        }
        false
    }

    /// Whether the batch can be counted with so many bytes more.
    pub fn can_hold(&self, bytes: usize) -> (r: bool)
        ensures
            r == (self@.batch + bytes <= usize::MAX),
    {
        bytes <= usize::MAX - self.batch
    }

    /// Remembers a directory.
    fn insert(&mut self, names: Vec<Vec<u8>>)
        ensures
            final(self)@ == (WriterState {
                included: old(self)@.included.insert(path::names(names@)),
                ..old(self)@
            }),
    {
        let ghost before = self.included@;
        self.included.push(names);
        proof {
            let after = self.included@;
            let k = path::names(names@);
            assert(all_names(after) =~= all_names(before).push(k));
            assert forall|x: Seq<Seq<u8>>|
                all_names(after).to_set().contains(x) == all_names(before).to_set().insert(
                    k,
                ).contains(x) by {
                if all_names(before).contains(x) {
                    let i = choose|i: int|
                        0 <= i < all_names(before).len() && all_names(before)[i] == x;
                    assert(all_names(after)[i] == x);
                }
                if x == k {
                    assert(all_names(after)[before.len() as int] == k);
                }
            }
            assert(all_names(after).to_set() =~= all_names(before).to_set().insert(k));
        }
    }

    /// Finds those of a directory and the ones above it that are still to be added, the outermost
    /// first, and remembers them. The empty path is no directory.
    pub fn add_ancestors(&mut self, dir: &[u8]) -> (r: Vec<Vec<u8>>)
        ensures
            path::names(r@) == directory_names(fresh(old(self)@.included, path::lineage(dir@))),
            final(self)@ == (WriterState {
                included: with_all(old(self)@.included, path::lineage(dir@)),
                ..old(self)@
            }),
    {
        let dirs = path::lineage_of(dir);
        let ghost all = path::names(dirs@);
        let ghost seen = self@.included;
        let ghost is_fresh = |d: Seq<u8>| !seen.contains(path::components(d));
        let mut r: Vec<Vec<u8>> = Vec::new();
        let mut i: usize = 0;
        proof {
            reveal(Seq::filter);
            assert(all.take(0) =~= seq![]);
            assert(with_all(seen, all.take(0)) =~= seen);
            assert(path::names(r@) =~= directory_names(all.take(0).filter(is_fresh)));
        }
        while i < dirs.len()
            invariant
                i <= dirs@.len(),
                all == path::names(dirs@),
                all == path::lineage(dir@),
                is_fresh == (|d: Seq<u8>| !seen.contains(path::components(d))),
                path::names(r@) == directory_names(all.take(i as int).filter(is_fresh)),
                self@ == (WriterState {
                    included: with_all(seen, all.take(i as int)),
                    ..old(self)@
                }),
            decreases dirs@.len() - i,
        {
            let names = path::split(dirs[i].as_slice());
            let ghost d = all[i as int];
            let ghost before = all.take(i as int);
            let ghost after = all.take(i + 1);
            let ghost names_before = r@;
            proof {
                assert(after.drop_last() =~= before);
                assert(after =~= before.push(d));
                lemma_lineage_is_distinct(dir@, i as int);
                lemma_with_all_push(seen, before, d);
                reveal(Seq::filter);
            }
            if !self.has(names.as_slice()) {
                let mut name = path::copied(dirs[i].as_slice());
                name.push(path::SLASH);
                self.insert(names);
                r.push(name);
                assert(path::names(r@) =~= path::names(names_before).push(d.push(path::SLASH)));
                assert(after.filter(is_fresh) =~= before.filter(is_fresh).push(d));
                assert(directory_names(after.filter(is_fresh)) =~= directory_names(
                    before.filter(is_fresh),
                ).push(d.push(path::SLASH)));
            } else {
                assert(after.filter(is_fresh) =~= before.filter(is_fresh));
                assert(with_all(seen, after) =~= with_all(seen, before));
            }
            i = i + 1;
        }
        assert(all.take(i as int) =~= all);
        r
    }

    /// An entry was read: decides what it adds.
    pub fn entry(&mut self, raw: &[u8], mode: u32, kind: EntryKind, size: u64) -> (r: Action)
        requires
            old(self)@.is_valid(),
            old(self)@.phase == Phase::Reading,
        ensures
            final(self)@.is_valid(),
            ({
                let state = old(self)@;
                let add = plan(
                    state.package,
                    state.compression,
                    state.included,
                    raw@,
                    mode,
                    kind,
                    size,
                );
                &&& r.added() == Some(add)
                &&& final(self)@ == (WriterState {
                    included: known_with(
                        state.included,
                        entry_path(state.package, raw@),
                        kind,
                    ),
                    phase: phase_for(add.item, size),
                    ..state
                })
            }),
    {
        let p = zip_path(self.package.as_slice(), raw);
        let directories = match path::parent_of(p.as_slice()) {
            Some(dir) => self.add_ancestors(dir.as_slice()),
            None => Vec::new(),
        };
        proof {
            lemma_nothing_above(old(self)@.included);
            assert(path::names(directories@) =~= directory_names(
                fresh(old(self)@.included, above(p@)),
            ));
            lemma_closed(old(self)@.included, p@);
        }
        let item = match kind {
            EntryKind::GlobalHeader => Item::Nothing,
            EntryKind::Regular => Item::File {
                name: p,
                contents: if size >= BIG_FILE_THRESHOLD {
                    Contents::Streamed { size }
                } else {
                    Contents::Buffered
                },
                compression: match self.compression {
                    None => Compression::Default,
                    Some(0) => Compression::Store,
                    Some(i) => Compression::Deflate(i),
                },
                mode: file_mode(mode),
            },
            EntryKind::Directory => {
                let names = path::split(p.as_slice());
                if self.has(names.as_slice()) {
                    assert(self@.included =~= self@.included.insert(path::components(p@)));
                    Item::Nothing
                } else {
                    self.insert(names);
                    Item::Directory { name: p }
                }
            },
            EntryKind::Other => Item::Unsupported { name: p },
        };
        self.phase = match &item {
            Item::Nothing => Phase::Adding { pending: Pending::Nothing },
            Item::Directory { .. } => Phase::Adding { pending: Pending::Directory },
            Item::File { contents, .. } => match contents {
                Contents::Buffered => Phase::Adding { pending: Pending::Buffered { size } },
                Contents::Streamed { .. } => Phase::Adding { pending: Pending::Streamed },
            },
            Item::Unsupported { .. } => Phase::Failed,
        };
        Action::Add { directories, directory_mode: DIRECTORY_MODE, time: time::safe_time(), item }
    }
}

proof fn lemma_with_all_push(included: Set<Seq<Seq<u8>>>, dirs: Seq<Seq<u8>>, d: Seq<u8>)
    ensures
        with_all(included, dirs.push(d)) == with_all(included, dirs).insert(path::components(d)),
{
    let f = |d: Seq<u8>| path::components(d);
    let a = dirs.map_values(f);
    let b = dirs.push(d).map_values(f);
    assert(b =~= a.push(path::components(d)));
    assert forall|x: Seq<Seq<u8>>| b.to_set().contains(x) == a.to_set().insert(
        path::components(d),
    ).contains(x) by {
        if a.contains(x) {
            let i = choose|i: int| 0 <= i < a.len() && a[i] == x;
            assert(b[i] == x);
        }
        if x == path::components(d) {
            assert(b[a.len() as int] == x);
        }
    }
    assert(with_all(included, dirs.push(d)) =~= with_all(included, dirs).insert(
        path::components(d),
    ));
}

/// Without directories nothing is added.
proof fn lemma_nothing_above(included: Set<Seq<Seq<u8>>>)
    ensures
        fresh(included, seq![]) == Seq::<Seq<u8>>::empty(),
        with_all(included, seq![]) == included,
{
    reveal(Seq::filter);
    assert(fresh(included, seq![]) =~= Seq::<Seq<u8>>::empty());
    assert(with_all(included, seq![]) =~= included);
}

/// A directory and the ones above it differ from each other.
proof fn lemma_lineage_is_distinct(dir: Seq<u8>, i: int)
    requires
        0 <= i < path::lineage(dir).len(),
    ensures
        forall|j: int|
            0 <= j < path::lineage(dir).len() && j != i ==> path::components(
                #[trigger] path::lineage(dir)[j],
            ) != path::components(path::lineage(dir)[i]),
        !path::lineage(dir).take(i).map_values(|d: Seq<u8>| path::components(d)).contains(
            path::components(path::lineage(dir)[i]),
        ),
{
    let dirs = path::lineage(dir);
    path::lemma_lineage_components(dir, i);
    assert(path::components(dirs[i]).len() == i + 1);
    assert forall|j: int| 0 <= j < dirs.len() && j != i implies path::components(
        #[trigger] dirs[j],
    ) != path::components(dirs[i]) by {
        path::lemma_lineage_components(dir, j);
        assert(path::components(dirs[j]).len() == j + 1);
    }
    let t = dirs.take(i).map_values(|d: Seq<u8>| path::components(d));
    if t.contains(path::components(dirs[i])) {
        let j = choose|j: int| 0 <= j < t.len() && t[j] == path::components(dirs[i]);
        assert(dirs.take(i)[j] == dirs[j]);
    }
}

/// With all directories above a path, a closed set stays closed, and so it does with the path.
proof fn lemma_closed(included: Set<Seq<Seq<u8>>>, p: Seq<u8>)
    requires
        is_closed(included),
    ensures
        is_closed(with_all(included, above(p))),
        is_closed(with_all(included, above(p)).insert(path::components(p))),
{
    let f = |d: Seq<u8>| path::components(d);
    let dirs = above(p);
    let keys = dirs.map_values(f);
    let all = with_all(included, dirs);
    assert forall|k: Seq<Seq<u8>>| #[trigger] all.contains(k) && k.len() > 1 implies all.contains(
        k.drop_last(),
    ) by {
        if !included.contains(k) {
            assert(keys.contains(k));
            let i = choose|i: int| 0 <= i < keys.len() && keys[i] == k;
            let dir = path::parent(p)->0;
            path::lemma_lineage_components(dir, i);
            assert(k == path::components(dir).take(i + 1));
            assert(k.len() == i + 1);
            path::lemma_lineage_components(dir, i - 1);
            assert(keys[i - 1] =~= k.drop_last());
            assert(keys.to_set().contains(keys[i - 1]));
        }
    }
    let more = all.insert(path::components(p));
    let k = path::components(p);
    if k.len() > 1 {
        assert(path::ranges(p).len() > 1);
        let dir = path::parent(p)->0;
        path::lemma_parent(p);
        let last = dirs.len() - 1;
        path::lemma_lineage_components(dir, last);
        assert(path::components(dir).take(last + 1) =~= path::components(dir));
        assert(keys[last] == k.drop_last());
        assert(keys.to_set().contains(keys[last]));
    }
    assert(is_closed(more));
}

/// The new ones of a directory and those above it, outermost first: how they stand among all of them.
proof fn lemma_fresh_in(included: Set<Seq<Seq<u8>>>, dir: Seq<u8>, n: int)
    requires
        0 <= n <= path::lineage(dir).len(),
    ensures
        ({
            let dirs = path::lineage(dir).take(n);
            let new = fresh(included, dirs);
            &&& forall|i: int|
                0 <= i < new.len() ==> !included.contains(path::components(#[trigger] new[i]))
                    && 1 <= path::components(new[i]).len() <= n && new[i] == path::lineage(dir)[path::components(
                    new[i],
                ).len() - 1]
            &&& forall|i: int, j: int|
                0 <= i < j < new.len() ==> path::components(#[trigger] new[i]).len()
                    < path::components(#[trigger] new[j]).len()
            &&& forall|k: int|
                0 <= k < n && !included.contains(path::components(#[trigger] path::lineage(dir)[k]))
                    ==> new.contains(path::lineage(dir)[k])
        }),
    decreases n,
{
    reveal(Seq::filter);
    let is_fresh = |d: Seq<u8>| !included.contains(path::components(d));
    let dirs = path::lineage(dir).take(n);
    let new = fresh(included, dirs);
    if n > 0 {
        lemma_fresh_in(included, dir, n - 1);
        let before = path::lineage(dir).take(n - 1);
        let old_new = fresh(included, before);
        let d = path::lineage(dir)[n - 1];
        assert(dirs.drop_last() =~= before);
        path::lemma_lineage_components(dir, n - 1);
        assert(path::components(d).len() == n);
        assert(new == if is_fresh(d) {
            old_new.push(d)
        } else {
            old_new
        });
        assert forall|k: int|
            0 <= k < n && !included.contains(
                path::components(#[trigger] path::lineage(dir)[k]),
            ) implies new.contains(path::lineage(dir)[k]) by {
            if k < n - 1 {
                assert(old_new.contains(path::lineage(dir)[k]));
                let i = choose|i: int| 0 <= i < old_new.len() && old_new[i] == path::lineage(dir)[k];
                assert(new[i] == path::lineage(dir)[k]);
            } else {
                assert(new[old_new.len() as int] == d);
            }
        }
    }
}

/// The new directories above a path, outermost first: how they stand among all of them.
proof fn lemma_fresh(included: Set<Seq<Seq<u8>>>, p: Seq<u8>, n: int)
    requires
        0 <= n <= above(p).len(),
    ensures
        ({
            let dirs = above(p).take(n);
            let new = fresh(included, dirs);
            &&& forall|i: int|
                0 <= i < new.len() ==> !included.contains(path::components(#[trigger] new[i]))
                    && 1 <= path::components(new[i]).len() <= n && new[i] == above(p)[path::components(
                    new[i],
                ).len() - 1]
            &&& forall|i: int, j: int|
                0 <= i < j < new.len() ==> path::components(#[trigger] new[i]).len()
                    < path::components(#[trigger] new[j]).len()
            &&& forall|k: int|
                0 <= k < n && !included.contains(path::components(#[trigger] above(p)[k]))
                    ==> new.contains(above(p)[k])
        }),
{
    match path::parent(p) {
        Some(dir) => lemma_fresh_in(included, dir, n),
        None => {
            assert(above(p).take(n) =~= seq![]);
            lemma_nothing_above(included);
        },
    }
}

/// No more than the batch and one small file is held in memory: what was read of a buffered file is
/// no more than its size.
pub proof fn law_batches_are_bounded(state: WriterState, bytes: nat)
    requires
        state.is_valid(),
        state.phase is Adding,
        state.phase matches Phase::Adding { pending: Pending::Buffered { size } } ==> bytes <= size,
    ensures
        state.batch + weight(state.phase->pending, bytes) < BATCH_SIZE + BIG_FILE_THRESHOLD,
{
}

/// A directory is added once: those that an entry adds were not added before, are remembered,
/// and differ from one another.
pub proof fn law_directories_are_added_once(included: Set<Seq<Seq<u8>>>, p: Seq<u8>)
    ensures
        ({
            let new = fresh(included, above(p));
            &&& forall|i: int|
                0 <= i < new.len() ==> !included.contains(path::components(#[trigger] new[i]))
                    && with_all(included, above(p)).contains(path::components(new[i]))
            &&& forall|i: int, j: int|
                0 <= i < j < new.len() ==> path::components(#[trigger] new[i])
                    != path::components(#[trigger] new[j])
        }),
{
    let dirs = above(p);
    let new = fresh(included, dirs);
    lemma_fresh(included, p, dirs.len() as int);
    assert(dirs.take(dirs.len() as int) =~= dirs);
    let keys = dirs.map_values(|d: Seq<u8>| path::components(d));
    assert forall|i: int| 0 <= i < new.len() implies with_all(included, dirs).contains(
        path::components(#[trigger] new[i]),
    ) by {
        let k = path::components(new[i]).len() - 1;
        assert(keys[k] == path::components(new[i]));
        assert(keys.to_set().contains(keys[k]));
    }
}

/// A directory is added after the one that it lies in.
pub proof fn law_directories_come_after_their_parents(
    included: Set<Seq<Seq<u8>>>,
    p: Seq<u8>,
    i: int,
)
    requires
        0 <= i < fresh(included, above(p)).len(),
    ensures
        ({
            let new = fresh(included, above(p));
            let names = path::components(new[i]);
            names.len() > 1 ==> (included.contains(names.drop_last()) || exists|j: int|
                0 <= j < i && path::components(#[trigger] new[j]) == names.drop_last())
        }),
{
    let dirs = above(p);
    let new = fresh(included, dirs);
    lemma_fresh(included, p, dirs.len() as int);
    assert(dirs.take(dirs.len() as int) =~= dirs);
    let names = path::components(new[i]);
    if names.len() > 1 && !included.contains(names.drop_last()) {
        let dir = path::parent(p)->0;
        let k = names.len() - 2;
        path::lemma_lineage_components(dir, k);
        path::lemma_lineage_components(dir, k + 1);
        assert(path::components(dirs[k]) =~= names.drop_last());
        assert(new.contains(dirs[k]));
        let j = choose|j: int| 0 <= j < new.len() && new[j] == dirs[k];
        assert(path::components(new[j]) == names.drop_last());
        assert(j < i);
    }
}

/// The directory that an entry lies in is there when the entry is added.
pub proof fn law_entries_lie_in_directories(included: Set<Seq<Seq<u8>>>, p: Seq<u8>)
    requires
        path::components(p).len() > 1,
    ensures
        with_all(included, above(p)).contains(path::components(p).drop_last()),
{
    let dir = path::parent(p)->0;
    path::lemma_parent(p);
    let last = above(p).len() - 1;
    path::lemma_lineage_components(dir, last);
    assert(path::components(dir).take(last + 1) =~= path::components(dir));
    let keys = above(p).map_values(|d: Seq<u8>| path::components(d));
    assert(keys[last] == path::components(p).drop_last());
    assert(keys.to_set().contains(keys[last]));
}

/// The directories that are known after entries of a package, given by their paths and kinds.
pub open spec fn included_after(package: Seq<u8>, es: Seq<(Seq<u8>, EntryKind)>) -> Set<
    Seq<Seq<u8>>,
>
    decreases es.len(),
{
    if es.len() == 0 {
        Set::empty()
    } else {
        known_with(
            included_after(package, es.drop_last()),
            entry_path(package, es.last().0),
            es.last().1,
        )
    }
}

/// The directories that an entry adds: those above it, and itself if it is one.
pub open spec fn added_by(included: Set<Seq<Seq<u8>>>, p: Seq<u8>, kind: EntryKind) -> Seq<
    Seq<u8>,
> {
    let new = fresh(included, above(p));
    if kind == EntryKind::Directory && !with_all(included, above(p)).contains(
        path::components(p),
    ) {
        new.push(p)
    } else {
        new
    }
}

/// The directories that entries of a package add to the zip file, in their order.
pub open spec fn directories_of(package: Seq<u8>, es: Seq<(Seq<u8>, EntryKind)>) -> Seq<Seq<u8>>
    decreases es.len(),
{
    if es.len() == 0 {
        seq![]
    } else {
        directories_of(package, es.drop_last()) + added_by(
            included_after(package, es.drop_last()),
            entry_path(package, es.last().0),
            es.last().1,
        )
    }
}

/// What an entry adds was not known, is known then, and comes after the directory it lies in.
proof fn lemma_added(included: Set<Seq<Seq<u8>>>, p: Seq<u8>, kind: EntryKind)
    ensures
        ({
            let new = added_by(included, p, kind);
            &&& forall|i: int|
                0 <= i < new.len() ==> !included.contains(path::components(#[trigger] new[i]))
            &&& forall|i: int, j: int|
                0 <= i < j < new.len() ==> path::components(#[trigger] new[i])
                    != path::components(#[trigger] new[j])
            &&& forall|i: int|
                0 <= i < new.len() && path::components(#[trigger] new[i]).len() > 1
                    ==> included.contains(path::components(new[i]).drop_last()) || exists|j: int|
                    0 <= j < i && path::components(#[trigger] new[j]) == path::components(
                        new[i],
                    ).drop_last()
            &&& forall|k: Seq<Seq<u8>>| #[trigger]
                known_with(included, p, kind).contains(k) <==> included.contains(k) || exists|i: int|
                    0 <= i < new.len() && path::components(#[trigger] new[i]) == k
        }),
{
    let dirs = above(p);
    let top = fresh(included, dirs);
    let new = added_by(included, p, kind);
    let keys = dirs.map_values(|d: Seq<u8>| path::components(d));
    law_directories_are_added_once(included, p);
    lemma_fresh(included, p, dirs.len() as int);
    assert(dirs.take(dirs.len() as int) =~= dirs);
    assert forall|i: int| 0 <= i < top.len() implies #[trigger] top[i] == new[i] by {}
    assert forall|i: int| 0 <= i < new.len() && path::components(#[trigger] new[i]).len() > 1
        && !included.contains(path::components(new[i]).drop_last()) implies exists|j: int|
        0 <= j < i && path::components(#[trigger] new[j]) == path::components(new[i]).drop_last() by {
        if i < top.len() {
            law_directories_come_after_their_parents(included, p, i);
            let j = choose|j: int|
                0 <= j < i && path::components(#[trigger] top[j]) == path::components(
                    top[i],
                ).drop_last();
            assert(path::components(new[j]) == path::components(new[i]).drop_last());
        } else {
            law_entries_lie_in_directories(included, p);
            let k = path::components(p).drop_last();
            assert(keys.contains(k));
            let n = choose|n: int| 0 <= n < keys.len() && keys[n] == k;
            assert(path::components(dirs[n]) == k);
            assert(top.contains(dirs[n]));
            let j = choose|j: int| 0 <= j < top.len() && top[j] == dirs[n];
            assert(path::components(new[j]) == k);
        }
    }
    let with = with_all(included, dirs);
    assert forall|k: Seq<Seq<u8>>| #[trigger] with.contains(k) implies included.contains(k)
        || exists|i: int| 0 <= i < top.len() && path::components(#[trigger] top[i]) == k by {
        if !included.contains(k) {
            assert(keys.contains(k));
            let n = choose|n: int| 0 <= n < keys.len() && keys[n] == k;
            assert(path::components(dirs[n]) == k);
            assert(top.contains(dirs[n]));
            let j = choose|j: int| 0 <= j < top.len() && top[j] == dirs[n];
            assert(path::components(top[j]) == k);
        }
    }
    let all = known_with(included, p, kind);
    assert forall|k: Seq<Seq<u8>>| #[trigger] all.contains(k) implies included.contains(k)
        || exists|i: int| 0 <= i < new.len() && path::components(#[trigger] new[i]) == k by {
        if with.contains(k) {
            if !included.contains(k) {
                let i = choose|i: int|
                    0 <= i < top.len() && path::components(#[trigger] top[i]) == k;
                assert(path::components(new[i]) == k);
            }
        } else {
            assert(path::components(new[top.len() as int]) == k);
        }
    }
    assert forall|i: int| 0 <= i < new.len() implies all.contains(
        path::components(#[trigger] new[i]),
    ) by {
        if i < top.len() {
            assert(with.contains(path::components(top[i])));
        }
    }
}

/// In the zip file of a package every directory stands once, and after the directory that it lies
/// in.
pub proof fn law_zip_files_are_well_ordered(package: Seq<u8>, es: Seq<(Seq<u8>, EntryKind)>)
    ensures
        ({
            let dirs = directories_of(package, es);
            &&& forall|i: int, j: int|
                0 <= i < j < dirs.len() ==> path::components(#[trigger] dirs[i])
                    != path::components(#[trigger] dirs[j])
            &&& forall|i: int|
                0 <= i < dirs.len() && path::components(#[trigger] dirs[i]).len() > 1
                    ==> exists|j: int|
                    0 <= j < i && path::components(#[trigger] dirs[j]) == path::components(
                        dirs[i],
                    ).drop_last()
            &&& forall|k: Seq<Seq<u8>>| #[trigger]
                included_after(package, es).contains(k) <==> exists|i: int|
                    0 <= i < dirs.len() && path::components(#[trigger] dirs[i]) == k
        }),
    decreases es.len(),
{
    if es.len() > 0 {
        let init = es.drop_last();
        law_zip_files_are_well_ordered(package, init);
        let before = directories_of(package, init);
        let included = included_after(package, init);
        let p = entry_path(package, es.last().0);
        let new = added_by(included, p, es.last().1);
        let dirs = directories_of(package, es);
        lemma_added(included, p, es.last().1);
        let m = before.len() as int;
        assert forall|i: int| 0 <= i < m implies #[trigger] dirs[i] == before[i] by {}
        assert forall|i: int| m <= i < dirs.len() implies #[trigger] dirs[i] == new[i - m] by {}
        assert forall|i: int, j: int| 0 <= i < j < dirs.len() implies path::components(
            #[trigger] dirs[i],
        ) != path::components(#[trigger] dirs[j]) by {
            if i < m && j >= m {
                assert(path::components(before[i]) == path::components(dirs[i]));
                assert(included.contains(path::components(before[i])));
                assert(!included.contains(path::components(new[j - m])));
            } else if i >= m {
                assert(path::components(new[i - m]) != path::components(new[j - m]));
            } else {
                assert(path::components(before[i]) != path::components(before[j]));
            }
        }
        assert forall|i: int|
            0 <= i < dirs.len() && path::components(#[trigger] dirs[i]).len() > 1 implies exists|
            j: int,
        |
            0 <= j < i && path::components(#[trigger] dirs[j]) == path::components(
                dirs[i],
            ).drop_last() by {
            let k = path::components(dirs[i]).drop_last();
            if i < m {
                assert(path::components(before[i]).len() > 1);
                let j = choose|j: int| 0 <= j < i && path::components(#[trigger] before[j]) == k;
                assert(path::components(dirs[j]) == k);
            } else {
                assert(path::components(new[i - m]).len() > 1);
                if included.contains(k) {
                    let j = choose|j: int|
                        0 <= j < m && path::components(#[trigger] before[j]) == k;
                    assert(path::components(dirs[j]) == k);
                } else {
                    let j = choose|j: int|
                        0 <= j < i - m && path::components(#[trigger] new[j]) == k;
                    assert(path::components(dirs[m + j]) == k);
                }
            }
        }
        assert forall|k: Seq<Seq<u8>>| #[trigger] included_after(package, es).contains(
            k,
        ) <==> exists|i: int| 0 <= i < dirs.len() && path::components(#[trigger] dirs[i]) == k by {
            if included_after(package, es).contains(k) {
                if included.contains(k) {
                    let i = choose|i: int|
                        0 <= i < m && path::components(#[trigger] before[i]) == k;
                    assert(path::components(dirs[i]) == k);
                } else {
                    let i = choose|i: int|
                        0 <= i < new.len() && path::components(#[trigger] new[i]) == k;
                    assert(path::components(dirs[m + i]) == k);
                }
            }
            if exists|i: int| 0 <= i < dirs.len() && path::components(#[trigger] dirs[i]) == k {
                let i = choose|i: int|
                    0 <= i < dirs.len() && path::components(#[trigger] dirs[i]) == k;
                if i < m {
                    assert(path::components(before[i]) == k);
                } else {
                    assert(path::components(new[i - m]) == k);
                }
            }
        }
    }
}

/// An entry of the archive of a package.
pub struct TarEntry {
    pub raw: Seq<u8>,
    pub kind: EntryKind,
    pub mode: u32,
    pub contents: Seq<u8>,
    /// When it was modified, and who owns it.
    pub mtime: int,
    pub uid: int,
    pub gid: int,
    pub user: Seq<char>,
    pub group: Seq<char>,
}

/// A file of a zip file.
pub struct FileText {
    pub name: Seq<u8>,
    pub contents: Seq<u8>,
    pub compression: Compression,
    pub mode: int,
    pub time: u32,
}

/// The paths and kinds of entries.
pub open spec fn paths_of(es: Seq<TarEntry>) -> Seq<(Seq<u8>, EntryKind)> {
    es.map_values(|e: TarEntry| (e.raw, e.kind))
}

/// What the entries of a package add to the zip file, one after the other.
pub open spec fn plans_of(package: Seq<u8>, level: Option<u32>, es: Seq<TarEntry>) -> Seq<AddText>
    decreases es.len(),
{
    if es.len() == 0 {
        seq![]
    } else {
        let e = es.last();
        let included = included_after(package, paths_of(es.drop_last()));
        plans_of(package, level, es.drop_last()).push(
            plan(package, level, included, e.raw, e.mode, e.kind, e.contents.len() as u64),
        )
    }
}

/// How much an entry adds to the batch: a file that is buffered, all of it.
pub open spec fn load(e: TarEntry) -> nat {
    if e.kind == EntryKind::Regular && e.contents.len() < BIG_FILE_THRESHOLD {
        e.contents.len()
    } else {
        0
    }
}

/// Whether the zip file is closed behind an entry: a file that is streamed, or one that fills the
/// batch.
pub open spec fn closes(batch: nat, e: TarEntry) -> bool {
    ||| e.kind == EntryKind::Regular && e.contents.len() >= BIG_FILE_THRESHOLD
    ||| batch + load(e) >= BATCH_SIZE
}

/// The batch after entries that were all added.
pub open spec fn batch_after(es: Seq<TarEntry>) -> nat
    decreases es.len(),
{
    if es.len() == 0 {
        0
    } else {
        let before = batch_after(es.drop_last());
        if closes(before, es.last()) {
            0
        } else {
            before + load(es.last())
        }
    }
}

/// The file that an entry of a package is.
pub open spec fn file_text(package: Seq<u8>, level: Option<u32>, e: TarEntry) -> FileText {
    FileText {
        name: entry_path(package, e.raw),
        contents: e.contents,
        compression: compression_for(level),
        mode: permissions(e.mode),
        time: time::SAFE_TIME,
    }
}

/// Whether a file of the name is there.
pub open spec fn has_file(files: Seq<FileText>, name: Seq<u8>) -> bool {
    exists|i: int| 0 <= i < files.len() && (#[trigger] files[i]).name == name
}

/// The files that the entries of a package add to the zip file: one whose name is there already
/// leaves it as it is.
pub open spec fn files_of(package: Seq<u8>, level: Option<u32>, es: Seq<TarEntry>) -> Seq<FileText>
    decreases es.len(),
{
    if es.len() == 0 {
        seq![]
    } else {
        let before = files_of(package, level, es.drop_last());
        let e = es.last();
        if e.kind == EntryKind::Regular && !has_file(before, entry_path(package, e.raw)) {
            before.push(file_text(package, level, e))
        } else {
            before
        }
    }
}

/// Whether `from` says for each of the files which entry it comes of: the first that has its name,
/// and entries that come later give files that come later.
pub open spec fn come_of(
    package: Seq<u8>,
    level: Option<u32>,
    es: Seq<TarEntry>,
    files: Seq<FileText>,
    from: Seq<int>,
) -> bool {
    &&& from.len() == files.len()
    &&& forall|i: int|
        0 <= i < files.len() ==> 0 <= #[trigger] from[i] < es.len() && es[from[i]].kind
            == EntryKind::Regular && files[i] == file_text(package, level, es[from[i]])
    &&& forall|i: int, j: int| 0 <= i < j < from.len() ==> #[trigger] from[i] < #[trigger] from[j]
    &&& forall|k: int|
        0 <= k < es.len() && es[k].kind == EntryKind::Regular ==> #[trigger] is_kept(
            entry_path(package, es[k].raw),
            k,
            files,
            from,
        )
}

/// Whether a file of the name is there, and comes of entry `k` or one before it.
pub open spec fn is_kept(name: Seq<u8>, k: int, files: Seq<FileText>, from: Seq<int>) -> bool {
    exists|i: int| 0 <= i < files.len() && #[trigger] from[i] <= k && files[i].name == name
}

/// Where the files come of, with one entry more.
#[verifier::spinoff_prover]
proof fn lemma_come_of(
    package: Seq<u8>,
    level: Option<u32>,
    es: Seq<TarEntry>,
    old_from: Seq<int>,
) -> (from: Seq<int>)
    requires
        es.len() > 0,
        come_of(package, level, es.drop_last(), files_of(package, level, es.drop_last()), old_from),
    ensures
        come_of(package, level, es, files_of(package, level, es), from),
{
    let init = es.drop_last();
    let before = files_of(package, level, init);
    let files = files_of(package, level, es);
    let e = es.last();
    let n = es.len() - 1;
    let name = entry_path(package, e.raw);
    let is_new = e.kind == EntryKind::Regular && !has_file(before, name);
    let from = if is_new {
        old_from.push(n)
    } else {
        old_from
    };
    assert forall|i: int| 0 <= i < before.len() implies #[trigger] files[i] == before[i] && from[i]
        == old_from[i] && 0 <= old_from[i] < n by {
        assert(0 <= old_from[i] < init.len());
    }
    assert forall|i: int| 0 <= i < files.len() implies 0 <= #[trigger] from[i] < es.len()
        && es[from[i]].kind == EntryKind::Regular && files[i] == file_text(
        package,
        level,
        es[from[i]],
    ) by {
        if i < before.len() {
            assert(files[i] == before[i]);
            assert(init[old_from[i]] == es[from[i]]);
        }
    }
    assert forall|i: int, j: int| 0 <= i < j < from.len() implies #[trigger] from[i]
        < #[trigger] from[j] by {
        assert(files[i] == before[i]);
        if j < before.len() {
            assert(files[j] == before[j]);
        }
    }
    assert forall|k: int|
        0 <= k < es.len() && es[k].kind == EntryKind::Regular implies #[trigger] is_kept(
        entry_path(package, es[k].raw),
        k,
        files,
        from,
    ) by {
        if k < n {
            assert(init[k] == es[k]);
            let kept = entry_path(package, init[k].raw);
            assert(is_kept(kept, k, before, old_from));
            let i = choose|i: int|
                0 <= i < before.len() && #[trigger] old_from[i] <= k && before[i].name == kept;
            assert(files[i] == before[i]);
            assert(from[i] <= k);
        } else if is_new {
            assert(from[before.len() as int] == n);
            assert(files[before.len() as int].name == name);
        } else {
            let i = choose|i: int| 0 <= i < before.len() && (#[trigger] before[i]).name == name;
            assert(files[i] == before[i]);
            assert(from[i] <= k);
        }
    }
    from
}

/// In the zip file of a package every file name stands once, in the order in which the names first
/// occur, and the file is that of the first entry of the name. None is left out.
pub proof fn law_first_files_win(package: Seq<u8>, level: Option<u32>, es: Seq<TarEntry>)
    ensures
        ({
            let files = files_of(package, level, es);
            &&& forall|i: int, j: int|
                0 <= i < j < files.len() ==> (#[trigger] files[i]).name != (
                #[trigger] files[j]).name
            &&& exists|from: Seq<int>| #[trigger] come_of(package, level, es, files, from)
        }),
    decreases es.len(),
{
    let files = files_of(package, level, es);
    if es.len() == 0 {
        assert(come_of(package, level, es, files, Seq::<int>::empty()));
    } else {
        let init = es.drop_last();
        law_first_files_win(package, level, init);
        let before = files_of(package, level, init);
        let old_from = choose|from: Seq<int>| #[trigger]
            come_of(package, level, init, before, from);
        let from = lemma_come_of(package, level, es, old_from);
        let name = entry_path(package, es.last().raw);
        assert forall|i: int, j: int| 0 <= i < j < files.len() implies (#[trigger] files[i]).name
            != (#[trigger] files[j]).name by {
            assert(files[i] == before[i]);
            if j < before.len() {
                assert(files[j] == before[j]);
            } else {
                assert(files[j].name == name);
                assert(before[i].name != name);
            }
        }
    }
}

/// Zip files can be made again: archives whose entries have the same paths, kinds, modes and
/// contents give the same files and directories, and the zip file is closed behind the same entries,
/// whenever they were modified and whoever owns them.
pub proof fn law_zip_files_are_reproducible(
    package: Seq<u8>,
    level: Option<u32>,
    one: Seq<TarEntry>,
    other: Seq<TarEntry>,
)
    requires
        one.len() == other.len(),
        forall|i: int|
            0 <= i < one.len() ==> (#[trigger] one[i]).raw == other[i].raw && one[i].kind
                == other[i].kind && one[i].mode == other[i].mode && one[i].contents
                == other[i].contents,
    ensures
        plans_of(package, level, one) == plans_of(package, level, other),
        files_of(package, level, one) == files_of(package, level, other),
        directories_of(package, paths_of(one)) == directories_of(package, paths_of(other)),
        batch_after(one) == batch_after(other),
        one.len() > 0 ==> closes(batch_after(one.drop_last()), one.last()) == closes(
            batch_after(other.drop_last()),
            other.last(),
        ),
    decreases one.len(),
{
    assert(paths_of(one) =~= paths_of(other));
    if one.len() > 0 {
        assert(one.last() == one[one.len() - 1]);
        law_zip_files_are_reproducible(package, level, one.drop_last(), other.drop_last());
        assert(paths_of(one.drop_last()) =~= paths_of(other.drop_last()));
    }
}

/// The batch is counted as the entries are: with the batch of the entries before it, a writer that
/// has handed out the item of a small file or another item, and is told that it was added, closes
/// the zip file or reads on as [`closes`] says, with the batch as [`batch_after`] says.
pub proof fn law_batches_follow_the_entries(state: WriterState, es: Seq<TarEntry>)
    requires
        es.len() > 0,
        es.last().contents.len() <= u64::MAX,
        state.batch == batch_after(es.drop_last()),
        state.phase == phase_for(
            item_for(
                entry_path(state.package, es.last().raw),
                es.last().mode,
                es.last().kind,
                es.last().contents.len() as u64,
                state.compression,
                state.included,
            ),
            es.last().contents.len() as u64,
        ),
        state.phase is Adding,
    ensures
        ({
            let pending = state.phase->pending;
            let batch = state.batch + weight(pending, es.last().contents.len());
            &&& (pending is Streamed || batch >= BATCH_SIZE) == closes(state.batch, es.last())
            &&& !closes(state.batch, es.last()) ==> batch == batch_after(es)
        }),
{
}

/// What an entry adds is planned with the directories of the entries before it, and all that is added
/// gets the same time.
pub proof fn law_every_entry_has_its_plan(
    package: Seq<u8>,
    level: Option<u32>,
    es: Seq<TarEntry>,
    i: int,
)
    requires
        0 <= i < es.len(),
    ensures
        plans_of(package, level, es).len() == es.len(),
        plans_of(package, level, es)[i].time == time::SAFE_TIME,
        plans_of(package, level, es)[i].directory_mode == DIRECTORY_MODE,
        plans_of(package, level, es)[i] == plan(
            package,
            level,
            included_after(package, paths_of(es.take(i))),
            es[i].raw,
            es[i].mode,
            es[i].kind,
            es[i].contents.len() as u64,
        ),
    decreases es.len(),
{
    let init = es.drop_last();
    if i < init.len() {
        law_every_entry_has_its_plan(package, level, init, i);
        assert(init.take(i) =~= es.take(i));
    } else {
        assert(es.take(i) =~= init);
        if init.len() > 0 {
            law_every_entry_has_its_plan(package, level, init, 0);
        } else {
            assert(plans_of(package, level, init).len() == 0);
        }
    }
    assert(plans_of(package, level, es) == plans_of(package, level, init).push(
        plans_of(package, level, es).last(),
    ));
}

/// What is added for a directory: the non-empty paths among it and the ones above it that were not
/// added before, the outermost first, each once. All of them are remembered then, and nothing else
/// than was; nothing is added for the empty path.
pub proof fn law_ancestors_are_added(included: Set<Seq<Seq<u8>>>, dir: Seq<u8>)
    ensures
        ({
            let all = path::components(dir);
            let new = fresh(included, path::lineage(dir));
            &&& forall|k: Seq<Seq<u8>>| #[trigger]
                with_all(included, path::lineage(dir)).contains(k) <==> included.contains(k) || (1
                    <= k.len() <= all.len() && k == all.take(k.len() as int))
            &&& forall|i: int|
                0 <= i < new.len() ==> {
                    let k = path::components(#[trigger] new[i]);
                    &&& 1 <= k.len() <= all.len()
                    &&& k == all.take(k.len() as int)
                    &&& !included.contains(k)
                }
            &&& forall|i: int, j: int|
                0 <= i < j < new.len() ==> path::components(#[trigger] new[i]).len()
                    < path::components(#[trigger] new[j]).len()
            &&& forall|n: int|
                1 <= n <= all.len() && !included.contains(#[trigger] all.take(n)) ==> exists|i: int|
                    0 <= i < new.len() && path::components(#[trigger] new[i]) == all.take(n)
        }),
        fresh(included, path::lineage(seq![])) == Seq::<Seq<u8>>::empty(),
        with_all(included, path::lineage(seq![])) == included,
{
    let all = path::components(dir);
    let dirs = path::lineage(dir);
    let new = fresh(included, dirs);
    let keys = dirs.map_values(|d: Seq<u8>| path::components(d));
    assert(dirs.len() == all.len());
    assert forall|k: int| 0 <= k < dirs.len() implies path::components(#[trigger] dirs[k])
        == all.take(k + 1) by {
        path::lemma_lineage_components(dir, k);
    }
    assert forall|k: Seq<Seq<u8>>| #[trigger]
        with_all(included, dirs).contains(k) <==> included.contains(k) || (1 <= k.len()
            <= all.len() && k == all.take(k.len() as int)) by {
        if keys.to_set().contains(k) {
            let i = choose|i: int| 0 <= i < keys.len() && keys[i] == k;
            assert(k == path::components(dirs[i]));
        }
        if 1 <= k.len() <= all.len() && k == all.take(k.len() as int) {
            assert(keys[k.len() - 1] == path::components(dirs[k.len() - 1]));
            assert(keys.to_set().contains(keys[k.len() - 1]));
        }
    }
    lemma_fresh_in(included, dir, dirs.len() as int);
    assert(dirs.take(dirs.len() as int) =~= dirs);
    assert forall|n: int|
        1 <= n <= all.len() && !included.contains(#[trigger] all.take(n)) implies exists|i: int|
        0 <= i < new.len() && path::components(#[trigger] new[i]) == all.take(n) by {
        assert(path::components(dirs[n - 1]) == all.take(n));
        assert(new.contains(dirs[n - 1]));
        let i = choose|i: int| 0 <= i < new.len() && new[i] == dirs[n - 1];
        assert(path::components(new[i]) == all.take(n));
    }
    assert(path::ranges(seq![]).len() == 0);
    assert(path::lineage(seq![]) =~= seq![]);
    lemma_nothing_above(included);
}

/// Directories that were added are not added again: a second time there is nothing to add for a
/// directory, and nothing new to remember.
pub proof fn law_ancestors_are_added_once(included: Set<Seq<Seq<u8>>>, dir: Seq<u8>)
    ensures
        ({
            let dirs = path::lineage(dir);
            &&& fresh(with_all(included, dirs), dirs) == Seq::<Seq<u8>>::empty()
            &&& with_all(with_all(included, dirs), dirs) == with_all(included, dirs)
        }),
{
    let dirs = path::lineage(dir);
    let all = with_all(included, dirs);
    law_ancestors_are_added(included, dir);
    law_ancestors_are_added(all, dir);
    let new = fresh(all, dirs);
    if new.len() > 0 {
        assert(all.contains(path::components(new[0])));
    }
    assert(new =~= Seq::<Seq<u8>>::empty());
    assert(with_all(all, dirs) =~= all);
}

/// What an entry's path holds behind its first component lies below the package's directory.
pub proof fn law_entries_lie_below_the_package(package: Seq<u8>, raw: Seq<u8>)
    requires
        package.len() > 0,
        !path::is_absolute(package),
        package.last() != path::SLASH,
    ensures
        entry_path(package, raw) == (encode_utf8("node_modules/"@) + package).push(path::SLASH)
            + stripped(raw),
{
    let top = encode_utf8("node_modules/"@);
    assert(top.last() == path::SLASH && top.len() > 0) by {
        reveal_strlit("node_modules/");
        let s = "node_modules/"@;
        assert(is_ascii_chars(s));
        is_ascii_chars_encode_utf8(s);
        assert(s[12] == '/');
    }
    let names = path::components(raw);
    path::lemma_ranges(raw);
    if names.len() > 0 {
        assert forall|k: int| 0 <= k < names.skip(1).len() implies (#[trigger] names.skip(1)[k]).len()
            > 0 && names.skip(1)[k][0] != path::SLASH by {
            let r = path::ranges(raw);
            assert(r[0].1 <= r[k + 1].0);
            assert(names[k + 1][0] == raw[r[k + 1].0]);
        }
        lemma_joined_all_is_relative(names.skip(1));
    }
    assert(path::joined(top, package) =~= top + package);
}

proof fn lemma_joined_all_is_relative(names: Seq<Seq<u8>>)
    requires
        forall|k: int| 0 <= k < names.len() ==> (#[trigger] names[k]).len() > 0 && names[k][0]
            != path::SLASH,
    ensures
        !path::is_absolute(path::joined_all(names)),
    decreases names.len(),
{
    if names.len() > 0 {
        let init = names.drop_last();
        assert forall|k: int| 0 <= k < init.len() implies (#[trigger] init[k]).len() > 0
            && init[k][0] != path::SLASH by {
            assert(init[k] == names[k]);
        }
        lemma_joined_all_is_relative(init);
        assert(names.last() == names[names.len() - 1]);
    }
}

/// The mode of a file that was in a zip file stays as it is.
pub proof fn law_permissions_are_settled(mode: u32)
    ensures
        permissions(permissions(mode) as u32) == permissions(mode),
{
    let w: u32 = if mode & 0o200 != 0 {
        0o200
    } else {
        0
    };
    let x: u32 = if mode & 0o111 != 0 {
        0o111
    } else {
        0
    };
    let r: u32 = if mode & 0o444 != 0 {
        0o444
    } else {
        0
    };
    let m = permissions(mode) as u32;
    assert((m & 0o200 != 0) == (w != 0) && (m & 0o111 != 0) == (x != 0) && (m & 0o444 != 0) == (r
        != 0)) by (bit_vector)
        requires
            w == 0 || w == 0o200,
            x == 0 || x == 0o111,
            r == 0 || r == 0o444,
            m == w + x + r,
    ;
}

/// Nobody but the owner may write to a file, and the owner may do all that others may.
pub proof fn law_only_the_owner_writes(mode: u32)
    ensures
        (permissions(mode) as u32) & 0o022 == 0,
        (permissions(mode) as u32) & 0o7 == ((permissions(mode) as u32) >> 6u32) & 0o5,
        permissions(mode) <= 0o755,
{
    let w: u32 = if mode & 0o200 != 0 {
        0o200
    } else {
        0
    };
    let x: u32 = if mode & 0o111 != 0 {
        0o111
    } else {
        0
    };
    let r: u32 = if mode & 0o444 != 0 {
        0o444
    } else {
        0
    };
    let m = permissions(mode) as u32;
    assert(m & 0o022 == 0 && m & 0o7 == (m >> 6u32) & 0o5) by (bit_vector)
        requires
            w == 0 || w == 0o200,
            x == 0 || x == 0o111,
            r == 0 || r == 0o444,
            m == w + x + r,
    ;
}

/// The directory of all packages, as bytes.
proof fn lemma_top()
    ensures
        encode_utf8("node_modules/"@) == encode_utf8("node_modules"@) + seq![path::SLASH],
        path::is_name(encode_utf8("node_modules"@)),
{
    reveal_strlit("node_modules/");
    reveal_strlit("node_modules");
    let long = "node_modules/"@;
    let short = "node_modules"@;
    assert(is_ascii_chars(long));
    assert(is_ascii_chars(short));
    is_ascii_chars_encode_utf8(long);
    is_ascii_chars_encode_utf8(short);
    assert(encode_utf8(long) =~= encode_utf8(short) + seq![path::SLASH]);
    assert(!encode_utf8(short).contains(path::SLASH)) by {
        if encode_utf8(short).contains(path::SLASH) {
            let i = choose|i: int|
                0 <= i < encode_utf8(short).len() && encode_utf8(short)[i] == path::SLASH;
            assert(encode_utf8(short)[i] == short[i] as u8);
        }
    }
    assert(encode_utf8(short).len() == 12);
}

/// The place of an entry has the components of the package, below the directory of all packages, and
/// then those of the entry's own path from the second on, each as it is.
pub proof fn law_entries_keep_their_components(package: Seq<u8>, raw: Seq<u8>)
    requires
        path::is_plain(package),
        path::components(raw).len() > 0,
    ensures
        path::components(entry_path(package, raw)) == seq![encode_utf8("node_modules"@)]
            + path::components(package) + path::components(raw).skip(1),
{
    let node = encode_utf8("node_modules"@);
    let top = encode_utf8("node_modules/"@);
    lemma_top();
    path::law_components_stand_between_separators(node, node);
    path::law_joined_paths_have_both_components(top, package);
    let dir = path::joined(top, package);
    let names = path::components(raw).skip(1);
    path::lemma_components_are_names(raw);
    assert forall|k: int| 0 <= k < names.len() implies path::is_name(#[trigger] names[k]) by {
        assert(names[k] == path::components(raw)[k + 1]);
    }
    path::law_names_read_back(names);
    let rest = stripped(raw);
    assert(rest == path::slashed(names));
    if names.len() > 0 {
        path::law_joined_paths_have_both_components(dir, rest);
    } else {
        assert(rest =~= seq![]);
        path::law_joined_paths_have_both_components(dir, package);
        assert(names =~= Seq::<Seq<u8>>::empty());
        assert(path::components(dir) + names =~= path::components(dir));
    }
}

/// What a package's archive holds under a path goes to the same path below the package's directory,
/// whatever the archive calls its own directory.
pub proof fn law_entries_keep_their_paths(package: Seq<u8>, first: Seq<u8>, names: Seq<Seq<u8>>)
    requires
        package.len() > 0,
        package[0] != path::SLASH,
        package.last() != path::SLASH,
        first.len() > 0,
        !first.contains(path::SLASH),
        names.len() > 0,
        path::are_names(names),
    ensures
        entry_path(package, first + seq![path::SLASH] + path::slashed(names)) == encode_utf8(
            "node_modules/"@,
        ) + package + seq![path::SLASH] + path::slashed(names),
{
    let top = encode_utf8("node_modules/"@);
    let rest = path::slashed(names);
    let raw = first + seq![path::SLASH] + rest;
    lemma_top();
    path::law_names_read_back(names);
    assert(first.contains(first[first.len() - 1]));
    assert(path::joined(first, rest) =~= raw);
    path::law_joined_paths_have_both_components(first, rest);
    path::law_components_stand_between_separators(first, first);
    assert((seq![first] + names).skip(1) =~= names);
    assert(stripped(raw) == rest);
    assert(path::joined(top, package) =~= top + package);
    assert((top + package).last() == package.last());
    assert(entry_path(package, raw) =~= top + package + seq![path::SLASH] + rest);
}

/// The first entry of a zip file adds the directories above it: each beginning of its path, from
/// the outermost on, with a slash behind it.
pub proof fn law_first_entries_add_their_directories(names: Seq<Seq<u8>>)
    requires
        names.len() > 0,
        path::are_names(names),
    ensures
        above(path::slashed(names)) == Seq::new(
            (names.len() - 1) as nat,
            |k: int| path::slashed(names.take(k + 1)),
        ),
        directory_names(fresh(Set::empty(), above(path::slashed(names)))) == Seq::new(
            (names.len() - 1) as nat,
            |k: int| path::slashed(names.take(k + 1)) + seq![path::SLASH],
        ),
{
    let p = path::slashed(names);
    let init = names.drop_last();
    let dirs = Seq::new((names.len() - 1) as nat, |k: int| path::slashed(names.take(k + 1)));
    assert forall|i: int| 0 <= i < init.len() implies path::is_name(#[trigger] init[i]) by {
        assert(init[i] == names[i]);
    }
    path::law_lines_go_name_by_name(names);
    path::law_lines_go_name_by_name(init);
    assert forall|k: int| 0 <= k < dirs.len() implies #[trigger] above(p)[k] == dirs[k] by {
        assert(init.take(k + 1) =~= names.take(k + 1));
    }
    assert(above(p) =~= dirs);
    lemma_all_are_fresh(dirs);
    assert forall|k: int| 0 <= k < dirs.len() implies #[trigger] directory_names(dirs)[k]
        == path::slashed(names.take(k + 1)) + seq![path::SLASH] by {
        assert(dirs[k].push(path::SLASH) =~= dirs[k] + seq![path::SLASH]);
    }
    assert(directory_names(dirs) =~= Seq::new(
        (names.len() - 1) as nat,
        |k: int| path::slashed(names.take(k + 1)) + seq![path::SLASH],
    ));
}

/// Where no directory was added all are new.
proof fn lemma_all_are_fresh(dirs: Seq<Seq<u8>>)
    ensures
        fresh(Set::empty(), dirs) == dirs,
    decreases dirs.len(),
{
    reveal(Seq::filter);
    if dirs.len() > 0 {
        lemma_all_are_fresh(dirs.drop_last());
        assert(dirs.drop_last().push(dirs.last()) =~= dirs);
    }
    assert(fresh(Set::empty(), dirs) =~= dirs);
}

/// The bits of a file's mode: the owner may write if the owner could; all may read, or execute, if
/// anybody could; and there are no other bits.
pub proof fn law_bits_of_a_mode(mode: u32)
    ensures
        ({
            let m = permissions(mode) as u32;
            &&& m == permissions(mode)
            &&& (m & 0o200 == 0o200) == (mode & 0o200 == 0o200)
            &&& m & 0o111 == if mode & 0o100 != 0 || mode & 0o010 != 0 || mode & 0o001 != 0 {
                0o111u32
            } else {
                0
            }
            &&& m & 0o444 == if mode & 0o400 != 0 || mode & 0o040 != 0 || mode & 0o004 != 0 {
                0o444u32
            } else {
                0
            }
            &&& m & 0o755 == m
        }),
{
    let w: u32 = if mode & 0o200 != 0 {
        0o200
    } else {
        0
    };
    let x: u32 = if mode & 0o111 != 0 {
        0o111
    } else {
        0
    };
    let r: u32 = if mode & 0o444 != 0 {
        0o444
    } else {
        0
    };
    let m = permissions(mode) as u32;
    assert(m & 0o200 == w && m & 0o111 == x && m & 0o444 == r && m & 0o755 == m) by (bit_vector)
        requires
            w == 0 || w == 0o200,
            x == 0 || x == 0o111,
            r == 0 || r == 0o444,
            m == w + x + r,
    ;
    assert((mode & 0o200 != 0) == (mode & 0o200 == 0o200)) by (bit_vector);
    assert((mode & 0o111 != 0) == (mode & 0o100 != 0 || mode & 0o010 != 0 || mode & 0o001 != 0))
        by (bit_vector);
    assert((mode & 0o444 != 0) == (mode & 0o400 != 0 || mode & 0o040 != 0 || mode & 0o004 != 0))
        by (bit_vector);
}

/// What an entry is in the zip file: a file, under its own path, with its own mode; a directory,
/// unless it is there already; nothing for a header; and all else cannot be added. Files of two
/// mebibytes and more are not buffered, and level zero means no compression.
pub proof fn law_items_are_what_the_entries_are(
    package: Seq<u8>,
    level: Option<u32>,
    included: Set<Seq<Seq<u8>>>,
    raw: Seq<u8>,
    mode: u32,
    kind: EntryKind,
    size: u64,
)
    ensures
        ({
            let p = entry_path(package, raw);
            let add = plan(package, level, included, raw, mode, kind, size);
            &&& add.directory_mode == 0o755
            &&& add.time == time::SAFE_TIME
            &&& kind == EntryKind::GlobalHeader ==> add.item is Nothing
            &&& add.item is File <==> kind == EntryKind::Regular
            &&& add.item is Unsupported <==> kind == EntryKind::Other
            &&& add.item is Directory ==> kind == EntryKind::Directory
            &&& kind == EntryKind::Directory && !included.contains(path::components(p)) && !(exists|
                k: int,
            |
                0 <= k < above(p).len() && path::components(#[trigger] above(p)[k])
                    == path::components(p)) ==> add.item is Directory
            &&& kind == EntryKind::Directory && included.contains(path::components(p))
                ==> add.item is Nothing
            &&& add.item matches ItemText::Directory { name } ==> name == p
            &&& add.item matches ItemText::Unsupported { name } ==> name == p
            &&& add.item matches ItemText::File { name, contents, compression, mode: m } ==> {
                &&& name == p
                &&& m == permissions(mode)
                &&& contents is Buffered <==> size < 2 * 1024 * 1024
                &&& contents matches Contents::Streamed { size: n } ==> n == size
                &&& compression == Compression::Default <==> level is None
                &&& compression == Compression::Store <==> level == Some(0u32)
                &&& compression matches Compression::Deflate(n) ==> n > 0 && level == Some(n)
            }
        }),
{
    let p = entry_path(package, raw);
    let keys = above(p).map_values(|d: Seq<u8>| path::components(d));
    if keys.to_set().contains(path::components(p)) {
        let k = choose|k: int| 0 <= k < keys.len() && keys[k] == path::components(p);
        assert(path::components(above(p)[k]) == path::components(p));
    }
}

/// When a zip file is closed before its end: behind a file that was not buffered, and once ten
/// mebibytes of those that were are in it. Nothing else counts, and nothing is closed behind what
/// could not be added. A file that is there already is no failure, but a directory is.
pub proof fn law_batches_are_ten_mebibytes(pending: Pending, outcome: Outcome, bytes: nat)
    ensures
        BATCH_SIZE == 10 * 1024 * 1024,
        weight(pending, bytes) == if pending is Buffered {
            bytes
        } else {
            0
        },
        outcome == Outcome::Added ==> is_accepted(pending, outcome),
        outcome == Outcome::Failed ==> (is_accepted(pending, outcome) <==> pending is Nothing),
        outcome == Outcome::Exists ==> (is_accepted(pending, outcome) <==> !(pending is Directory)),
{
}

/// The directories that are known after an entry: those that were, the beginnings of the entry's path,
/// and the path itself if it is that of a directory.
pub proof fn law_known_directories(
    included: Set<Seq<Seq<u8>>>,
    names: Seq<Seq<u8>>,
    kind: EntryKind,
    k: Seq<Seq<u8>>,
)
    requires
        names.len() > 0,
        path::are_names(names),
    ensures
        known_with(included, path::slashed(names), kind).contains(k) <==> {
            ||| included.contains(k)
            ||| 0 < k.len() < names.len() && k == names.take(k.len() as int)
            ||| kind == EntryKind::Directory && k == names
        },
{
    let init = names.drop_last();
    assert forall|i: int| 0 <= i < init.len() implies path::is_name(#[trigger] init[i]) by {
        assert(init[i] == names[i]);
    }
    path::law_names_read_back(names);
    path::law_names_read_back(init);
    path::law_lines_go_name_by_name(names);
    law_ancestors_are_added(included, path::slashed(init));
    if 0 < k.len() < names.len() {
        assert(init.take(k.len() as int) =~= names.take(k.len() as int));
    }
}

/// What the writer waits for follows from the item: what is buffered is counted with its size, what is
/// not buffered is closed behind, and what cannot be added ends all.
pub proof fn law_items_are_waited_for(item: ItemText, size: u64)
    ensures
        phase_for(item, size) == (Phase::Adding { pending: Pending::Buffered { size } })
            <==> item matches ItemText::File { contents: Contents::Buffered, .. },
        phase_for(item, size) == (Phase::Adding { pending: Pending::Streamed })
            <==> item matches ItemText::File { contents: Contents::Streamed { .. }, .. },
        phase_for(item, size) == (Phase::Adding { pending: Pending::Directory })
            <==> item is Directory,
        phase_for(item, size) == (Phase::Adding { pending: Pending::Nothing }) <==> item is Nothing,
        phase_for(item, size) == Phase::Failed <==> item is Unsupported,
{
}

} // verus!
