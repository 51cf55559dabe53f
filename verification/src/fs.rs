//! The recording filesystem: a single file of fixed size whose writes and
//! flushes are recorded as changes.
//!
//! The filesystem here is the state and the answers. Whoever carries the
//! requests of the kernel calls one method for each and sends the answer
//! back.

use crate::journal::{overwrite, write_at, Change, ChangeView};
use vstd::prelude::*;
use vstd::slice::{slice_subrange, slice_to_vec};

verus! {

/// The size of a block, as the filesystem reports it.
pub const BLOCK_SIZE: usize = 512;

/// For how many seconds the kernel may keep attributes and entries.
pub const TTL_SECONDS: u64 = 60;

/// The inode number of the file.
pub const FILE_INO: u64 = 1;

/// The longest name that the filesystem reports to take.
pub const NAME_LEN: u32 = 255;

/// The kind of a file.
#[derive(Debug, Clone, Copy, PartialEq, Eq, Structural)]
pub enum FileType {
    RegularFile,
}

/// The attributes of a file. Times are in seconds since the epoch.
#[derive(Debug, Clone, Copy, PartialEq, Eq, Structural)]
pub struct FileAttr {
    pub ino: u64,
    pub size: u64,
    pub blocks: u64,
    pub atime: u64,
    pub mtime: u64,
    pub ctime: u64,
    pub crtime: u64,
    pub kind: FileType,
    pub perm: u16,
    pub nlink: u32,
    pub uid: u32,
    pub gid: u32,
    pub rdev: u32,
    pub flags: u32,
}

/// The answer to a request for attributes.
#[derive(Debug, Clone, Copy, PartialEq, Eq, Structural)]
pub struct AttrReply {
    pub ttl_seconds: u64,
    pub attr: FileAttr,
}

/// The answer to a lookup of the file.
#[derive(Debug, Clone, Copy, PartialEq, Eq, Structural)]
pub struct EntryReply {
    pub ttl_seconds: u64,
    pub attr: FileAttr,
    pub generation: u64,
}

/// The answer to a request for the statistics of the filesystem.
#[derive(Debug, Clone, Copy, PartialEq, Eq, Structural)]
pub struct StatfsReply {
    pub blocks: u64,
    pub bfree: u64,
    pub bavail: u64,
    pub files: u64,
    pub ffree: u64,
    pub bsize: u32,
    pub namelen: u32,
    pub frsize: u32,
}

/// How many blocks hold `len` bytes.
pub open spec fn blocks_for(len: nat) -> nat {
    ((len + BLOCK_SIZE - 1) / (BLOCK_SIZE as int)) as nat
}

/// The attributes of the single file, for a content of `len` bytes: a
/// regular file that anyone may read and write, owned by root, with all
/// its times at the epoch.
pub open spec fn file_attr(len: nat) -> FileAttr {
    FileAttr {
        ino: FILE_INO,
        size: len as u64,
        blocks: blocks_for(len) as u64,
        atime: 0,
        mtime: 0,
        ctime: 0,
        crtime: 0,
        kind: FileType::RegularFile,
        perm: 0o666,
        nlink: 1,
        uid: 0,
        gid: 0,
        rdev: 1,
        flags: 0,
    }
}

/// Whether no sync is followed by another at once.
pub open spec fn no_adjacent_syncs(changes: Seq<ChangeView>) -> bool {
    forall|i: int|
        0 <= i < changes.len() - 1 ==> !((#[trigger] changes[i]) is Sync && changes[i + 1] is Sync)
}

/// The change list after a flush: a sync is added unless the last change
/// is one.
pub open spec fn with_sync(changes: Seq<ChangeView>) -> Seq<ChangeView> {
    if changes.len() > 0 && changes.last() is Sync {
        changes
    } else {
        changes.push(ChangeView::Sync)
    }
}

/// A request that the recorder acts on.
pub enum Recorded {
    /// A write of `data` at `offset`.
    Write { offset: nat, data: Seq<u8> },
    /// A flush.
    Fsync,
}

/// The change list after one request.
pub open spec fn after_request(changes: Seq<ChangeView>, request: Recorded) -> Seq<ChangeView> {
    match request {
        Recorded::Write { offset, data } => changes.push(ChangeView::Write { offset, data }),
        Recorded::Fsync => with_sync(changes),
    }
}

/// The change list after a run of requests.
pub open spec fn after_requests(changes: Seq<ChangeView>, requests: Seq<Recorded>) -> Seq<
    ChangeView,
>
    decreases requests.len(),
{
    if requests.len() == 0 {
        changes
    } else {
        after_request(after_requests(changes, requests.drop_last()), requests.last())
    }
}

/// Whatever is asked of the recorder, it never leaves two syncs in a row
/// where there were none before.
pub proof fn lemma_collapse_rule(changes: Seq<ChangeView>, requests: Seq<Recorded>)
    requires
        no_adjacent_syncs(changes),
    ensures
        no_adjacent_syncs(after_requests(changes, requests)),
    decreases requests.len(),
{
    if requests.len() > 0 {
        lemma_collapse_rule(changes, requests.drop_last());
    }
}

/// Fuse state for "recordfs" - a single file filesystem recording write and
/// flush operations.
pub struct FuseRecordFilesystem<'a> {
    /// The filesystem is exposed as a single file. This is its content.
    pub data: Vec<u8>,
    /// Modifications to the filesystem.
    pub changes: &'a mut Vec<Change>,
}

impl<'a> FuseRecordFilesystem<'a> {
    /// The content of the file.
    pub open spec fn image(&self) -> Seq<u8> {
        self.data@
    }

    /// The changes recorded so far.
    pub open spec fn recorded(&self) -> Seq<ChangeView> {
        self.changes.deep_view()
    }

    /// A filesystem whose file holds `data` and which adds what happens to
    /// the file to `changes`. When the filesystem is gone, `changes` holds
    /// what it recorded.
    pub fn new(data: Vec<u8>, changes: &'a mut Vec<Change>) -> (fs: Self)
        ensures
            fs.image() == data@,
            fs.recorded() == old(changes).deep_view(),
            *final(fs.changes) == *final(changes),
    {
        Self { data, changes }
    }

    /// How many blocks the file takes.
    pub fn block_count(&self) -> (blocks: usize)
        ensures
            blocks == blocks_for(self.image().len()),
    {
        let len = self.data.len();
        if len % BLOCK_SIZE == 0 {
            len / BLOCK_SIZE
        } else {
            len / BLOCK_SIZE + 1
        }
    }

    /// The attributes of the file.
    pub fn attr(&self) -> (attr: FileAttr)
        ensures
            attr == file_attr(self.image().len()),
    {
        FileAttr {
            ino: FILE_INO,
            size: self.data.len() as u64,
            blocks: self.block_count() as u64,
            atime: 0,
            mtime: 0,
            ctime: 0,
            crtime: 0,
            kind: FileType::RegularFile,
            perm: 0o666,
            nlink: 1,
            uid: 0,
            gid: 0,
            rdev: 1,
            flags: 0,
        }
    }

    /// Answers a request for the attributes of the file.
    pub fn getattr(&self) -> (reply: AttrReply)
        ensures
            reply == (AttrReply { ttl_seconds: TTL_SECONDS, attr: file_attr(self.image().len()) }),
    {
        AttrReply { ttl_seconds: TTL_SECONDS, attr: self.attr() }
    }

    /// Answers a lookup: whatever the name, the entry found is the file.
    pub fn lookup(&self) -> (reply: EntryReply)
        ensures
            reply == (EntryReply {
                ttl_seconds: TTL_SECONDS,
                attr: file_attr(self.image().len()),
                generation: 0,
            }),
    {
        EntryReply { ttl_seconds: TTL_SECONDS, attr: self.attr(), generation: 0 }
    }

    /// Whether a read may begin at `offset`: not past the end of the file.
    pub fn can_read(&self, offset: u64) -> (ok: bool)
        ensures
            ok == (offset <= self.image().len()),
    {
        offset <= self.data.len() as u64
    }

    /// Whether `len` bytes can be written at `offset`: the file does not
    /// grow, so they have to end within it.
    pub fn can_write(&self, offset: u64, len: usize) -> (ok: bool)
        ensures
            ok == (offset + len <= self.image().len()),
    {
        let size = self.data.len();
        offset <= size as u64 && len <= size - offset as usize
    }

    /// Reads up to `size` bytes from `offset` on: fewer where the file ends
    /// before. Nothing is recorded.
    pub fn read(&self, offset: u64, size: u32) -> (bytes: &[u8])
        requires
            offset <= self.image().len(),
        ensures
            bytes@ == self.image().subrange(
                offset as int,
                if offset + size < self.image().len() {
                    offset + size
                } else {
                    self.image().len() as int
                },
            ),
    {
        let offset = offset as usize;
        let size = size as usize;
        let end = if size < self.data.len() - offset {
            offset + size
        } else {
            self.data.len()
        };
        slice_subrange(self.data.as_slice(), offset, end)
    }

    /// Writes `data` at `offset` and records the write. The answer is the
    /// number of bytes written, which is all of them.
    pub fn write(&mut self, offset: u64, data: &[u8]) -> (written: usize)
        requires
            offset + data@.len() <= old(self).image().len(),
        ensures
            written == data@.len(),
            final(self).image() == write_at(old(self).image(), offset as int, data@),
            final(self).recorded() == after_request(
                old(self).recorded(),
                Recorded::Write { offset: offset as nat, data: data@ },
            ),
            *final(final(self).changes) == *final(old(self).changes),
    {
        let ghost before = self.changes.deep_view();
        assert(offset + data@.len() <= self.data.len());
        overwrite(&mut self.data, offset as usize, data);
        self.changes.push(Change::Write { offset, data: slice_to_vec(data) });
        assert(self.changes.deep_view() =~= before.push(
            ChangeView::Write { offset: offset as nat, data: data@ },
        ));
        data.len()
    }

    /// Records a flush, unless the last change is one already.
    pub fn fsync(&mut self)
        ensures
            final(self).image() == old(self).image(),
            final(self).recorded() == after_request(old(self).recorded(), Recorded::Fsync),
            *final(final(self).changes) == *final(old(self).changes),
    {
        let n = self.changes.len();
        let last_is_sync = if n > 0 {
            match &self.changes[n - 1] {
                Change::Sync => true,
                // No need to record Sync if the last change was Sync.
                Change::Write { .. } => false,
            }
        } else {
            false
        };
        if !last_is_sync {
            self.changes.push(Change::Sync);
        }
    }

    /// Get file system statistics.
    pub fn statfs(&self) -> (reply: StatfsReply)
        ensures
            reply == (StatfsReply {
                blocks: blocks_for(self.image().len()) as u64,
                bfree: 0,
                bavail: 0,
                files: 0,
                ffree: 0,
                bsize: BLOCK_SIZE as u32,
                namelen: NAME_LEN,
                frsize: 0,
            }),
    {
        let blocks = self.block_count();
        StatfsReply {
            blocks: blocks as u64,
            bfree: 0,
            bavail: 0,
            files: 0,
            ffree: 0,
            bsize: BLOCK_SIZE as u32,
            namelen: NAME_LEN,
            frsize: 0,
        }
    }
}

} // verus!
