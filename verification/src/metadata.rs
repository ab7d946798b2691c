//! The per-file staging record: POSIX stat fields, the blob hash of the
//! file's content, and the repository-relative file name, serialized as a
//! fixed 62-byte big-endian layout followed by the name bytes.

use crate::blob::blob_framing;
use crate::bytes_codec::{
    be16_bytes, be32_bytes, get_be16, get_be32, push_be16, push_be32, push_bytes, read_be16,
    read_be32,
};
use crate::error::Error;
use crate::hashing::sha1_of;
use crate::object::Hashable;
use vstd::prelude::*;
use vstd::std_specs::cmp::PartialEqSpec;
use vstd::slice::{slice_subrange, slice_to_vec};

verus! {

/// The mathematical model of a staging record.
pub ghost struct FileMetaV {
    pub ctime: u32,
    pub ctime_nsec: u32,
    pub mtime: u32,
    pub mtime_nsec: u32,
    pub dev: u32,
    pub ino: u32,
    pub mode: u32,
    pub uid: u32,
    pub gid: u32,
    pub filesize: u32,
    pub hash: Seq<u8>,
    pub filename_size: u16,
    pub filename: Seq<u8>,
}

/// A staged file's record. Two records are equal when their content
/// hashes are equal, whatever their stat fields say.
#[derive(Debug, Clone)]
pub struct FileMeta {
    pub ctime: u32,
    pub ctime_nsec: u32,
    pub mtime: u32,
    pub mtime_nsec: u32,
    pub dev: u32,
    pub ino: u32,
    pub mode: u32,
    pub uid: u32,
    pub gid: u32,
    pub filesize: u32,
    pub hash: Vec<u8>,
    pub filename_size: u16,
    pub filename: Vec<u8>,
}

impl View for FileMeta {
    type V = FileMetaV;

    open spec fn view(&self) -> FileMetaV {
        FileMetaV {
            ctime: self.ctime,
            ctime_nsec: self.ctime_nsec,
            mtime: self.mtime,
            mtime_nsec: self.mtime_nsec,
            dev: self.dev,
            ino: self.ino,
            mode: self.mode,
            uid: self.uid,
            gid: self.gid,
            filesize: self.filesize,
            hash: self.hash@,
            filename_size: self.filename_size,
            filename: self.filename@,
        }
    }
}

impl PartialEq for FileMeta {
    fn eq(&self, other: &Self) -> (r: bool) {
        let r = self.hash == other.hash;
        proof {
            if self.hash@ == other.hash@ {
                assert(self.hash.eq_spec(&other.hash));
            }
            if r {
                assert(self.hash@ =~= other.hash@);
            }
        }
        r
    }
}

impl vstd::std_specs::cmp::PartialEqSpecImpl for FileMeta {
    open spec fn obeys_eq_spec() -> bool {
        true
    }

    open spec fn eq_spec(&self, other: &FileMeta) -> bool {
        self.hash@ == other.hash@
    }
}

/// A record is well formed when its hash is a 20-byte digest and its
/// recorded name length matches the name.
pub open spec fn filemeta_wf(m: FileMetaV) -> bool {
    &&& m.hash.len() == 20
    &&& m.filename_size == m.filename.len()
}

/// The serialized form of a record: ten big-endian `u32` stat fields, the
/// 20-byte hash, the big-endian name length, and the name bytes.
pub open spec fn filemeta_bytes(m: FileMetaV) -> Seq<u8> {
    be32_bytes(m.ctime) + be32_bytes(m.ctime_nsec) + be32_bytes(m.mtime) + be32_bytes(
        m.mtime_nsec,
    ) + be32_bytes(m.dev) + be32_bytes(m.ino) + be32_bytes(m.mode) + be32_bytes(m.uid)
        + be32_bytes(m.gid) + be32_bytes(m.filesize) + m.hash + be16_bytes(m.filename_size)
        + m.filename
}

/// What parsing a record yields: the fields read from the fixed layout,
/// or nothing if the buffer ends before the name does.
pub open spec fn parse_filemeta(buf: Seq<u8>) -> Option<FileMetaV> {
    if buf.len() < 62 {
        None
    } else {
        let nsz = read_be16(buf.subrange(60, 62));
        if buf.len() < 62 + nsz {
            None
        } else {
            Some(
                FileMetaV {
                    ctime: read_be32(buf.subrange(0, 4)),
                    ctime_nsec: read_be32(buf.subrange(4, 8)),
                    mtime: read_be32(buf.subrange(8, 12)),
                    mtime_nsec: read_be32(buf.subrange(12, 16)),
                    dev: read_be32(buf.subrange(16, 20)),
                    ino: read_be32(buf.subrange(20, 24)),
                    mode: read_be32(buf.subrange(24, 28)),
                    uid: read_be32(buf.subrange(28, 32)),
                    gid: read_be32(buf.subrange(32, 36)),
                    filesize: read_be32(buf.subrange(36, 40)),
                    hash: buf.subrange(40, 60),
                    filename_size: nsz,
                    filename: buf.subrange(62, 62 + nsz),
                },
            )
        }
    }
}

impl FileMeta {
    /// Builds the record for a file from its stat fields, content and
    /// repository-relative name. The content hash is the blob hash of the
    /// content.
    #[allow(clippy::too_many_arguments)]
    pub fn new(
        ctime: u32,
        ctime_nsec: u32,
        mtime: u32,
        mtime_nsec: u32,
        dev: u32,
        ino: u32,
        mode: u32,
        uid: u32,
        gid: u32,
        filesize: u32,
        content: &[u8],
        filename: Vec<u8>,
    ) -> (r: Self)
        requires
            filename@.len() <= u16::MAX,
        ensures
            r@ == (FileMetaV {
                ctime,
                ctime_nsec,
                mtime,
                mtime_nsec,
                dev,
                ino,
                mode,
                uid,
                gid,
                filesize,
                hash: sha1_of(blob_framing(content@)),
                filename_size: filename@.len() as u16,
                filename: filename@,
            }),
            filemeta_wf(r@),
    {
        let blob = crate::blob::Blob::new(slice_to_vec(content));
        let hash = blob.to_hash();
        let filename_size = filename.len() as u16;
        Self {
            ctime,
            ctime_nsec,
            mtime,
            mtime_nsec,
            dev,
            ino,
            mode,
            uid,
            gid,
            filesize,
            hash,
            filename_size,
            filename,
        }
    }

    /// Decodes a record from `buf`, which may extend past the record.
    /// Returns `MalformedIndex` exactly when the buffer is too short.
    pub fn from_rawindex(buf: &[u8]) -> (r: Result<Self, Error>)
        ensures
            match r {
                Ok(m) => parse_filemeta(buf@) == Some(m@),
                Err(e) => parse_filemeta(buf@) is None && e == Error::MalformedIndex,
            },
    {
        if buf.len() < 62 {
            return Err(Error::MalformedIndex);
        }
        let nsz = get_be16(buf, 60);
        if buf.len() - 62 < nsz as usize {
            return Err(Error::MalformedIndex);
        }
        let m = Self {
            ctime: get_be32(buf, 0),
            ctime_nsec: get_be32(buf, 4),
            mtime: get_be32(buf, 8),
            mtime_nsec: get_be32(buf, 12),
            dev: get_be32(buf, 16),
            ino: get_be32(buf, 20),
            mode: get_be32(buf, 24),
            uid: get_be32(buf, 28),
            gid: get_be32(buf, 32),
            filesize: get_be32(buf, 36),
            hash: slice_to_vec(slice_subrange(buf, 40, 60)),
            filename_size: nsz,
            filename: slice_to_vec(slice_subrange(buf, 62, 62 + nsz as usize)),
        };
        Ok(m)
    }

    /// The serialized form of this record, without padding.
    pub fn as_bytes(&self) -> (r: Vec<u8>)
        ensures
            r@ == filemeta_bytes(self@),
    {
        let mut v: Vec<u8> = Vec::new();
        push_be32(&mut v, self.ctime);
        push_be32(&mut v, self.ctime_nsec);
        push_be32(&mut v, self.mtime);
        push_be32(&mut v, self.mtime_nsec);
        push_be32(&mut v, self.dev);
        push_be32(&mut v, self.ino);
        push_be32(&mut v, self.mode);
        push_be32(&mut v, self.uid);
        push_be32(&mut v, self.gid);
        push_be32(&mut v, self.filesize);
        push_bytes(&mut v, self.hash.as_slice());
        push_be16(&mut v, self.filename_size);
        push_bytes(&mut v, self.filename.as_slice());
        proof {
            assert(v@ =~= filemeta_bytes(self@));
        }
        v
    }
}

/// Round trip of a record: parsing its serialization gives back the
/// record.
pub proof fn lemma_filemeta_round_trip(m: FileMetaV)
    requires
        filemeta_wf(m),
    ensures
        parse_filemeta(filemeta_bytes(m)) == Some(m),
{
    let buf = filemeta_bytes(m);
    assert(buf.len() == 62 + m.filename.len());
    assert(buf.subrange(60, 62) =~= be16_bytes(m.filename_size));
    crate::bytes_codec::lemma_be16_round_trip(m.filename_size);
    assert(buf.subrange(0, 4) =~= be32_bytes(m.ctime));
    assert(buf.subrange(4, 8) =~= be32_bytes(m.ctime_nsec));
    assert(buf.subrange(8, 12) =~= be32_bytes(m.mtime));
    assert(buf.subrange(12, 16) =~= be32_bytes(m.mtime_nsec));
    assert(buf.subrange(16, 20) =~= be32_bytes(m.dev));
    assert(buf.subrange(20, 24) =~= be32_bytes(m.ino));
    assert(buf.subrange(24, 28) =~= be32_bytes(m.mode));
    assert(buf.subrange(28, 32) =~= be32_bytes(m.uid));
    assert(buf.subrange(32, 36) =~= be32_bytes(m.gid));
    assert(buf.subrange(36, 40) =~= be32_bytes(m.filesize));
    crate::bytes_codec::lemma_be32_round_trip(m.ctime);
    crate::bytes_codec::lemma_be32_round_trip(m.ctime_nsec);
    crate::bytes_codec::lemma_be32_round_trip(m.mtime);
    crate::bytes_codec::lemma_be32_round_trip(m.mtime_nsec);
    crate::bytes_codec::lemma_be32_round_trip(m.dev);
    crate::bytes_codec::lemma_be32_round_trip(m.ino);
    crate::bytes_codec::lemma_be32_round_trip(m.mode);
    crate::bytes_codec::lemma_be32_round_trip(m.uid);
    crate::bytes_codec::lemma_be32_round_trip(m.gid);
    crate::bytes_codec::lemma_be32_round_trip(m.filesize);
    assert(buf.subrange(40, 60) =~= m.hash);
    assert(buf.subrange(62, 62 + m.filename_size) =~= m.filename);
}

} // verus!
