//! The page device: fixed-size frames addressed by page id over one file.
//!
//! The trusted boundary is here. A `Device` carries a ghost map from page id
//! to the raw bytes of that page slot; the wrappers below state the regular-
//! file semantics the store relies on: a read at a page offset returns the
//! bytes last written there, and zeroes where nothing was ever written.
//! That holds only while each `Device` is its file's sole writer — the
//! store opens its two files once each and never shares them. The files
//! are opened buffered, without direct I/O: alignment-free `Vec` buffers
//! carry the frames, and durability rests on `fdatasync` alone, not on the
//! platform's direct or atomic write paths (an embedding may probe those
//! for reporting). Everything above the raw wrappers — framing, checksums,
//! the page codec — is verified.

use vstd::prelude::*;

use crate::codec::{
    decode_page, encode_page, lemma_decode_encode_page, lemma_page_fits, pairs_fit,
    spec_decode_page, spec_encode_page, MAX_PAYLOAD_LEN, PAGE_META_LEN, PAIR_META_LEN,
};
use crate::error::{Error, Result};
use crate::frame::{
    build_frame, lemma_frame_roundtrip, parse_frame, spec_frame, spec_parse_frame, zeros,
    PAGE_SIZE,
};
use crate::page::{pairs_sized, Page, PageV};

verus! {

/// Largest page id the device accepts: keeps every byte offset far from
/// `u64::MAX`.
pub const MAX_PAGE_ID: u64 = 0x4_0000_0000_0000;

#[verifier::external_type_specification]
#[verifier::external_body]
pub struct ExOwnedFd(rustix::fd::OwnedFd);

/// Relies on `rustix::fs::open` with `RDWR | CREATE`: opens or creates the
/// page file `name` under `dir` for reading and writing.
#[verifier::external_body]
fn open_page_file(dir: &str, name: &str) -> (r: Result<rustix::fd::OwnedFd>)
    ensures
        match r {
            Ok(fd) => true,
            Err(e) => e matches Error::IO(_),
        },
{
    let path = std::path::Path::new(dir).join(name);
    let flags = rustix::fs::OFlags::RDWR | rustix::fs::OFlags::CREATE;
    match rustix::fs::open(&path, flags, rustix::fs::Mode::from_bits_truncate(0o600)) {
        Ok(fd) => Ok(fd),
        Err(e) => Err(Error::IO(e.raw_os_error())),
    }
}

/// A page-addressed store over one file.
pub struct Device {
    pub io: rustix::fd::OwnedFd,
    /// Configured key size; fixed at creation.
    pub ksize: usize,
    /// Configured value size; fixed at creation.
    pub vsize: usize,
    /// Most pairs a page may carry under this configuration.
    pub max_kv: u16,
    /// The raw bytes of every page slot ever written.
    pub frames: Ghost<Map<u64, Seq<u8>>>,
}

impl Device {
    /// The configuration never changes after `open`.
    pub open spec fn cfg(self) -> (usize, usize, u16) {
        (self.ksize, self.vsize, self.max_kv)
    }

    /// The configuration a device must be opened with: one pair fits a page,
    /// and `max_kv` pairs of the configured sizes encode within the payload
    /// budget.
    pub open spec fn cfg_wf(self) -> bool {
        &&& PAGE_META_LEN + PAIR_META_LEN + self.ksize + self.vsize <= MAX_PAYLOAD_LEN
        &&& PAGE_META_LEN + (self.max_kv as nat) * ((PAIR_META_LEN + self.ksize
            + self.vsize) as nat) <= MAX_PAYLOAD_LEN
        &&& self.max_kv >= 1
    }

    /// The raw bytes of page slot `id`: all zeroes where nothing was
    /// written. Every slot of a page-addressed file is exactly one page.
    pub open spec fn raw_at(self, id: u64) -> Seq<u8> {
        if self.frames@.contains_key(id) && self.frames@[id].len() == PAGE_SIZE {
            self.frames@[id]
        } else {
            zeros(PAGE_SIZE as nat)
        }
    }

    /// The page stored at `id`: `None` where the slot holds no valid frame
    /// or the frame's payload is no well-formed page under this device's
    /// configuration.
    pub open spec fn page_at(self, id: u64) -> Option<PageV> {
        match spec_parse_frame(self.raw_at(id)) {
            None => None,
            Some(payload) => spec_decode_page(
                payload,
                self.ksize as nat,
                self.vsize as nat,
                self.max_kv,
            ),
        }
    }

    /// Open or create the page file `name` under `dir`. The file's existing
    /// contents are unknown: the ghost frame map starts unconstrained, and
    /// only what the store writes or reads from here on is pinned down.
    pub fn open(dir: &str, name: &str, ksize: usize, vsize: usize, max_kv: u16) -> (r: Result<
        Device,
    >)
        ensures
            match r {
                Ok(d) => d.ksize == ksize && d.vsize == vsize && d.max_kv == max_kv,
                Err(e) => e matches Error::IO(_),
            },
    {
        match open_page_file(dir, name) {
            Ok(fd) => {
                let ghost frames: Map<u64, Seq<u8>> = vstd::pervasive::arbitrary();
                Ok(Device { io: fd, ksize, vsize, max_kv, frames: Ghost(frames) })
            },
            Err(e) => Err(e),
        }
    }

    /// Relies on `rustix::io::pread` on a regular file: a full read at
    /// offset `id * PAGE_SIZE` returns the bytes last written to that slot,
    /// and zeroes beyond the end of the file or inside holes.
    #[verifier::external_body]
    fn raw_read(&self, id: u64) -> (r: Result<Vec<u8>>)
        requires
            id <= MAX_PAGE_ID,
        ensures
            match r {
                Ok(b) => b@ == self.raw_at(id),
                Err(e) => e matches Error::IO(_),
            },
    {
        let mut buf = vec![0u8; PAGE_SIZE];
        let mut done: usize = 0;
        while done < PAGE_SIZE {
            let off = id * PAGE_SIZE as u64 + done as u64;
            match rustix::io::pread(&self.io, &mut buf[done..], off) {
                Ok(0) => break ,
                Ok(n) => done += n,
                Err(e) => return Err(Error::IO(e.raw_os_error())),
            }
        }
        Ok(buf)
    }

    /// Relies on `rustix::io::pwrite` on a regular file: after a successful
    /// full write at offset `id * PAGE_SIZE`, that slot reads back as `buf`;
    /// a failed or partial write leaves the slot in an unknown state.
    #[verifier::external_body]
    fn raw_write(&mut self, id: u64, buf: &[u8]) -> (r: Result<()>)
        requires
            id <= MAX_PAGE_ID,
            buf@.len() == PAGE_SIZE,
        ensures
            final(self).cfg() == old(self).cfg(),
            forall|id2: u64| id2 != id ==> final(self).raw_at(id2) == old(self).raw_at(id2),
            match r {
                Ok(()) => final(self).frames@ == old(self).frames@.insert(id, buf@),
                Err(e) => e matches Error::IO(_),
            },
    {
        let mut done: usize = 0;
        while done < buf.len() {
            let off = id * PAGE_SIZE as u64 + done as u64;
            match rustix::io::pwrite(&self.io, &buf[done..], off) {
                Ok(0) => return Err(Error::IO(5)),
                Ok(n) => done += n,
                Err(e) => return Err(Error::IO(e.raw_os_error())),
            }
        }
        Ok(())
    }

    /// Relies on `rustix::fs::fdatasync`: forces the written pages durable.
    #[verifier::external_body]
    pub fn flush(&self) -> (r: Result<()>)
        ensures
            match r {
                Ok(()) => true,
                Err(e) => e matches Error::IO(_),
            },
    {
        match rustix::fs::fdatasync(&self.io) {
            Ok(()) => Ok(()),
            Err(e) => Err(Error::IO(e.raw_os_error())),
        }
    }

    /// Relies on `rustix::fs::fallocate` with `PUNCH_HOLE | KEEP_SIZE`: the
    /// punched page range reads back as zeroes, and no other slot changes.
    #[verifier::external_body]
    fn raw_punch(&mut self, start: u64, end: u64) -> (r: Result<()>)
        requires
            start <= end,
            end <= MAX_PAGE_ID,
        ensures
            final(self).cfg() == old(self).cfg(),
            forall|id: u64|
                !(start <= id < end) ==> final(self).raw_at(id) == old(self).raw_at(id),
            match r {
                Ok(()) => forall|id: u64|
                    start <= id < end ==> final(self).raw_at(id) == zeros(PAGE_SIZE as nat),
                Err(e) => e matches Error::IO(_),
            },
    {
        if start == end {
            return Ok(());
        }
        let flags = rustix::fs::FallocateFlags::PUNCH_HOLE | rustix::fs::FallocateFlags::KEEP_SIZE;
        let offset = start * PAGE_SIZE as u64;
        let len = (end - start) * PAGE_SIZE as u64;
        match rustix::fs::fallocate(&self.io, flags, offset, len) {
            Ok(()) => Ok(()),
            Err(e) => Err(Error::IO(e.raw_os_error())),
        }
    }

    /// Encode, frame and store one page; on success, exactly slot `id`
    /// changed and reads back as this page.
    pub fn write_page(&mut self, id: u64, page: &Page) -> (r: Result<()>)
        requires
            old(self).cfg_wf(),
            id <= MAX_PAGE_ID,
            page@.wf(),
            pairs_sized(page@.kvs, old(self).ksize as nat, old(self).vsize as nat),
            page@.kvs.len() <= old(self).max_kv,
        ensures
            final(self).cfg() == old(self).cfg(),
            forall|id2: u64| id2 != id ==> final(self).raw_at(id2) == old(self).raw_at(id2),
            match r {
                Ok(()) => {
                    &&& final(self).page_at(id) == Some(page@)
                    &&& final(self).frames@ == old(self).frames@.insert(
                        id,
                        spec_frame(spec_encode_page(page@)),
                    )
                },
                Err(e) => e matches Error::IO(_),
            },
    {
        proof {
            lemma_page_fits(page@, self.ksize as nat, self.vsize as nat, self.max_kv);
            assert(pairs_fit(page@.kvs));
        }
        let payload = encode_page(page);
        let buf = build_frame(payload.as_slice());
        match self.raw_write(id, buf.as_slice()) {
            Ok(()) => {
                proof {
                    lemma_frame_roundtrip(spec_encode_page(page@));
                    lemma_decode_encode_page(
                        page@,
                        self.ksize as nat,
                        self.vsize as nat,
                        self.max_kv,
                    );
                }
                Ok(())
            },
            Err(e) => Err(e),
        }
    }

    /// Load and decode the page at `id`; `None` where the slot holds no
    /// valid page.
    pub fn read_page(&self, id: u64) -> (r: Result<Option<Page>>)
        requires
            self.cfg_wf(),
            id <= MAX_PAGE_ID,
        ensures
            match r {
                Ok(Some(p)) => {
                    &&& self.page_at(id) == Some(p@)
                    &&& p@.wf()
                    &&& pairs_sized(p@.kvs, self.ksize as nat, self.vsize as nat)
                    &&& p@.kvs.len() <= self.max_kv
                },
                Ok(None) => self.page_at(id) is None,
                Err(e) => e matches Error::IO(_),
            },
    {
        let buf = match self.raw_read(id) {
            Ok(b) => b,
            Err(e) => {
                return Err(e);
            },
        };
        match parse_frame(buf.as_slice()) {
            None => Ok(None),
            Some(payload) => {
                match decode_page(payload.as_slice(), self.ksize, self.vsize, self.max_kv) {
                    None => Ok(None),
                    Some(p) => Ok(Some(p)),
                }
            },
        }
    }

    /// Give the storage of pages `[start, end)` back to the file system;
    /// an optimization for overflow reclamation, not needed for correctness.
    pub fn free_page_range(&mut self, start: u64, end: u64) -> (r: Result<()>)
        requires
            start <= end,
            end <= MAX_PAGE_ID,
        ensures
            final(self).cfg() == old(self).cfg(),
            forall|id: u64|
                !(start <= id < end) ==> final(self).raw_at(id) == old(self).raw_at(id),
            match r {
                Ok(()) => forall|id: u64| start <= id < end ==> final(self).page_at(id) is None,
                Err(e) => e matches Error::IO(_),
            },
    {
        match self.raw_punch(start, end) {
            Ok(()) => {
                proof {
                    crate::frame::lemma_zero_frame_absent();
                }
                Ok(())
            },
            Err(e) => Err(e),
        }
    }
}

} // verus!
