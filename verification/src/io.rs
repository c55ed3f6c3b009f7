//! Pluggable I/O backends.
//!
//! The engine is written against [`IoBackend`] so the same segment logic runs
//! over portable positioned I/O and over `io_uring`. Backends are
//! synchronous at this layer; concurrency lives above the store, not inside
//! it.
//!
//! Four things are known of a file: the bytes that a read finds, how many of
//! its leading bytes have reached the device, how often it was written to and
//! how often it was flushed. A backend over a real device is ordinary Rust: what
//! the traits say of its files is then taken on its word, and no operation on it
//! promises to succeed. A backend that is verified may be steady: what it is
//! asked within its limits, it does.

use vstd::prelude::*;

verus! {

/// The length that no file exceeds.
pub const MAX_FILE_LEN: u64 = 0x7fff_ffff_ffff_ffff;

/// `bytes` after `data` has been written at `offset`. A gap between the end of
/// the file and `offset` reads as zeros.
pub open spec fn overwrite(bytes: Seq<u8>, offset: nat, data: Seq<u8>) -> Seq<u8> {
    let end = offset + data.len();
    Seq::new(
        if bytes.len() < end {
            end
        } else {
            bytes.len()
        },
        |i: int|
            if offset <= i < end {
                data[i - offset]
            } else if i < bytes.len() {
                bytes[i]
            } else {
                0u8
            },
    )
}

/// What is left of `before` when a write of `n` bytes at `offset` fails: no
/// byte outside of the range has changed, and nothing has been cut off.
pub open spec fn kept_outside(before: Seq<u8>, after: Seq<u8>, offset: nat, n: nat) -> bool {
    &&& before.len() <= after.len()
    &&& after.len() <= before.len() || after.len() <= offset + n
    &&& forall|i: int|
        0 <= i < before.len() && !(offset <= i < offset + n) ==> #[trigger] after[i] == before[i]
}

/// An open segment file.
pub trait SegmentFile: Sized {
    /// The bytes that reads find.
    closed spec fn bytes(&self) -> Seq<u8> {
        arbitrary()
    }

    /// How many leading bytes have reached the device and survive a crash.
    closed spec fn synced(&self) -> nat {
        arbitrary()
    }

    /// How often the file has been written to.
    closed spec fn writes(&self) -> nat {
        arbitrary()
    }

    /// How often the file has been flushed.
    closed spec fn flushes(&self) -> nat {
        arbitrary()
    }

    /// Whether the file is known not to fail. Of a real device it is not.
    closed spec fn steady(&self) -> bool {
        false
    }

    /// The length of the file.
    fn len(&self) -> (r: Result<u64, std::io::Error>)
        ensures
            r matches Ok(n) ==> n == self.bytes().len() && n <= MAX_FILE_LEN,
            self.steady() && self.bytes().len() <= MAX_FILE_LEN ==> r is Ok,
    ;

    fn is_empty(&self) -> (r: Result<bool, std::io::Error>)
        ensures
            r matches Ok(b) ==> b == (self.bytes().len() == 0),
            self.steady() && self.bytes().len() <= MAX_FILE_LEN ==> r is Ok,
    {
        match self.len() {
            Ok(n) => Ok(n == 0),
            Err(e) => Err(e),
        }
    }

    /// Read exactly `buf.len()` bytes at `offset`.
    fn read_at(&self, buf: &mut [u8], offset: u64) -> (r: Result<(), std::io::Error>)
        ensures
            final(buf)@.len() == old(buf)@.len(),
            r is Ok ==> offset + old(buf)@.len() <= self.bytes().len() && final(buf)@
                == self.bytes().subrange(offset as int, offset + old(buf)@.len()),
            self.steady() && offset + old(buf)@.len() <= self.bytes().len() ==> r is Ok,
    ;

    /// Write all of `data` at `offset`.
    fn write_at(&mut self, data: &[u8], offset: u64) -> (r: Result<(), std::io::Error>)
        ensures
            r is Ok ==> final(self).bytes() == overwrite(old(self).bytes(), offset as nat, data@),
            old(self).bytes().len() <= MAX_FILE_LEN ==> final(self).bytes().len() <= MAX_FILE_LEN,
            r is Err ==> kept_outside(
                old(self).bytes(),
                final(self).bytes(),
                offset as nat,
                data@.len(),
            ),
            final(self).synced() >= old(self).synced() || final(self).synced() >= offset,
            old(self).steady() ==> final(self).steady(),
            final(self).writes() == old(self).writes() + 1,
            final(self).flushes() == old(self).flushes(),
            old(self).steady() && offset + data@.len() <= MAX_FILE_LEN ==> r is Ok,
    ;

    /// Durably flush data to the device.
    fn sync(&mut self) -> (r: Result<(), std::io::Error>)
        ensures
            final(self).bytes() == old(self).bytes(),
            final(self).synced() >= old(self).synced(),
            final(self).writes() == old(self).writes(),
            final(self).flushes() == old(self).flushes() + 1,
            r is Ok ==> final(self).synced() >= final(self).bytes().len(),
            old(self).steady() ==> final(self).steady() && r is Ok,
    ;
}

/// Where segment files come from.
pub trait IoBackend: Sized {
    type SegmentFile: SegmentFile;

    /// The bytes that opening a path would find; none where there is no file.
    closed spec fn contents(&self, path: Seq<char>) -> Seq<u8> {
        arbitrary()
    }

    /// How many leading bytes of the file at a path have reached the device.
    closed spec fn settled(&self, path: Seq<char>) -> nat {
        arbitrary()
    }

    /// Whether the backend is known not to fail. Of a real device it is not.
    closed spec fn steady(&self) -> bool {
        false
    }

    /// Open (creating if absent) a segment file for append and random reads.
    fn open(&mut self, path: &str) -> (r: Result<Self::SegmentFile, std::io::Error>)
        ensures
            r matches Ok(f) ==> f.bytes() == old(self).contents(path@) && f.bytes().len()
                <= MAX_FILE_LEN && f.synced() >= old(self).settled(path@),
            r is Err ==> final(self).contents(path@) == old(self).contents(path@),
            forall|p: Seq<char>|
                p != path@ ==> #[trigger] final(self).contents(p) == old(self).contents(p),
            forall|p: Seq<char>|
                p != path@ ==> #[trigger] final(self).settled(p) == old(self).settled(p),
            old(self).steady() ==> final(self).steady() && (r matches Ok(f) && f.steady()),
    ;

    /// Close `file`, which was opened at `from`, move it over whatever stands
    /// at `to` in one step, and open it there. A handle that is open on the
    /// old file at `to` still reads the old bytes.
    fn replace(&mut self, file: Self::SegmentFile, from: &str, to: &str) -> (r: Result<
        Self::SegmentFile,
        std::io::Error,
    >)
        ensures
            r matches Ok(f) ==> f.bytes() == file.bytes() && f.synced() == file.synced()
                && final(self).contents(from@).len() == 0,
            forall|p: Seq<char>|
                p != from@ && p != to@ ==> #[trigger] final(self).contents(p) == old(
                    self,
                ).contents(p),
            old(self).steady() && file.steady() ==> final(self).steady() && (r matches Ok(f)
                && f.steady()),
    ;
}

/// A write puts its data where it was told to, and leaves every other byte as it
/// was; a gap in front of it reads as zeros.
pub proof fn a_write_changes_its_range_alone(bytes: Seq<u8>, offset: nat, data: Seq<u8>, i: int)
    ensures
        overwrite(bytes, offset, data).subrange(offset as int, offset as int + data.len() as int)
            == data,
        bytes.len() <= overwrite(bytes, offset, data).len(),
        overwrite(bytes, offset, data).len() == bytes.len() || overwrite(bytes, offset, data).len()
            == offset + data.len(),
        0 <= i < bytes.len() && !(offset <= i < offset + data.len()) ==> overwrite(
            bytes,
            offset,
            data,
        )[i] == bytes[i],
        bytes.len() <= i < offset && data.len() > 0 ==> overwrite(bytes, offset, data)[i] == 0,
{
    assert(overwrite(bytes, offset, data).subrange(
        offset as int,
        offset as int + data.len() as int,
    ) =~= data);
}

/// A write behind the last byte appends.
pub proof fn a_write_at_the_end_appends(bytes: Seq<u8>, data: Seq<u8>)
    ensures
        overwrite(bytes, bytes.len(), data) == bytes + data,
{
    assert(overwrite(bytes, bytes.len(), data) =~= bytes + data);
}

/// A failed write keeps what a write that succeeds keeps.
pub proof fn a_write_keeps_what_is_outside(bytes: Seq<u8>, offset: nat, data: Seq<u8>)
    ensures
        kept_outside(bytes, overwrite(bytes, offset, data), offset, data.len()),
        kept_outside(bytes, bytes, offset, data.len()),
{
}

} // verus!
