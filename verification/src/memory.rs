//! A backend that keeps its files in memory.

use vstd::prelude::*;
use vstd::utf8;

use crate::bytes::copy_bytes;
use crate::io;
use crate::io::{IoBackend, SegmentFile, MAX_FILE_LEN};
use crate::table::Table;
use crate::text;

verus! {

/// A file in memory. What has been written is as safe as it gets at once.
pub struct MemoryFile {
    bytes: Vec<u8>,
    written: Ghost<nat>,
    flushed: Ghost<nat>,
}

/// `std::io::Error` made from `ErrorKind::UnexpectedEof`. Nothing is stated of
/// the error.
#[verifier::external_body]
fn out_of_range() -> std::io::Error {
    std::io::Error::from(std::io::ErrorKind::UnexpectedEof)
}

impl SegmentFile for MemoryFile {
    closed spec fn bytes(&self) -> Seq<u8> {
        self.bytes@
    }

    closed spec fn synced(&self) -> nat {
        self.bytes@.len()
    }

    closed spec fn writes(&self) -> nat {
        self.written@
    }

    closed spec fn flushes(&self) -> nat {
        self.flushed@
    }

    closed spec fn steady(&self) -> bool {
        MAX_FILE_LEN <= usize::MAX
    }

    fn len(&self) -> Result<u64, std::io::Error> {
        if self.bytes.len() as u64 > MAX_FILE_LEN {
            return Err(out_of_range());
        }
        Ok(self.bytes.len() as u64)
    }

    fn read_at(&self, buf: &mut [u8], offset: u64) -> Result<(), std::io::Error> {
        let n: usize = buf.len();
        if offset > self.bytes.len() as u64 || n as u64 > self.bytes.len() as u64 - offset {
            return Err(out_of_range());
        }
        let start: usize = offset as usize;
        let mut i: usize = 0;
        while i < n
            invariant
                i <= n,
                n == buf@.len(),
                n == old(buf)@.len(),
                start + n <= self.bytes@.len() <= usize::MAX,
                forall|k: int| 0 <= k < i ==> buf@[k] == self.bytes@[start + k],
            decreases n - i,
        {
            buf[i] = self.bytes[start + i];
            i += 1;
        }
        assert(buf@ =~= self.bytes@.subrange(start as int, start + n));
        Ok(())
    }

    fn write_at(&mut self, data: &[u8], offset: u64) -> Result<(), std::io::Error> {
        proof {
            self.written@ = self.written@ + 1;
        }
        let n: usize = data.len();
        if offset as u128 + n as u128 > MAX_FILE_LEN as u128 || offset as u128 + n as u128
            > usize::MAX as u128 {
            return Err(out_of_range());
        }
        let start: usize = offset as usize;
        let end: usize = start + n;
        let ghost before = self.bytes@;
        while self.bytes.len() < end
            invariant
                self.flushed == old(self).flushed,
                self.written@ == old(self).written@ + 1,
                before.len() <= self.bytes@.len(),
                self.bytes@.len() <= end || self.bytes@.len() == before.len(),
                forall|k: int| 0 <= k < before.len() ==> self.bytes@[k] == before[k],
                forall|k: int| before.len() <= k < self.bytes@.len() ==> self.bytes@[k] == 0,
            decreases end - self.bytes@.len(),
        {
            self.bytes.push(0);
        }
        let ghost padded = self.bytes@;
        let mut i: usize = 0;
        while i < n
            invariant
                i <= n,
                n == data@.len(),
                start + n == end,
                end <= padded.len(),
                self.flushed == old(self).flushed,
                self.written@ == old(self).written@ + 1,
                padded.len() == self.bytes@.len(),
                forall|k: int|
                    0 <= k < padded.len() ==> #[trigger] self.bytes@[k] == (if start <= k < start
                        + i {
                        data@[k - start]
                    } else {
                        padded[k]
                    }),
            decreases n - i,
        {
            self.bytes.set(start + i, data[i]);
            i += 1;
        }
        assert(self.bytes@ =~= io::overwrite(before, offset as nat, data@));
        Ok(())
    }

    fn sync(&mut self) -> Result<(), std::io::Error> {
        proof {
            self.flushed@ = self.flushed@ + 1;
        }
        Ok(())
    }
}

/// Files in memory, by path. A file that is open is with its handle.
pub struct MemoryBackend {
    files: Table<Vec<u8>>,
}

impl MemoryBackend {
    /// The table of files is in order.
    #[verifier::type_invariant]
    spec fn inv(&self) -> bool {
        self.files.wf()
    }

    /// A backend without files.
    pub fn new() -> (b: Self)
        ensures
            forall|p: Seq<char>| (#[trigger] b.contents(p)).len() == 0,
            MAX_FILE_LEN <= usize::MAX ==> b.steady(),
    {
        MemoryBackend { files: Table::new() }
    }
}

/// What stands at a path in a table of files.
spec fn file_in(files: Map<Seq<u8>, Vec<u8>>, path: Seq<char>) -> Seq<u8> {
    let key = utf8::encode_utf8(path);
    if files.contains_key(key) {
        files[key]@
    } else {
        Seq::empty()
    }
}

impl IoBackend for MemoryBackend {
    type SegmentFile = MemoryFile;

    closed spec fn contents(&self, path: Seq<char>) -> Seq<u8> {
        file_in(self.files@, path)
    }

    closed spec fn settled(&self, path: Seq<char>) -> nat {
        file_in(self.files@, path).len()
    }

    closed spec fn steady(&self) -> bool {
        &&& MAX_FILE_LEN <= usize::MAX
        &&& forall|path: Seq<char>| (#[trigger] file_in(self.files@, path)).len() <= MAX_FILE_LEN
    }

    fn open(&mut self, path: &str) -> Result<MemoryFile, std::io::Error> {
        proof {
            use_type_invariant(&*self);
        }
        let mut files: Table<Vec<u8>> = Table::new();
        std::mem::swap(&mut files, &mut self.files);
        let ghost before = files@;
        let found = files.remove(path.as_bytes());
        let bytes = match found {
            Some(bytes) => bytes,
            None => Vec::new(),
        };
        assert forall|p: Seq<char>| p != path@ implies #[trigger] file_in(files@, p) == file_in(
            before,
            p,
        ) by {
            if utf8::encode_utf8(p) == utf8::encode_utf8(path@) {
                text::utf8_is_injective(p, path@);
            }
        }
        assert(bytes@ =~= file_in(before, path@));
        if bytes.len() as u64 > MAX_FILE_LEN {
            files.insert(copy_bytes(path.as_bytes()), bytes);
            self.files = files;
            return Err(out_of_range());
        }
        self.files = files;
        Ok(MemoryFile { bytes, written: Ghost(0), flushed: Ghost(0) })
    }

    fn replace(&mut self, file: MemoryFile, from: &str, to: &str) -> Result<
        MemoryFile,
        std::io::Error,
    > {
        proof {
            use_type_invariant(&*self);
        }
        let mut files: Table<Vec<u8>> = Table::new();
        std::mem::swap(&mut files, &mut self.files);
        let ghost before = files@;
        files.remove(from.as_bytes());
        assert forall|p: Seq<char>| p != from@ implies #[trigger] file_in(files@, p) == file_in(
            before,
            p,
        ) by {
            if utf8::encode_utf8(p) == utf8::encode_utf8(from@) {
                text::utf8_is_injective(p, from@);
            }
        }
        self.files = files;
        Ok(file)
    }
}

} // verus!
