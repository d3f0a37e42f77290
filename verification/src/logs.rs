//! Log files held as plain bytes: positioned readers and writers over them,
//! and the data directory as the list of its log files by generation.

use crate::bytes::append_bytes;
use crate::error::KvError;
use vstd::prelude::*;
use vstd::slice::{slice_subrange, slice_to_vec};
use vstd::string::StringExecFns;

verus! {

/// A writer that appends to the bytes of one log file and knows the offset
/// at which the next byte will land.
pub struct BufWriterWithPos {
    inner: Vec<u8>,
    pos: u64,
}

impl View for BufWriterWithPos {
    type V = Seq<u8>;

    closed spec fn view(&self) -> Seq<u8> {
        self.inner@
    }
}

impl BufWriterWithPos {
    /// The offset of the next byte to be written.
    pub closed spec fn spec_pos(&self) -> u64 {
        self.pos
    }

    /// The writer stands at the end of its bytes.
    pub closed spec fn wf(&self) -> bool {
        self.pos == self.inner@.len()
    }

    /// A writer positioned at the end of `inner`.
    pub fn new(inner: Vec<u8>) -> (writer: BufWriterWithPos)
        ensures
            writer.wf(),
            writer@ == inner@,
            writer.spec_pos() == inner@.len(),
    {
        let pos = inner.len() as u64;
        BufWriterWithPos { inner, pos }
    }

    /// The offset of the next byte to be written.
    pub fn pos(&self) -> (pos: u64)
        requires
            self.wf(),
        ensures
            pos == self.spec_pos(),
            pos == self@.len(),
    {
        self.pos
    }

    /// Appends `buf` and moves the position on by its length, which is
    /// returned.
    pub fn write(&mut self, buf: &[u8]) -> (written: usize)
        requires
            old(self).wf(),
        ensures
            final(self).wf(),
            final(self)@ == old(self)@ + buf@,
            final(self).spec_pos() == old(self).spec_pos() + buf@.len(),
            written == buf@.len(),
    {
        append_bytes(&mut self.inner, buf);
        self.pos = self.inner.len() as u64;
        buf.len()
    }

    /// The bytes written so far.
    pub fn bytes(&self) -> (bytes: &Vec<u8>)
        ensures
            bytes@ == self@,
    {
        &self.inner
    }
}

/// Where to move a reader to: an offset from the start, from the end, or
/// from where the reader stands.
#[derive(Debug, Clone, Copy, PartialEq, Eq, Structural)]
pub enum SeekFrom {
    Start(u64),
    End(i64),
    Current(i64),
}

impl SeekFrom {
    /// The offset that is meant, in a source of `len` bytes for a reader
    /// that stands at `pos`.
    pub open spec fn target(self, len: nat, pos: u64) -> int {
        match self {
            SeekFrom::Start(offset) => offset as int,
            SeekFrom::End(delta) => len + delta,
            SeekFrom::Current(delta) => pos + delta,
        }
    }
}

/// A reader over the bytes of one log file that knows the offset of the next
/// byte it will hand out.
pub struct BufReaderWithPos<'a> {
    inner: &'a [u8],
    pos: u64,
}

impl<'a> BufReaderWithPos<'a> {
    /// The bytes that the reader reads from.
    pub closed spec fn source(&self) -> Seq<u8> {
        self.inner@
    }

    /// The offset of the next byte to be read.
    pub closed spec fn spec_pos(&self) -> u64 {
        self.pos
    }

    /// A reader positioned at the start of `inner`.
    pub fn new(inner: &'a [u8]) -> (reader: BufReaderWithPos<'a>)
        ensures
            reader.source() == inner@,
            reader.spec_pos() == 0,
    {
        BufReaderWithPos { inner, pos: 0 }
    }

    /// The offset of the next byte to be read.
    pub fn pos(&self) -> (pos: u64)
        ensures
            pos == self.spec_pos(),
    {
        self.pos
    }

    /// Moves to the offset that `to` names and returns it. An offset behind
    /// the last byte is allowed; nothing can be read there. An offset before
    /// the first byte, or one that no `u64` can say, is an error and leaves
    /// the reader where it was.
    pub fn seek(&mut self, to: SeekFrom) -> (now: Result<u64, KvError>)
        ensures
            final(self).source() == old(self).source(),
            now is Ok <==> 0 <= to.target(old(self).source().len(), old(self).spec_pos())
                <= u64::MAX,
            now matches Ok(pos) ==> pos == to.target(
                old(self).source().len(),
                old(self).spec_pos(),
            ) && final(self).spec_pos() == pos,
            now matches Err(e) ==> e is Io && final(self).spec_pos() == old(self).spec_pos(),
    {
        let (base, delta): (u64, i64) = match to {
            SeekFrom::Start(pos) => {
                self.pos = pos;
                return Ok(pos);
            },
            SeekFrom::End(delta) => (self.inner.len() as u64, delta),
            SeekFrom::Current(delta) => (self.pos, delta),
        };
        let target: i128 = base as i128 + delta as i128;
        if target < 0 || target > u64::MAX as i128 {
            return Err(KvError::Io(String::from_str("invalid seek")));
        }
        self.pos = target as u64;
        Ok(self.pos)
    }

    /// Hands out the next `len` bytes, or as many as are left, and moves on
    /// by the number of bytes handed out.
    pub fn read(&mut self, len: usize) -> (bytes: Vec<u8>)
        ensures
            final(self).source() == old(self).source(),
            bytes@ == spec_read(old(self).source(), old(self).spec_pos(), len),
            final(self).spec_pos() == old(self).spec_pos() + bytes@.len(),
    {
        if self.pos >= self.inner.len() as u64 {
            return Vec::new();
        }
        let start = self.pos as usize;
        let left = self.inner.len() - start;
        let take = if len < left {
            len
        } else {
            left
        };
        let bytes = slice_to_vec(slice_subrange(self.inner, start, start + take));
        self.pos = (start + take) as u64;
        bytes
    }

    /// Hands out exactly the next `len` bytes and moves on behind them, or
    /// hands out nothing and stays where fewer than `len` bytes are left.
    pub fn read_exact(&mut self, len: usize) -> (bytes: Option<Vec<u8>>)
        ensures
            final(self).source() == old(self).source(),
            bytes is Some <==> old(self).spec_pos() + len <= old(self).source().len(),
            bytes matches Some(b) ==> b@ == old(self).source().subrange(
                old(self).spec_pos() as int,
                old(self).spec_pos() + len,
            ),
            bytes is Some ==> final(self).spec_pos() == old(self).spec_pos() + len,
            bytes is None ==> final(self).spec_pos() == old(self).spec_pos(),
    {
        if self.pos > self.inner.len() as u64 {
            return None;
        }
        let start = self.pos as usize;
        if self.inner.len() - start < len {
            return None;
        }
        let bytes = slice_to_vec(slice_subrange(self.inner, start, start + len));
        self.pos = (start + len) as u64;
        Some(bytes)
    }
}

/// The bytes that a read of up to `len` bytes at offset `pos` gives.
pub open spec fn spec_read(source: Seq<u8>, pos: u64, len: usize) -> Seq<u8> {
    if pos >= source.len() {
        Seq::empty()
    } else if pos + len <= source.len() {
        source.subrange(pos as int, pos + len)
    } else {
        source.subrange(pos as int, source.len() as int)
    }
}

/// A log file as mathematics sees it: its generation and its bytes.
pub struct LogView {
    pub gen: u64,
    pub data: Seq<u8>,
}

/// Whether the generations of `logs` ascend strictly.
pub open spec fn ascending(logs: Seq<LogView>) -> bool {
    forall|i: int, j: int| 0 <= i < j < logs.len() ==> logs[i].gen < logs[j].gen
}

/// Whether one of `logs` has generation `gen`.
pub open spec fn has_gen(logs: Seq<LogView>, gen: u64) -> bool {
    exists|i: int| 0 <= i < logs.len() && #[trigger] logs[i].gen == gen
}

/// The place among `logs` of the log of generation `gen`.
pub open spec fn place_of(logs: Seq<LogView>, gen: u64) -> int {
    choose|i: int| 0 <= i < logs.len() && #[trigger] logs[i].gen == gen
}

/// The bytes of the log of generation `gen` among `logs`.
pub open spec fn data_of(logs: Seq<LogView>, gen: u64) -> Seq<u8> {
    logs[place_of(logs, gen)].data
}

/// `logs` without the logs at its front whose generation is below `gen`.
pub open spec fn drop_below(logs: Seq<LogView>, gen: u64) -> Seq<LogView>
    decreases logs.len(),
{
    if logs.len() == 0 || logs[0].gen >= gen {
        logs
    } else {
        drop_below(logs.subrange(1, logs.len() as int), gen)
    }
}

/// `logs` with `bytes` appended to its last log.
pub open spec fn append_last(logs: Seq<LogView>, bytes: Seq<u8>) -> Seq<LogView> {
    logs.update(
        logs.len() - 1,
        LogView { gen: logs.last().gen, data: logs.last().data + bytes },
    )
}

/// Among ascending logs a generation stands at one place only.
pub proof fn lemma_place_of(logs: Seq<LogView>, i: int)
    requires
        ascending(logs),
        0 <= i < logs.len(),
    ensures
        has_gen(logs, logs[i].gen),
        place_of(logs, logs[i].gen) == i,
{
    let j = place_of(logs, logs[i].gen);
    if j < i {
        assert(logs[j].gen < logs[i].gen);
    } else if i < j {
        assert(logs[i].gen < logs[j].gen);
    }
}

/// One log file of the data directory.
pub struct LogFile {
    gen: u64,
    log: BufWriterWithPos,
}

/// The data directory: its log files, in the order of their generations.
pub struct LogDir {
    files: Vec<LogFile>,
}

impl View for LogDir {
    type V = Seq<LogView>;

    closed spec fn view(&self) -> Seq<LogView> {
        Seq::new(
            self.files@.len(),
            |i: int| LogView { gen: self.files@[i].gen, data: self.files@[i].log@ },
        )
    }
}

impl LogDir {
    /// The generations ascend strictly, and every file's writer stands at
    /// the end of the file.
    pub closed spec fn wf(&self) -> bool {
        &&& ascending(self@)
        &&& forall|i: int| 0 <= i < self.files@.len() ==> (#[trigger] self.files@[i]).log.wf()
    }

    /// A well-formed directory lists its files by ascending generation, and
    /// none of its files is longer than an offset can say.
    pub proof fn lemma_wf(&self)
        requires
            self.wf(),
        ensures
            ascending(self@),
            forall|i: int| 0 <= i < self@.len() ==> (#[trigger] self@[i]).data.len() <= u64::MAX,
    {
        assert forall|i: int| 0 <= i < self@.len() implies (#[trigger] self@[i]).data.len()
            <= u64::MAX by {
            assert(self.files@[i].log.wf());
        }
    }

    /// A directory without files.
    pub fn new() -> (dir: LogDir)
        ensures
            dir.wf(),
            dir@.len() == 0,
    {
        LogDir { files: Vec::new() }
    }

    /// The number of log files.
    pub fn len(&self) -> (len: usize)
        ensures
            len == self@.len(),
    {
        self.files.len()
    }

    /// The generation of the file at place `i`.
    pub fn gen_at(&self, i: usize) -> (gen: u64)
        requires
            i < self@.len(),
        ensures
            gen == self@[i as int].gen,
    {
        self.files[i].gen
    }

    /// The bytes of the file at place `i`.
    pub fn data_at(&self, i: usize) -> (data: &Vec<u8>)
        requires
            i < self@.len(),
        ensures
            data@ == self@[i as int].data,
    {
        self.files[i].log.bytes()
    }

    /// The generations of the files, in ascending order.
    pub fn gens(&self) -> (gens: Vec<u64>)
        ensures
            gens@.len() == self@.len(),
            forall|i: int| 0 <= i < gens@.len() ==> gens@[i] == (#[trigger] self@[i]).gen,
    {
        let mut gens: Vec<u64> = Vec::new();
        let mut i: usize = 0;
        while i < self.files.len()
            invariant
                i <= self.files@.len(),
                gens@.len() == i,
                forall|j: int| 0 <= j < i ==> gens@[j] == (#[trigger] self@[j]).gen,
            decreases self.files@.len() - i,
        {
            gens.push(self.files[i].gen);
            i = i + 1;
        }
        gens
    }

    /// The place of the file of generation `gen`, if there is one.
    pub fn find(&self, gen: u64) -> (place: Option<usize>)
        ensures
            place is Some <==> has_gen(self@, gen),
            place matches Some(i) ==> i < self@.len() && self@[i as int].gen == gen,
    {
        let mut i: usize = 0;
        while i < self.files.len()
            invariant
                i <= self.files@.len(),
                forall|j: int| 0 <= j < i ==> (#[trigger] self@[j]).gen != gen,
            decreases self.files@.len() - i,
        {
            if self.files[i].gen == gen {
                assert(self@[i as int].gen == gen);
                return Some(i);
            }
            i = i + 1;
        }
        None
    }

    /// Adds a log file of generation `gen` that holds `data`, where `gen` is
    /// above every generation of the directory; says whether it did.
    pub fn create(&mut self, gen: u64, data: Vec<u8>) -> (created: bool)
        requires
            old(self).wf(),
        ensures
            final(self).wf(),
            created == (old(self)@.len() == 0 || old(self)@.last().gen < gen),
            created ==> final(self)@ == old(self)@.push(LogView { gen, data: data@ }),
            !created ==> final(self)@ == old(self)@,
    {
        let n = self.files.len();
        if n > 0 && self.files[n - 1].gen >= gen {
            assert(old(self)@.last().gen == self.files@[n - 1].gen);
            return false;
        }
        let log = BufWriterWithPos::new(data);
        self.files.push(LogFile { gen, log });
        assert(self@ =~= old(self)@.push(LogView { gen, data: data@ }));
        assert(ascending(self@)) by {
            assert forall|i: int, j: int| 0 <= i < j < self@.len() implies self@[i].gen
                < self@[j].gen by {
                if j < n {
                    assert(old(self)@[i].gen < old(self)@[j].gen);
                } else {
                    assert(old(self)@[i].gen <= old(self)@.last().gen);
                }
            }
        }
        true
    }

    /// Appends `bytes` to the last log file and returns the offset at which
    /// they start.
    pub fn append(&mut self, bytes: &[u8]) -> (pos: u64)
        requires
            old(self).wf(),
            old(self)@.len() > 0,
        ensures
            final(self).wf(),
            final(self)@ == append_last(old(self)@, bytes@),
            pos == old(self)@.last().data.len(),
    {
        let ghost before = self.files@;
        let mut last = self.files.pop().unwrap();
        assert(last == before.last());
        assert(last.log.wf());
        let pos = last.log.pos();
        last.log.write(bytes);
        self.files.push(last);
        assert(self@ =~= append_last(old(self)@, bytes@));
        assert(forall|i: int|
            0 <= i < self.files@.len() - 1 ==> self.files@[i] == before[i]);
        pos
    }

    /// Reads `len` bytes at offset `pos` of the file at place `i`, where the
    /// file holds them.
    pub fn read_at(&self, i: usize, pos: u64, len: u64) -> (bytes: Option<Vec<u8>>)
        requires
            i < self@.len(),
        ensures
            bytes is Some <==> pos + len <= self@[i as int].data.len(),
            bytes matches Some(b) ==> b@ == self@[i as int].data.subrange(pos as int, pos + len),
    {
        let data = self.files[i].log.bytes();
        if len > data.len() as u64 {
            return None;
        }
        let mut reader = BufReaderWithPos::new(data.as_slice());
        let _ = reader.seek(SeekFrom::Start(pos));
        reader.read_exact(len as usize)
    }

    /// Deletes the log files whose generation is below `gen`.
    pub fn remove_below(&mut self, gen: u64)
        requires
            old(self).wf(),
        ensures
            final(self).wf(),
            final(self)@ == drop_below(old(self)@, gen),
    {
        while self.files.len() > 0 && self.files[0].gen < gen
            invariant
                self.wf(),
                drop_below(self@, gen) == drop_below(old(self)@, gen),
            decreases self.files@.len(),
        {
            let ghost before = self@;
            let ghost files_before = self.files@;
            self.files.remove(0);
            assert(self@ =~= before.subrange(1, before.len() as int));
            assert(ascending(self@)) by {
                assert forall|i: int, j: int| 0 <= i < j < self@.len() implies self@[i].gen
                    < self@[j].gen by {
                    assert(before[i + 1].gen < before[j + 1].gen);
                }
            }
            assert(forall|i: int|
                0 <= i < self.files@.len() ==> self.files@[i] == files_before[i + 1]);
        }
        assert(self@.len() > 0 ==> self@[0].gen == self.files@[0].gen);
    }
}

} // verus!
