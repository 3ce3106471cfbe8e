//! The append-only write-ahead log and its entry type.

use vstd::prelude::*;

use crate::codec::{
    decode_at, encode, lemma_decode_all_append, lemma_decode_all_count, lemma_decode_one_props,
    spec_decode_all, spec_decode_one, spec_encode,
};
use crate::error::KvError;

verus! {

/// One logical operation recorded in the log: a read marker, an upsert,
/// or a deletion. Keys and values are arbitrary text.
#[derive(Debug, Clone)]
pub enum Commands {
    Get { key: String },
    Put { key: String, value: String },
    Rm { key: String },
}

/// The mathematical value of a [`Commands`] entry: the same three-way
/// tagged union over character sequences.
#[verifier::ext_equal]
pub enum CommandView {
    Get { key: Seq<char> },
    Put { key: Seq<char>, value: Seq<char> },
    Rm { key: Seq<char> },
}

impl View for Commands {
    type V = CommandView;

    open spec fn view(&self) -> CommandView {
        match self {
            Commands::Get { key } => CommandView::Get { key: key@ },
            Commands::Put { key, value } => CommandView::Put { key: key@, value: value@ },
            Commands::Rm { key } => CommandView::Rm { key: key@ },
        }
    }
}

impl PartialEq for Commands {
    fn eq(&self, other: &Commands) -> (r: bool) {
        match (self, other) {
            (Commands::Get { key: a }, Commands::Get { key: b }) => *a == *b,
            (Commands::Put { key: a, value: va }, Commands::Put { key: b, value: vb }) => {
                *a == *b && *va == *vb
            },
            (Commands::Rm { key: a }, Commands::Rm { key: b }) => *a == *b,
            _ => false,
        }
    }
}

impl vstd::std_specs::cmp::PartialEqSpecImpl for Commands {
    open spec fn obeys_eq_spec() -> bool {
        true
    }

    open spec fn eq_spec(&self, other: &Commands) -> bool {
        self@ == other@
    }
}

/// The current write position of the log: a byte offset and a count of
/// entries written. Both only ever grow. The store is single-threaded,
/// so these counters serve observability, not synchronization.
pub struct AtomicLogPointer {
    /// The byte offset within the log.
    pub offset: u64,
    /// A monotonically increasing count of appended entries.
    pub sequence: u64,
}

impl AtomicLogPointer {
    /// A pointer at the very start of an empty log.
    pub fn new() -> (r: Self)
        ensures
            r.offset == 0,
            r.sequence == 0,
    {
        Self { offset: 0, sequence: 0 }
    }

    /// Account for one appended entry of `bytes_written` bytes.
    pub fn advance(&mut self, bytes_written: u64)
        requires
            old(self).offset + bytes_written <= u64::MAX,
            old(self).sequence < u64::MAX,
        ensures
            final(self).offset == old(self).offset + bytes_written,
            final(self).sequence == old(self).sequence + 1,
    {
        self.offset = self.offset + bytes_written;
        self.sequence = self.sequence + 1;
    }

    /// The current `(offset, sequence)` pair.
    pub fn current(&self) -> (r: (u64, u64))
        ensures
            r.0 == self.offset,
            r.1 == self.sequence,
    {
        (self.offset, self.sequence)
    }
}

/// Prepend already-replayed entries to the outcome of replaying the rest.
pub open spec fn cmds_prepend(
    acc: Seq<CommandView>,
    r: Option<Seq<CommandView>>,
) -> Option<Seq<CommandView>> {
    match r {
        Some(rest) => Some(acc + rest),
        None => None,
    }
}

/// An append-only log of entries, held as the bytes of the backing file.
///
/// The caller owns the file itself: it hands the file's current content
/// to [`WriteAheadLog::new`] and mirrors every record that
/// [`WriteAheadLog::append`] returns to the end of the file.
pub struct WriteAheadLog {
    buf: Vec<u8>,
    pointer: AtomicLogPointer,
}

impl View for WriteAheadLog {
    type V = Seq<CommandView>;

    /// The entries recorded in the log, oldest first.
    closed spec fn view(&self) -> Seq<CommandView> {
        spec_decode_all(self.buf@)->Some_0
    }
}

impl WriteAheadLog {
    /// The raw bytes of the log.
    pub closed spec fn bytes(self) -> Seq<u8> {
        self.buf@
    }

    /// The log pointer's current value.
    pub closed spec fn spec_pointer(self) -> AtomicLogPointer {
        self.pointer
    }

    /// Well-formed: the bytes are a back-to-back concatenation of exactly
    /// `sequence` well-formed entries, and `offset` is their total size.
    pub closed spec fn wf(self) -> bool {
        &&& spec_decode_all(self.buf@) is Some
        &&& self.pointer.offset == self.buf@.len()
        &&& self.pointer.sequence == spec_decode_all(self.buf@)->Some_0.len()
    }

    /// The log pointer of a well-formed log reports the byte size of the
    /// log and the number of entries in it.
    pub proof fn lemma_pointer(self)
        requires
            self.wf(),
        ensures
            self.spec_pointer().offset == self.bytes().len(),
            self.spec_pointer().sequence == self@.len(),
    {
    }

    /// The bytes of a well-formed log replay cleanly to exactly its
    /// entries.
    pub proof fn lemma_wf_bytes(self)
        requires
            self.wf(),
        ensures
            spec_decode_all(self.bytes()) == Some(self@),
    {
        match spec_decode_all(self.buf@) {
            Some(entries) => {
                assert(spec_decode_all(self.buf@) == Some(entries));
            },
            None => {
                assert(false);
            },
        }
    }

    /// The current `(offset, sequence)` pair of the log pointer: for a
    /// well-formed log, the byte size of the log and its entry count.
    pub fn pointer(&self) -> (r: (u64, u64))
        ensures
            r.0 == self.spec_pointer().offset,
            r.1 == self.spec_pointer().sequence,
    {
        self.pointer.current()
    }

    /// Open a log over the given backing bytes. Succeeds if and only if
    /// the bytes replay cleanly from the start; a truncated or corrupt
    /// tail is reported instead of being silently dropped.
    pub fn new(initial: Vec<u8>) -> (r: Result<WriteAheadLog, KvError>)
        ensures
            r is Ok <==> spec_decode_all(initial@) is Some,
            r matches Ok(w) ==> w.wf() && w.bytes() == initial@ && Some(w@) == spec_decode_all(
                initial@,
            ),
            r matches Err(e) ==> e == KvError::DecodeError,
    {
        let mut pos: usize = 0;
        let mut count: u64 = 0;
        let ghost mut done: Seq<CommandView> = Seq::empty();
        proof {
            assert(initial@.skip(0) =~= initial@);
            assert(done + spec_decode_all(initial@)->Some_0 =~= spec_decode_all(
                initial@,
            )->Some_0);
        }
        while pos < initial.len()
            invariant
                pos <= initial@.len(),
                count == done.len(),
                9 * done.len() <= pos,
                spec_decode_all(initial@) == cmds_prepend(
                    done,
                    spec_decode_all(initial@.skip(pos as int)),
                ),
            decreases initial@.len() - pos,
        {
            let ghost rem = initial@.skip(pos as int);
            match decode_at(&initial, pos) {
                Ok((cmd, next)) => {
                    proof {
                        lemma_decode_one_props(rem);
                        let u = spec_decode_one(rem)->Some_0.1;
                        assert(rem.skip(u) =~= initial@.skip(next as int));
                        let tailr = spec_decode_all(initial@.skip(next as int));
                        if tailr is Some {
                            assert(done + (seq![cmd@] + tailr->Some_0) =~= done.push(cmd@)
                                + tailr->Some_0);
                        }
                        done = done.push(cmd@);
                    }
                    pos = next;
                    count = count + 1;
                },
                Err(e) => {
                    return Err(e);
                },
            }
        }
        proof {
            assert(initial@.skip(pos as int).len() == 0);
            assert(spec_decode_all(initial@.skip(pos as int)) == Some(Seq::<CommandView>::empty()));
            assert(done + Seq::<CommandView>::empty() =~= done);
        }
        let offset = initial.len() as u64;
        Ok(
            WriteAheadLog {
                buf: initial,
                pointer: AtomicLogPointer { offset, sequence: count },
            },
        )
    }

    /// Append one entry: encode it, add the bytes at the end of the log,
    /// and advance the pointer by one entry and the record's size. The
    /// returned record is exactly what was appended; the caller must
    /// write it to the end of the backing file to make it durable.
    pub fn append(&mut self, command: Commands) -> (r: Vec<u8>)
        requires
            old(self).wf(),
        ensures
            final(self).wf(),
            final(self)@ == old(self)@.push(command@),
            r@ == spec_encode(command@),
            final(self).bytes() == old(self).bytes() + r@,
            final(self).spec_pointer().offset == old(self).spec_pointer().offset + r@.len(),
            final(self).spec_pointer().sequence == old(self).spec_pointer().sequence + 1,
    {
        let enc = encode(&command);
        let ghost oldbuf = self.buf@;
        let n = enc.len();
        let mut j: usize = 0;
        while j < n
            invariant
                j <= n,
                n == enc@.len(),
                self.buf@ == oldbuf + enc@.take(j as int),
                self.pointer == old(self).pointer,
            decreases n - j,
        {
            let b = enc[j];
            self.buf.push(b);
            proof {
                assert((oldbuf + enc@.take(j as int)).push(enc@[j as int]) =~= oldbuf + enc@.take(
                    j + 1,
                ));
            }
            j = j + 1;
        }
        proof {
            assert(enc@.take(n as int) =~= enc@);
        }
        let new_len = self.buf.len();
        proof {
            assert(new_len == oldbuf.len() + n);
            lemma_decode_all_count(oldbuf);
        }
        self.pointer.advance(n as u64);
        proof {
            lemma_decode_all_append(oldbuf, command@);
        }
        enc
    }

    /// Replay the log from the given byte offset: an iterator that
    /// decodes one entry at a time. An offset past the end of the log
    /// behaves like the end of the log.
    pub fn iter<'a>(&'a self, start_offset: u64) -> (r: CommandIterator<'a>)
        ensures
            r.wf(),
            start_offset <= self.bytes().len() ==> r.remaining() == self.bytes().skip(
                start_offset as int,
            ),
            start_offset > self.bytes().len() ==> r.remaining() == Seq::<u8>::empty(),
    {
        let len = self.buf.len();
        let pos = if start_offset >= len as u64 {
            len
        } else {
            start_offset as usize
        };
        proof {
            if start_offset > self.bytes().len() {
                assert(self.buf@.skip(len as int) =~= Seq::<u8>::empty());
            }
        }
        CommandIterator { buf: &self.buf, pos }
    }
}

/// A cursor that replays entries from a log's bytes, one at a time.
pub struct CommandIterator<'a> {
    buf: &'a Vec<u8>,
    pos: usize,
}

impl<'a> CommandIterator<'a> {
    /// The cursor has not run past the end of the bytes.
    pub closed spec fn wf(self) -> bool {
        self.pos <= self.buf@.len()
    }

    /// The bytes that remain to be replayed.
    pub closed spec fn remaining(self) -> Seq<u8> {
        self.buf@.skip(self.pos as int)
    }

    /// Decode the next entry. `Ok(Some(..))` consumes one entry;
    /// `Ok(None)` reports a clean end, with no bytes left; `DecodeError`
    /// reports a truncated or corrupt tail.
    pub fn next(&mut self) -> (r: Result<Option<Commands>, KvError>)
        requires
            old(self).wf(),
        ensures
            final(self).wf(),
            match spec_decode_one(old(self).remaining()) {
                Some(p) => {
                    &&& r matches Ok(o)
                    &&& o matches Some(cmd) && cmd@ == p.0
                    &&& final(self).remaining() == old(self).remaining().skip(p.1)
                },
                None => {
                    &&& *final(self) == *old(self)
                    &&& if old(self).remaining().len() == 0 {
                        r matches Ok(o) && o is None
                    } else {
                        r matches Err(e) && e == KvError::DecodeError
                    }
                },
            },
    {
        if self.pos == self.buf.len() {
            return Ok(None);
        }
        match decode_at(self.buf, self.pos) {
            Ok((cmd, next)) => {
                proof {
                    let u = spec_decode_one(self.buf@.skip(self.pos as int))->Some_0.1;
                    assert(self.buf@.skip(self.pos as int).skip(u) =~= self.buf@.skip(
                        self.pos as int + u,
                    ));
                }
                self.pos = next;
                Ok(Some(cmd))
            },
            Err(e) => Err(e),
        }
    }
}

} // verus!
