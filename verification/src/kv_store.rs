//! The store: an in-memory mapping kept consistent with a write-ahead log.

use vstd::prelude::*;
use vstd::hash_map::StringHashMap;

use crate::codec::{spec_decode_all, spec_decode_one, spec_encode};
use crate::error::KvError;
use crate::wal::{CommandView, Commands, WriteAheadLog};

verus! {

/// The effect of one entry on a mapping: read markers change nothing,
/// upserts associate, deletions disassociate (a no-op on absent keys).
pub open spec fn apply_cmd(
    m: Map<Seq<char>, Seq<char>>,
    c: CommandView,
) -> Map<Seq<char>, Seq<char>> {
    match c {
        CommandView::Get { key } => m,
        CommandView::Put { key, value } => m.insert(key, value),
        CommandView::Rm { key } => m.remove(key),
    }
}

/// The mapping obtained by folding a sequence of entries, in order, into
/// an empty mapping.
pub open spec fn fold_cmds(s: Seq<CommandView>) -> Map<Seq<char>, Seq<char>>
    decreases s.len(),
{
    if s.len() == 0 {
        Map::empty()
    } else {
        apply_cmd(fold_cmds(s.drop_last()), s.last())
    }
}

/// The abstract content of the in-memory map: keys to values, as
/// character sequences.
pub open spec fn map_view(m: Map<Seq<char>, String>) -> Map<Seq<char>, Seq<char>> {
    Map::new(|k: Seq<char>| m.contains_key(k), |k: Seq<char>| m[k]@)
}

proof fn lemma_map_view_insert(m: Map<Seq<char>, String>, k: Seq<char>, v: String)
    ensures
        map_view(m.insert(k, v)) == map_view(m).insert(k, v@),
{
    assert(map_view(m.insert(k, v)) =~= map_view(m).insert(k, v@));
}

proof fn lemma_map_view_remove(m: Map<Seq<char>, String>, k: Seq<char>)
    ensures
        map_view(m.remove(k)) == map_view(m).remove(k),
{
    assert(map_view(m.remove(k)) =~= map_view(m).remove(k));
}

/// The upserts and deletions of an entry sequence, in order, with every
/// read marker left out.
pub open spec fn mutations_only(s: Seq<CommandView>) -> Seq<CommandView>
    decreases s.len(),
{
    if s.len() == 0 {
        Seq::empty()
    } else if s.last() is Get {
        mutations_only(s.drop_last())
    } else {
        mutations_only(s.drop_last()).push(s.last())
    }
}

/// Fold correctness: the mapping obtained by folding a sequence of
/// entries equals the one obtained by folding only its upserts and
/// deletions; interleaved read markers never affect reconstructed state.
pub proof fn lemma_fold_ignores_get(s: Seq<CommandView>)
    ensures
        fold_cmds(s) == fold_cmds(mutations_only(s)),
    decreases s.len(),
{
    if s.len() != 0 {
        lemma_fold_ignores_get(s.drop_last());
        if !(s.last() is Get) {
            let ms = mutations_only(s);
            assert(ms.drop_last() =~= mutations_only(s.drop_last()));
            assert(ms.last() == s.last());
        }
    }
}

/// Read-after-write: after an upsert of `k` to `v`, a lookup of `k`
/// finds `v`; the read marker a lookup appends changes nothing.
pub proof fn lemma_read_after_write(m: Map<Seq<char>, Seq<char>>, k: Seq<char>, v: Seq<char>)
    ensures
        ({
            let m2 = apply_cmd(apply_cmd(m, CommandView::Put { key: k, value: v }),
                CommandView::Get { key: k });
            m2.contains_key(k) && m2[k] == v
        }),
{
}

/// Delete-then-read: after an upsert of `k` and then a deletion of `k`,
/// a lookup of `k` finds nothing.
pub proof fn lemma_delete_then_read(m: Map<Seq<char>, Seq<char>>, k: Seq<char>, v: Seq<char>)
    ensures
        !apply_cmd(apply_cmd(m, CommandView::Put { key: k, value: v }),
            CommandView::Rm { key: k }).contains_key(k),
{
}

/// A key-value store: an authoritative in-memory mapping, backed
/// durably by a write-ahead log and rebuilt from it on every open.
pub struct KvStore {
    inner: StringHashMap<String>,
    write_ahead_log: WriteAheadLog,
}

impl View for KvStore {
    type V = Map<Seq<char>, Seq<char>>;

    /// The current mapping from keys to values.
    closed spec fn view(&self) -> Map<Seq<char>, Seq<char>> {
        map_view(self.inner@)
    }
}

impl KvStore {
    /// The entries of the backing log, oldest first.
    pub closed spec fn log(self) -> Seq<CommandView> {
        self.write_ahead_log@
    }

    /// The raw bytes of the backing log.
    pub closed spec fn bytes(self) -> Seq<u8> {
        self.write_ahead_log.bytes()
    }

    /// Well-formed: the log replays cleanly and the in-memory mapping is
    /// exactly the fold of the log's entries.
    pub closed spec fn wf(self) -> bool {
        &&& self.write_ahead_log.wf()
        &&& self@ == fold_cmds(self.log())
    }

    /// Open a store over the given log bytes: replay every entry from
    /// the start and fold upserts and deletions into a fresh mapping.
    /// Succeeds if and only if the bytes replay cleanly; a truncated or
    /// corrupt tail is reported instead of being silently dropped.
    pub fn open(initial: Vec<u8>) -> (r: Result<KvStore, KvError>)
        ensures
            r is Ok <==> spec_decode_all(initial@) is Some,
            r matches Ok(s) ==> {
                &&& s.wf()
                &&& s.bytes() == initial@
                &&& Some(s.log()) == spec_decode_all(initial@)
                &&& s@ == fold_cmds(s.log())
            },
            r matches Err(e) ==> e == KvError::DecodeError,
    {
        let wal = match WriteAheadLog::new(initial) {
            Ok(w) => w,
            Err(e) => {
                return Err(e);
            },
        };
        let mut inner = StringHashMap::<String>::new();
        let mut it = wal.iter(0);
        let ghost mut done: Seq<CommandView> = Seq::empty();
        proof {
            assert(wal.bytes().skip(0) =~= wal.bytes());
            assert(done + wal@ =~= wal@);
            assert(map_view(inner@) =~= fold_cmds(done));
        }
        loop
            invariant
                it.wf(),
                wal.wf(),
                spec_decode_all(it.remaining()) is Some,
                wal@ == done + spec_decode_all(it.remaining())->Some_0,
                map_view(inner@) == fold_cmds(done),
            ensures
                it.remaining().len() == 0,
                wal@ == done + spec_decode_all(it.remaining())->Some_0,
                map_view(inner@) == fold_cmds(done),
            decreases it.remaining().len(),
        {
            let ghost rem = it.remaining();
            match it.next() {
                Ok(Some(cmd)) => {
                    proof {
                        crate::codec::lemma_decode_one_props(rem);
                        let u = spec_decode_one(rem)->Some_0.1;
                        assert(rem.skip(u) == it.remaining());
                        let tail = spec_decode_all(it.remaining())->Some_0;
                        assert(spec_decode_all(rem)->Some_0 == seq![cmd@] + tail);
                        assert(done + (seq![cmd@] + tail) =~= done.push(cmd@) + tail);
                        assert(done.push(cmd@).drop_last() =~= done);
                    }
                    match cmd {
                        Commands::Get { key: _ } => {
                        },
                        Commands::Put { key, value } => {
                            proof {
                                lemma_map_view_insert(inner@, key@, value);
                            }
                            inner.insert(key, value);
                        },
                        Commands::Rm { key } => {
                            proof {
                                lemma_map_view_remove(inner@, key@);
                            }
                            inner.remove(key.as_str());
                        },
                    }
                    proof {
                        done = done.push(spec_decode_one(rem)->Some_0.0);
                    }
                },
                Ok(None) => {
                    break;
                },
                Err(e) => {
                    return Err(e);
                },
            }
        }
        proof {
            assert(done + Seq::<CommandView>::empty() =~= done);
        }
        Ok(KvStore { inner, write_ahead_log: wal })
    }

    /// Associate `key` with `value`: append an upsert record to the log
    /// first, then apply it to the in-memory mapping. The returned
    /// record is what was appended; the caller must write it to the end
    /// of the backing file to make the operation durable.
    pub fn set(&mut self, key: String, value: String) -> (r: Vec<u8>)
        requires
            old(self).wf(),
        ensures
            final(self).wf(),
            final(self)@ == old(self)@.insert(key@, value@),
            final(self).log() == old(self).log().push(
                CommandView::Put { key: key@, value: value@ },
            ),
            final(self).bytes() == old(self).bytes() + r@,
            r@ == spec_encode(CommandView::Put { key: key@, value: value@ }),
    {
        let cmd = Commands::Put { key: key.clone(), value: value.clone() };
        let rec = self.write_ahead_log.append(cmd);
        proof {
            let newlog = self.write_ahead_log@;
            assert(newlog.drop_last() =~= old(self).log());
            lemma_map_view_insert(self.inner@, key@, value);
        }
        self.inner.insert(key, value);
        rec
    }

    /// Look `key` up: append a read marker to the log (an audit record;
    /// it never affects reconstructed state), then answer from the
    /// in-memory mapping. Returns the value, if any, together with the
    /// appended record, which the caller must write to the backing file.
    pub fn get(&mut self, key: String) -> (r: (Option<String>, Vec<u8>))
        requires
            old(self).wf(),
        ensures
            final(self).wf(),
            final(self)@ == old(self)@,
            final(self).log() == old(self).log().push(CommandView::Get { key: key@ }),
            final(self).bytes() == old(self).bytes() + r.1@,
            r.1@ == spec_encode(CommandView::Get { key: key@ }),
            match r.0 {
                Some(v) => old(self)@.contains_key(key@) && v@ == old(self)@[key@],
                None => !old(self)@.contains_key(key@),
            },
    {
        let cmd = Commands::Get { key: key.clone() };
        let rec = self.write_ahead_log.append(cmd);
        proof {
            let newlog = self.write_ahead_log@;
            assert(newlog.drop_last() =~= old(self).log());
        }
        let value = match self.inner.get(key.as_str()) {
            Some(v) => Some(v.clone()),
            None => None,
        };
        (value, rec)
    }

    /// Disassociate `key`. If it has no current association, fail with
    /// `KeyNotFound` and leave both the mapping and the log untouched.
    /// Otherwise append a deletion record to the log first, then apply
    /// it to the in-memory mapping; the returned record is what was
    /// appended, and the caller must write it to the backing file.
    pub fn remove(&mut self, key: String) -> (r: Result<Vec<u8>, KvError>)
        requires
            old(self).wf(),
        ensures
            final(self).wf(),
            old(self)@.contains_key(key@) ==> {
                &&& r matches Ok(rec)
                &&& final(self)@ == old(self)@.remove(key@)
                &&& final(self).log() == old(self).log().push(CommandView::Rm { key: key@ })
                &&& final(self).bytes() == old(self).bytes() + rec@
                &&& rec@ == spec_encode(CommandView::Rm { key: key@ })
            },
            !old(self)@.contains_key(key@) ==> {
                &&& r matches Err(e) && e == KvError::KeyNotFound
                &&& *final(self) == *old(self)
            },
    {
        if !self.inner.contains_key(key.as_str()) {
            return Err(KvError::KeyNotFound);
        }
        let cmd = Commands::Rm { key: key.clone() };
        let rec = self.write_ahead_log.append(cmd);
        proof {
            let newlog = self.write_ahead_log@;
            assert(newlog.drop_last() =~= old(self).log());
            lemma_map_view_remove(self.inner@, key@);
        }
        self.inner.remove(key.as_str());
        Ok(rec)
    }

    /// The backing log's `(offset, sequence)` pair: the byte size of the
    /// log and the number of entries in it.
    pub fn log_pointer(&self) -> (r: (u64, u64))
        requires
            self.wf(),
        ensures
            r.0 == self.bytes().len(),
            r.1 == self.log().len(),
    {
        proof {
            self.write_ahead_log.lemma_pointer();
        }
        self.write_ahead_log.pointer()
    }

    /// Idempotent reopen: a well-formed store's log bytes replay cleanly
    /// back to its own log, and folding that log rebuilds its own
    /// mapping. With [`KvStore::open`]'s contract, opening a store over
    /// the bytes of an existing store reproduces an identical mapping.
    pub proof fn lemma_idempotent_reopen(self)
        requires
            self.wf(),
        ensures
            spec_decode_all(self.bytes()) == Some(self.log()),
            fold_cmds(self.log()) == self@,
    {
        self.write_ahead_log.lemma_wf_bytes();
    }
}

} // verus!
