//! The entry format: a self-delimiting binary encoding of log entries.
//!
//! Each entry is one tag byte, then its key, and for upserts also its
//! value. A string is written as a little-endian 64-bit character count
//! followed by each character's Unicode scalar value as four
//! little-endian bytes. Entry boundaries are inferred purely from the
//! decoder consuming exactly the right number of bytes per variant; there
//! is no header, magic number or checksum.

use vstd::prelude::*;
use vstd::bytes::{
    spec_u32_from_le_bytes, spec_u32_to_le_bytes, spec_u64_from_le_bytes, spec_u64_to_le_bytes,
    u32_from_le_bytes, u32_to_le_bytes, u64_from_le_bytes, u64_to_le_bytes,
    lemma_auto_spec_u32_to_from_le_bytes, lemma_auto_spec_u64_to_from_le_bytes,
};
use vstd::slice::slice_subrange;
use vstd::string::StrSliceExecFns;
use vstd::utf8::{is_scalar, char_is_scalar, char_u32_cast};

use crate::error::KvError;
use crate::wal::{Commands, CommandView};

verus! {

/// Tag byte of a read marker.
pub const TAG_GET: u8 = 0;

/// Tag byte of an upsert.
pub const TAG_SET: u8 = 1;

/// Tag byte of a deletion.
pub const TAG_RM: u8 = 2;

/// The bytes of a character sequence: four little-endian bytes per
/// character, holding its Unicode scalar value.
pub open spec fn spec_encode_chars(s: Seq<char>) -> Seq<u8>
    decreases s.len(),
{
    if s.len() == 0 {
        Seq::empty()
    } else {
        spec_u32_to_le_bytes(s[0] as u32) + spec_encode_chars(s.drop_first())
    }
}

/// The bytes of a string: its character count as a little-endian `u64`,
/// then its characters.
pub open spec fn spec_encode_str(s: Seq<char>) -> Seq<u8> {
    spec_u64_to_le_bytes(s.len() as u64) + spec_encode_chars(s)
}

/// The bytes of one log entry.
pub open spec fn spec_encode(c: CommandView) -> Seq<u8> {
    match c {
        CommandView::Get { key } => seq![TAG_GET] + spec_encode_str(key),
        CommandView::Put { key, value } => seq![TAG_SET] + spec_encode_str(key)
            + spec_encode_str(value),
        CommandView::Rm { key } => seq![TAG_RM] + spec_encode_str(key),
    }
}

/// The bytes of a whole log: the entries' encodings, back to back.
pub open spec fn spec_encode_log(s: Seq<CommandView>) -> Seq<u8>
    decreases s.len(),
{
    if s.len() == 0 {
        Seq::empty()
    } else {
        spec_encode_log(s.drop_last()) + spec_encode(s.last())
    }
}

/// An entry whose strings fit the on-disk length field. Every entry built
/// from actual `String`s satisfies this machine limit.
pub open spec fn cmd_wf(c: CommandView) -> bool {
    match c {
        CommandView::Get { key } => key.len() <= u64::MAX,
        CommandView::Put { key, value } => key.len() <= u64::MAX && value.len() <= u64::MAX,
        CommandView::Rm { key } => key.len() <= u64::MAX,
    }
}

/// Decode `n` characters from the front of `b`, four bytes each. `None`
/// when `b` is too short or a group is not a Unicode scalar value.
pub open spec fn spec_decode_chars(b: Seq<u8>, n: nat) -> Option<Seq<char>>
    decreases n,
{
    if n == 0 {
        Some(Seq::empty())
    } else if b.len() < 4 {
        None
    } else {
        let v = spec_u32_from_le_bytes(b.subrange(0, 4));
        if is_scalar(v) {
            match spec_decode_chars(b.skip(4), (n - 1) as nat) {
                Some(rest) => Some(seq![v as char] + rest),
                None => None,
            }
        } else {
            None
        }
    }
}

/// Decode one string from the front of `b`: the character sequence and
/// the number of bytes consumed.
pub open spec fn spec_decode_str(b: Seq<u8>) -> Option<(Seq<char>, int)> {
    if b.len() < 8 {
        None
    } else {
        let n = spec_u64_from_le_bytes(b.subrange(0, 8)) as int;
        if b.len() < 8 + 4 * n {
            None
        } else {
            match spec_decode_chars(b.skip(8), n as nat) {
                Some(s) => Some((s, 8 + 4 * n)),
                None => None,
            }
        }
    }
}

/// Decode one entry from the front of `b`: the entry and the number of
/// bytes consumed. `None` when the bytes do not begin with a complete,
/// well-formed entry.
pub open spec fn spec_decode_one(b: Seq<u8>) -> Option<(CommandView, int)> {
    if b.len() == 0 {
        None
    } else if b[0] == TAG_GET || b[0] == TAG_RM {
        match spec_decode_str(b.skip(1)) {
            Some((key, used)) => {
                let c = if b[0] == TAG_GET {
                    CommandView::Get { key }
                } else {
                    CommandView::Rm { key }
                };
                Some((c, 1 + used))
            },
            None => None,
        }
    } else if b[0] == TAG_SET {
        match spec_decode_str(b.skip(1)) {
            Some((key, used1)) => match spec_decode_str(b.skip(1 + used1)) {
                Some((value, used2)) => Some(
                    (CommandView::Put { key, value }, 1 + used1 + used2),
                ),
                None => None,
            },
            None => None,
        }
    } else {
        None
    }
}

/// Decode a whole byte sequence as a back-to-back concatenation of
/// entries. `Some` exactly when every byte belongs to a complete,
/// well-formed entry; the empty sequence decodes to no entries.
pub open spec fn spec_decode_all(b: Seq<u8>) -> Option<Seq<CommandView>>
    decreases b.len(),
{
    if b.len() == 0 {
        Some(Seq::empty())
    } else {
        match spec_decode_one(b) {
            Some((c, used)) => {
                if 1 <= used <= b.len() {
                    match spec_decode_all(b.skip(used)) {
                        Some(rest) => Some(seq![c] + rest),
                        None => None,
                    }
                } else {
                    None
                }
            },
            None => None,
        }
    }
}

/// Encoding a concatenation concatenates the encodings.
proof fn lemma_encode_chars_concat(a: Seq<char>, b: Seq<char>)
    ensures
        spec_encode_chars(a + b) == spec_encode_chars(a) + spec_encode_chars(b),
    decreases a.len(),
{
    if a.len() == 0 {
        assert(a + b =~= b);
        assert(spec_encode_chars(a) + spec_encode_chars(b) =~= spec_encode_chars(b));
    } else {
        assert((a + b).len() > 0);
        assert((a + b)[0] == a[0]);
        assert((a + b).drop_first() =~= a.drop_first() + b);
        lemma_encode_chars_concat(a.drop_first(), b);
        assert(spec_encode_chars(a + b) == spec_u32_to_le_bytes(a[0] as u32) + (spec_encode_chars(
            a.drop_first(),
        ) + spec_encode_chars(b)));
        assert(spec_u32_to_le_bytes(a[0] as u32) + (spec_encode_chars(a.drop_first())
            + spec_encode_chars(b)) =~= (spec_u32_to_le_bytes(a[0] as u32) + spec_encode_chars(
            a.drop_first(),
        )) + spec_encode_chars(b));
    }
}

/// The character block is four bytes per character.
pub proof fn lemma_encode_chars_len(s: Seq<char>)
    ensures
        spec_encode_chars(s).len() == 4 * s.len(),
    decreases s.len(),
{
    lemma_auto_spec_u32_to_from_le_bytes();
    if s.len() > 0 {
        lemma_encode_chars_len(s.drop_first());
    }
}

/// Append `s`'s encoding to `out`.
fn encode_str_into(out: &mut Vec<u8>, s: &String)
    ensures
        final(out)@ == old(out)@ + spec_encode_str(s@),
        s@.len() <= u64::MAX,
{
    let l = s.as_str().unicode_len();
    let mut len_bytes = u64_to_le_bytes(l as u64);
    out.append(&mut len_bytes);
    assert(out@ =~= old(out)@ + spec_u64_to_le_bytes(s@.len() as u64));
    let ghost base = out@;
    for i in 0..l
        invariant
            l == s@.len(),
            out@ == base + spec_encode_chars(s@.take(i as int)),
            base == old(out)@ + spec_u64_to_le_bytes(s@.len() as u64),
    {
        let c = s.as_str().get_char(i);
        let mut cb = u32_to_le_bytes(c as u32);
        out.append(&mut cb);
        proof {
            let prefix = s@.take(i as int);
            let longer = s@.take(i + 1);
            let single = seq![s@[i as int]];
            lemma_encode_chars_concat(prefix, single);
            assert(prefix + single =~= longer);
            assert(single.drop_first() =~= Seq::<char>::empty());
            assert(spec_encode_chars(Seq::<char>::empty()) == Seq::<u8>::empty());
            assert(spec_encode_chars(single) == spec_u32_to_le_bytes(s@[i as int] as u32)
                + spec_encode_chars(single.drop_first()));
            assert(spec_encode_chars(single) =~= spec_u32_to_le_bytes(s@[i as int] as u32));
            assert(out@ =~= base + spec_encode_chars(longer));
        }
    }
    proof {
        assert(s@.take(l as int) =~= s@);
    }
}

/// Relies on `char::from_u32`: it returns `Some` exactly on Unicode
/// scalar values, and the returned character has the given scalar value.
#[verifier::external_body]
fn char_from_u32(v: u32) -> (r: Option<char>)
    ensures
        r is Some <==> is_scalar(v),
        r matches Some(c) ==> c as u32 == v,
{
    char::from_u32(v)
}

/// Relies on `String::push`: it appends the given character at the end.
#[verifier::external_body]
fn push_char(s: &mut String, c: char)
    ensures
        final(s)@ == old(s)@.push(c),
{
    s.push(c)
}

/// Serialize one entry. Deterministic and total: every entry encodes.
pub fn encode(command: &Commands) -> (r: Vec<u8>)
    ensures
        r@ == spec_encode(command@),
        cmd_wf(command@),
{
    let mut out: Vec<u8> = Vec::new();
    match command {
        Commands::Get { key } => {
            out.push(TAG_GET);
            assert(out@ =~= seq![TAG_GET]);
            encode_str_into(&mut out, key);
        },
        Commands::Put { key, value } => {
            out.push(TAG_SET);
            assert(out@ =~= seq![TAG_SET]);
            encode_str_into(&mut out, key);
            encode_str_into(&mut out, value);
            assert(out@ =~= seq![TAG_SET] + spec_encode_str(key@) + spec_encode_str(value@));
        },
        Commands::Rm { key } => {
            out.push(TAG_RM);
            assert(out@ =~= seq![TAG_RM]);
            encode_str_into(&mut out, key);
        },
    }
    out
}

/// A decoded character block has exactly the announced length.
proof fn lemma_decode_chars_len(b: Seq<u8>, n: nat)
    requires
        spec_decode_chars(b, n) is Some,
    ensures
        spec_decode_chars(b, n)->Some_0.len() == n,
    decreases n,
{
    if n != 0 {
        lemma_decode_chars_len(b.skip(4), (n - 1) as nat);
    }
}

/// A decoded string consumes at least its length field and at most the
/// whole input, and announces its own size.
proof fn lemma_decode_str_props(b: Seq<u8>)
    requires
        spec_decode_str(b) is Some,
    ensures
        ({
            let (s, u) = spec_decode_str(b)->Some_0;
            &&& u == 8 + 4 * s.len()
            &&& 8 <= u <= b.len()
            &&& s.len() <= u64::MAX
        }),
{
    let n = spec_u64_from_le_bytes(b.subrange(0, 8)) as int;
    lemma_decode_chars_len(b.skip(8), n as nat);
}

/// A decoded entry consumes at least nine bytes and at most the whole
/// input, and its strings fit the length field.
pub proof fn lemma_decode_one_props(b: Seq<u8>)
    requires
        spec_decode_one(b) is Some,
    ensures
        ({
            let (c, u) = spec_decode_one(b)->Some_0;
            &&& 9 <= u <= b.len()
            &&& cmd_wf(c)
        }),
{
    lemma_decode_str_props(b.skip(1));
    if b[0] == TAG_SET {
        let u1 = spec_decode_str(b.skip(1))->Some_0.1;
        lemma_decode_str_props(b.skip(1 + u1));
    }
}

/// Decoding a character block looks only at the bytes it consumes.
proof fn lemma_decode_chars_ext(b: Seq<u8>, n: nat, ext: Seq<u8>)
    requires
        spec_decode_chars(b, n) is Some,
    ensures
        spec_decode_chars(b + ext, n) == spec_decode_chars(b, n),
    decreases n,
{
    if n != 0 {
        assert((b + ext).subrange(0, 4) =~= b.subrange(0, 4));
        assert((b + ext).skip(4) =~= b.skip(4) + ext);
        lemma_decode_chars_ext(b.skip(4), (n - 1) as nat, ext);
    }
}

/// Decoding a string looks only at the bytes it consumes.
proof fn lemma_decode_str_ext(b: Seq<u8>, ext: Seq<u8>)
    requires
        spec_decode_str(b) is Some,
    ensures
        spec_decode_str(b + ext) == spec_decode_str(b),
{
    assert((b + ext).subrange(0, 8) =~= b.subrange(0, 8));
    assert((b + ext).skip(8) =~= b.skip(8) + ext);
    let n = spec_u64_from_le_bytes(b.subrange(0, 8)) as int;
    lemma_decode_chars_ext(b.skip(8), n as nat, ext);
}

/// Decoding an entry looks only at the bytes it consumes.
proof fn lemma_decode_one_ext(b: Seq<u8>, ext: Seq<u8>)
    requires
        spec_decode_one(b) is Some,
    ensures
        spec_decode_one(b + ext) == spec_decode_one(b),
{
    assert((b + ext)[0] == b[0]);
    assert((b + ext).skip(1) =~= b.skip(1) + ext);
    lemma_decode_str_ext(b.skip(1), ext);
    if b[0] == TAG_SET {
        let u1 = spec_decode_str(b.skip(1))->Some_0.1;
        lemma_decode_str_props(b.skip(1));
        assert((b + ext).skip(1 + u1) =~= b.skip(1 + u1) + ext);
        lemma_decode_str_ext(b.skip(1 + u1), ext);
    }
}

/// Decoding the encoding of a character sequence gives it back.
proof fn lemma_decode_chars_encode(s: Seq<char>, rest: Seq<u8>)
    ensures
        spec_decode_chars(spec_encode_chars(s) + rest, s.len()) == Some(s),
    decreases s.len(),
{
    lemma_auto_spec_u32_to_from_le_bytes();
    if s.len() == 0 {
        assert(spec_decode_chars(spec_encode_chars(s) + rest, 0) == Some(Seq::<char>::empty()));
        assert(Seq::<char>::empty() =~= s);
    } else {
        let b = spec_encode_chars(s) + rest;
        let first = spec_u32_to_le_bytes(s[0] as u32);
        assert(b =~= first + (spec_encode_chars(s.drop_first()) + rest));
        assert(b.subrange(0, 4) =~= first);
        let v = spec_u32_from_le_bytes(b.subrange(0, 4));
        assert(v == s[0] as u32);
        char_is_scalar(s[0]);
        char_u32_cast(s[0], v);
        assert(b.skip(4) =~= spec_encode_chars(s.drop_first()) + rest);
        lemma_decode_chars_encode(s.drop_first(), rest);
        assert(seq![v as char] + s.drop_first() =~= s);
    }
}

/// Decoding the encoding of a string gives it back, consuming exactly
/// its own bytes.
proof fn lemma_decode_str_encode(s: Seq<char>, rest: Seq<u8>)
    requires
        s.len() <= u64::MAX,
    ensures
        spec_decode_str(spec_encode_str(s) + rest) == Some((s, 8 + 4 * s.len() as int)),
{
    lemma_auto_spec_u64_to_from_le_bytes();
    let b = spec_encode_str(s) + rest;
    let lenb = spec_u64_to_le_bytes(s.len() as u64);
    assert(b =~= lenb + (spec_encode_chars(s) + rest));
    assert(b.subrange(0, 8) =~= lenb);
    let n = spec_u64_from_le_bytes(b.subrange(0, 8)) as int;
    assert(n == s.len());
    lemma_encode_chars_len(s);
    assert(b.skip(8) =~= spec_encode_chars(s) + rest);
    lemma_decode_chars_encode(s, rest);
}

/// The exact size of an entry's encoding.
pub proof fn lemma_encode_len(c: CommandView)
    ensures
        spec_encode(c).len() == match c {
            CommandView::Get { key } => 9 + 4 * key.len(),
            CommandView::Put { key, value } => 17 + 4 * key.len() + 4 * value.len(),
            CommandView::Rm { key } => 9 + 4 * key.len(),
        },
{
    lemma_auto_spec_u64_to_from_le_bytes();
    match c {
        CommandView::Get { key } => lemma_encode_chars_len(key),
        CommandView::Put { key, value } => {
            lemma_encode_chars_len(key);
            lemma_encode_chars_len(value);
        },
        CommandView::Rm { key } => lemma_encode_chars_len(key),
    }
}

/// Round-trip: decoding bytes that begin with the encoding of any entry
/// yields that entry back, consuming exactly its encoding.
pub proof fn lemma_encode_decode_round_trip(c: CommandView, rest: Seq<u8>)
    requires
        cmd_wf(c),
    ensures
        spec_decode_one(spec_encode(c) + rest) == Some((c, spec_encode(c).len() as int)),
{
    lemma_auto_spec_u64_to_from_le_bytes();
    lemma_encode_len(c);
    let b = spec_encode(c) + rest;
    match c {
        CommandView::Get { key } => {
            assert(b[0] == TAG_GET);
            assert(b.skip(1) =~= spec_encode_str(key) + rest);
            lemma_decode_str_encode(key, rest);
        },
        CommandView::Rm { key } => {
            assert(b[0] == TAG_RM);
            assert(b.skip(1) =~= spec_encode_str(key) + rest);
            lemma_decode_str_encode(key, rest);
        },
        CommandView::Put { key, value } => {
            assert(b[0] == TAG_SET);
            assert(b.skip(1) =~= spec_encode_str(key) + (spec_encode_str(value) + rest));
            lemma_decode_str_encode(key, spec_encode_str(value) + rest);
            let u1 = 8 + 4 * key.len() as int;
            lemma_encode_chars_len(key);
            assert(b.skip(1 + u1) =~= spec_encode_str(value) + rest);
            lemma_decode_str_encode(value, rest);
        },
    }
}

/// Appending one entry's encoding to cleanly decodable bytes keeps them
/// cleanly decodable and appends exactly that entry.
pub proof fn lemma_decode_all_append(b: Seq<u8>, c: CommandView)
    requires
        spec_decode_all(b) is Some,
        cmd_wf(c),
    ensures
        spec_decode_all(b + spec_encode(c)) == Some(spec_decode_all(b)->Some_0.push(c)),
    decreases b.len(),
{
    let enc = spec_encode(c);
    lemma_encode_len(c);
    if b.len() == 0 {
        assert(b + enc =~= enc);
        assert(enc + Seq::<u8>::empty() =~= enc);
        lemma_encode_decode_round_trip(c, Seq::<u8>::empty());
        assert(spec_decode_one(enc) == Some((c, enc.len() as int)));
        assert(enc.skip(enc.len() as int).len() == 0);
        assert(spec_decode_all(enc.skip(enc.len() as int)) == Some(Seq::<CommandView>::empty()));
        assert(seq![c] + Seq::<CommandView>::empty() =~= Seq::<CommandView>::empty().push(c));
        assert(spec_decode_all(b)->Some_0 =~= Seq::<CommandView>::empty());
    } else {
        let (c0, u) = spec_decode_one(b)->Some_0;
        lemma_decode_one_props(b);
        lemma_decode_one_ext(b, enc);
        assert((b + enc).skip(u) =~= b.skip(u) + enc);
        lemma_decode_all_append(b.skip(u), c);
        let rest = spec_decode_all(b.skip(u))->Some_0;
        assert(spec_decode_all(b + enc) == Some(seq![c0] + rest.push(c)));
        assert(spec_decode_all(b)->Some_0 == seq![c0] + rest);
        assert(seq![c0] + rest.push(c) =~= (seq![c0] + rest).push(c));
    }
}

/// Append/replay consistency: the concatenated encodings of any entry
/// sequence decode back to exactly that sequence, in order.
pub proof fn lemma_append_replay(s: Seq<CommandView>)
    requires
        forall|i: int| 0 <= i < s.len() ==> cmd_wf(#[trigger] s[i]),
    ensures
        spec_decode_all(spec_encode_log(s)) == Some(s),
    decreases s.len(),
{
    if s.len() == 0 {
        assert(spec_decode_all(spec_encode_log(s)) == Some(Seq::<CommandView>::empty()));
        assert(Seq::<CommandView>::empty() =~= s);
    } else {
        lemma_append_replay(s.drop_last());
        lemma_decode_all_append(spec_encode_log(s.drop_last()), s.last());
        assert(s.drop_last().push(s.last()) =~= s);
    }
}

/// A cleanly decodable byte sequence holds at least nine bytes per entry,
/// and every decoded entry fits the length field.
pub proof fn lemma_decode_all_count(b: Seq<u8>)
    requires
        spec_decode_all(b) is Some,
    ensures
        9 * spec_decode_all(b)->Some_0.len() <= b.len(),
        forall|i: int|
            0 <= i < spec_decode_all(b)->Some_0.len() ==> cmd_wf(
                #[trigger] spec_decode_all(b)->Some_0[i],
            ),
    decreases b.len(),
{
    if b.len() != 0 {
        let (c0, u) = spec_decode_one(b)->Some_0;
        lemma_decode_one_props(b);
        lemma_decode_all_count(b.skip(u));
        let s = spec_decode_all(b)->Some_0;
        let rest = spec_decode_all(b.skip(u))->Some_0;
        assert(s == seq![c0] + rest);
        assert(forall|i: int| 0 <= i < rest.len() ==> s[i + 1] == #[trigger] rest[i]);
    }
}

/// Prepend an already-decoded prefix to the outcome of decoding the rest.
pub open spec fn chars_prepend(acc: Seq<char>, r: Option<Seq<char>>) -> Option<Seq<char>> {
    match r {
        Some(rest) => Some(acc + rest),
        None => None,
    }
}

/// Decode the string starting at byte `pos` of `buf`. On success, the
/// string and the position just past it; `DecodeError` exactly when the
/// bytes at `pos` do not begin with a complete, well-formed string.
fn decode_str_at(buf: &Vec<u8>, pos: usize) -> (r: Result<(String, usize), KvError>)
    requires
        pos <= buf@.len(),
    ensures
        match spec_decode_str(buf@.skip(pos as int)) {
            Some(p) => r matches Ok(q) && q.0@ == p.0 && q.1 == pos + p.1 && q.1 <= buf@.len(),
            None => r matches Err(e) && e == KvError::DecodeError,
        },
{
    let ghost bs = buf@.skip(pos as int);
    let remaining = buf.len() - pos;
    if remaining < 8 {
        return Err(KvError::DecodeError);
    }
    let len_slice = slice_subrange(buf.as_slice(), pos, pos + 8);
    assert(len_slice@ =~= bs.subrange(0, 8));
    let n64 = u64_from_le_bytes(len_slice);
    let rem8 = remaining - 8;
    if n64 > (rem8 as u64) / 4 {
        proof {
            assert(rem8 as int == 4 * ((rem8 as u64 / 4) as int) + ((rem8 as u64 % 4) as int));
            assert(bs.len() < 8 + 4 * (n64 as int));
        }
        return Err(KvError::DecodeError);
    }
    proof {
        assert(rem8 as int >= 4 * ((rem8 as u64 / 4) as int));
        assert(4 * (n64 as int) <= rem8 as int);
    }
    let n = n64 as usize;
    let mut s = String::new();
    let mut i: usize = 0;
    while i < n
        invariant
            bs == buf@.skip(pos as int),
            buf@.len() <= usize::MAX,
            pos + 8 + 4 * (n as int) <= buf@.len(),
            n == n64,
            i <= n,
            spec_u64_from_le_bytes(bs.subrange(0, 8)) == n64,
            spec_decode_chars(bs.skip(8), n as nat) == chars_prepend(
                s@,
                spec_decode_chars(bs.skip(8 + 4 * (i as int)), (n - i) as nat),
            ),
        decreases n - i,
    {
        let cpos = pos + 8 + 4 * i;
        let cs = slice_subrange(buf.as_slice(), cpos, cpos + 4);
        let ghost tail = bs.skip(8 + 4 * (i as int));
        assert(cs@ =~= tail.subrange(0, 4));
        let v = u32_from_le_bytes(cs);
        match char_from_u32(v) {
            Some(c) => {
                proof {
                    char_u32_cast(c, v);
                    assert(tail.skip(4) =~= bs.skip(8 + 4 * (i as int) + 4));
                    assert(spec_decode_chars(tail, (n - i) as nat) == chars_prepend(
                        seq![c],
                        spec_decode_chars(tail.skip(4), (n - i - 1) as nat),
                    ));
                    let next = spec_decode_chars(bs.skip(8 + 4 * (i as int) + 4), (n - i - 1) as nat);
                    if next is Some {
                        assert(s@ + (seq![c] + next->Some_0) =~= s@.push(c) + next->Some_0);
                    }
                    assert(spec_decode_chars(bs.skip(8), n as nat) == chars_prepend(
                        s@.push(c),
                        next,
                    ));
                }
                push_char(&mut s, c);
            },
            None => {
                proof {
                    assert(spec_decode_chars(tail, (n - i) as nat) is None);
                    assert(spec_decode_chars(bs.skip(8), n as nat) is None);
                }
                return Err(KvError::DecodeError);
            },
        }
        i = i + 1;
    }
    proof {
        assert(bs.skip(8 + 4 * (n as int)).len() == bs.len() - 8 - 4 * (n as int));
        assert(spec_decode_chars(bs.skip(8 + 4 * (n as int)), 0) == Some(Seq::<char>::empty()));
        assert(s@ + Seq::<char>::empty() =~= s@);
        assert(spec_decode_chars(bs.skip(8), n as nat) == Some(s@));
    }
    Ok((s, pos + 8 + 4 * n))
}

/// Decode the entry starting at byte `pos` of `buf`. On success, the
/// entry and the position just past it; `DecodeError` exactly when the
/// bytes at `pos` do not begin with a complete, well-formed entry.
pub fn decode_at(buf: &Vec<u8>, pos: usize) -> (r: Result<(Commands, usize), KvError>)
    requires
        pos <= buf@.len(),
    ensures
        match spec_decode_one(buf@.skip(pos as int)) {
            Some(p) => r matches Ok(q) && q.0@ == p.0 && q.1 == pos + p.1 && q.1 <= buf@.len(),
            None => r matches Err(e) && e == KvError::DecodeError,
        },
{
    let ghost bs = buf@.skip(pos as int);
    if pos == buf.len() {
        return Err(KvError::DecodeError);
    }
    let tag = buf[pos];
    assert(tag == bs[0]);
    assert(bs.skip(1) =~= buf@.skip(pos as int + 1));
    if tag == TAG_GET || tag == TAG_RM {
        match decode_str_at(buf, pos + 1) {
            Ok((key, next)) => {
                let cmd = if tag == TAG_GET {
                    Commands::Get { key }
                } else {
                    Commands::Rm { key }
                };
                Ok((cmd, next))
            },
            Err(e) => Err(e),
        }
    } else if tag == TAG_SET {
        match decode_str_at(buf, pos + 1) {
            Ok((key, next1)) => {
                proof {
                    let u1 = spec_decode_str(bs.skip(1))->Some_0.1;
                    assert(buf@.skip(next1 as int) =~= bs.skip(1 + u1));
                }
                match decode_str_at(buf, next1) {
                    Ok((value, next2)) => Ok((Commands::Put { key, value }, next2)),
                    Err(e) => Err(e),
                }
            },
            Err(e) => Err(e),
        }
    } else {
        Err(KvError::DecodeError)
    }
}

} // verus!
