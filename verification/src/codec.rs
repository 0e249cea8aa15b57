//! The log record format.
//!
//! A segment is a concatenation of records, one per command. A record is
//! self-delimiting: a one-byte tag, then each string as an eight-byte
//! little-endian byte count followed by that many bytes of UTF-8. The
//! encoding is deterministic — equal commands yield equal bytes — and a
//! streaming decoder can always tell a truncated tail (`UnexpectedEnd`)
//! from corruption (`Invalid`).

use vstd::prelude::*;
use vstd::bytes::{spec_u64_to_le_bytes, spec_u64_from_le_bytes, lemma_auto_spec_u64_to_from_le_bytes, u64_to_le_bytes, u64_from_le_bytes};
use vstd::utf8::{encode_utf8, decode_utf8, valid_utf8, encode_utf8_valid_utf8, encode_utf8_decode_utf8, decode_utf8_encode_utf8};
use vstd::string::StrSliceExecFns;
use vstd::slice::{slice_subrange, slice_to_vec, slice_index_get};

verus! {

/// Tag byte that starts a serialized `Set` record.
pub const SET_TAG: u8 = 83;

/// Tag byte that starts a serialized `Remove` record.
pub const REMOVE_TAG: u8 = 82;

/// A mutation recorded in the log: the unit of persistence.
#[derive(Debug, Clone)]
pub enum Command {
    /// Associates `key` with `value`.
    Put { key: String, value: String },
    /// Dissociates `key`.
    Remove { key: String },
}

/// The mathematical value of a [`Command`]: its strings as character sequences.
pub enum CommandView {
    /// Associates `key` with `value`.
    Put { key: Seq<char>, value: Seq<char> },
    /// Dissociates `key`.
    Remove { key: Seq<char> },
}

impl View for Command {
    type V = CommandView;

    open spec fn view(&self) -> CommandView {
        match self {
            Command::Put { key, value } => CommandView::Put { key: key@, value: value@ },
            Command::Remove { key } => CommandView::Remove { key: key@ },
        }
    }
}

impl Command {
    /// Builds a `Set` command.
    pub fn set(key: String, value: String) -> (c: Command)
        ensures
            c@ == (CommandView::Put { key: key@, value: value@ }),
    {
        Command::Put { key, value }
    }

    /// Builds a `Remove` command.
    pub fn remove(key: String) -> (c: Command)
        ensures
            c@ == (CommandView::Remove { key: key@ }),
    {
        Command::Remove { key }
    }
}

/// A length-framed string: the byte count of its UTF-8 form, then the bytes.
pub open spec fn str_block(s: Seq<char>) -> Seq<u8> {
    spec_u64_to_le_bytes(encode_utf8(s).len() as u64) + encode_utf8(s)
}

/// The bytes that serialize one command.
pub open spec fn record_bytes(c: CommandView) -> Seq<u8> {
    match c {
        CommandView::Put { key, value } => seq![SET_TAG] + str_block(key) + str_block(value),
        CommandView::Remove { key } => seq![REMOVE_TAG] + str_block(key),
    }
}

/// True when the UTF-8 form of each string of `c` fits the length field.
/// Every command built from executable strings satisfies it.
pub open spec fn command_fits(c: CommandView) -> bool {
    match c {
        CommandView::Put { key, value } => encode_utf8(key).len() <= u64::MAX
            && encode_utf8(value).len() <= u64::MAX,
        CommandView::Remove { key } => encode_utf8(key).len() <= u64::MAX,
    }
}

/// What a streaming decoder yields from the head of `s`: the decoded command
/// and the number of bytes it occupies, or `None` when no complete
/// well-formed record starts `s`.
pub open spec fn spec_decode(s: Seq<u8>) -> Option<(CommandView, int)> {
    if s.len() < 9 {
        None
    } else {
        let klen = spec_u64_from_le_bytes(s.subrange(1, 9)) as int;
        if s[0] == SET_TAG {
            if s.len() < 17 + klen {
                None
            } else {
                let kb = s.subrange(9, 9 + klen);
                let vlen = spec_u64_from_le_bytes(s.subrange(9 + klen, 17 + klen)) as int;
                if s.len() < 17 + klen + vlen {
                    None
                } else {
                    let vb = s.subrange(17 + klen, 17 + klen + vlen);
                    if valid_utf8(kb) && valid_utf8(vb) {
                        Some(
                            (
                                CommandView::Put { key: decode_utf8(kb), value: decode_utf8(vb) },
                                17 + klen + vlen,
                            ),
                        )
                    } else {
                        None
                    }
                }
            }
        } else if s[0] == REMOVE_TAG {
            if s.len() < 9 + klen {
                None
            } else {
                let kb = s.subrange(9, 9 + klen);
                if valid_utf8(kb) {
                    Some(((CommandView::Remove { key: decode_utf8(kb) }), 9 + klen))
                } else {
                    None
                }
            }
        } else {
            None
        }
    }
}

/// True when `s` holds no complete record only for lack of bytes: some
/// extension of `s` could decode. Distinguishes a truncated tail from
/// corruption.
pub open spec fn decode_needs_more(s: Seq<u8>) -> bool {
    if s.len() == 0 {
        true
    } else if s.len() < 9 {
        s[0] == SET_TAG || s[0] == REMOVE_TAG
    } else {
        let klen = spec_u64_from_le_bytes(s.subrange(1, 9)) as int;
        if s[0] == SET_TAG {
            s.len() < 17 + klen || s.len() < 17 + klen + spec_u64_from_le_bytes(
                s.subrange(9 + klen, 17 + klen),
            ) as int
        } else if s[0] == REMOVE_TAG {
            s.len() < 9 + klen
        } else {
            false
        }
    }
}

/// How a decode attempt failed.
#[derive(Debug, Clone, Copy, PartialEq, Eq, Structural)]
pub enum DecodeError {
    /// The stream ends before the record does; more bytes could complete it.
    UnexpectedEnd,
    /// The bytes at the head of the stream can never decode to a record.
    Invalid,
}

/// Serializes one command. The encoding is a function of the command alone,
/// so equal commands always yield identical bytes.
pub fn encode_command(cmd: &Command) -> (out: Vec<u8>)
    ensures
        out@ == record_bytes(cmd@),
        command_fits(cmd@),
{
    let mut out: Vec<u8> = Vec::new();
    match cmd {
        Command::Put { key, value } => {
            out.push(SET_TAG);
            push_str_block(&mut out, key);
            push_str_block(&mut out, value);
            proof {
                assert(out@ =~= record_bytes(cmd@));
            }
        },
        Command::Remove { key } => {
            out.push(REMOVE_TAG);
            push_str_block(&mut out, key);
            proof {
                assert(out@ =~= record_bytes(cmd@));
            }
        },
    }
    out
}

/// Appends the length-framed UTF-8 form of `s`.
fn push_str_block(out: &mut Vec<u8>, s: &String)
    ensures
        final(out)@ == old(out)@ + str_block(s@),
        encode_utf8(s@).len() <= u64::MAX,
{
    let bytes = s.as_str().as_bytes_vec();
    let mut lenb = u64_to_le_bytes(bytes.len() as u64);
    out.append(&mut lenb);
    out.extend_from_slice(bytes.as_slice());
    proof {
        assert(out@ =~= old(out)@ + str_block(s@));
    }
}

/// Declares the error type `String::from_utf8` returns.
#[verifier::external_type_specification]
#[verifier::external_body]
pub struct ExFromUtf8Error(std::string::FromUtf8Error);

/// Relies on `String::from_utf8`: it returns `Ok` exactly when the bytes are
/// valid UTF-8, and the returned string is the one whose UTF-8 encoding is
/// those bytes.
pub assume_specification[ String::from_utf8 ](v: Vec<u8>) -> (r: Result<
    String,
    std::string::FromUtf8Error,
>)
    ensures
        r.is_ok() <==> valid_utf8(v@),
        r matches Ok(s) ==> encode_utf8(s@) == v@,
;

/// Decodes one record from `data` starting at byte offset `start` and
/// reports the offset just past it. A record cut short by the end of the
/// stream is `UnexpectedEnd`; bytes that no extension could complete into a
/// record are `Invalid`.
pub fn decode_command(data: &[u8], start: usize) -> (r: Result<(Command, usize), DecodeError>)
    requires
        start <= data@.len(),
    ensures
        match r {
            Ok((cmd, end)) => {
                &&& start < end <= data@.len()
                &&& spec_decode(data@.skip(start as int)) == Some((cmd@, end - start))
                &&& command_fits(cmd@)
            },
            Err(e) => {
                &&& spec_decode(data@.skip(start as int)) is None
                &&& (e == DecodeError::UnexpectedEnd <==> decode_needs_more(
                    data@.skip(start as int),
                ))
            },
        },
{
    let ghost t = data@.skip(start as int);
    let n = data.len();
    if n - start < 1 {
        return Err(DecodeError::UnexpectedEnd);
    }
    let tag = *slice_index_get(data, start);
    assert(t[0] == tag);
    if tag != SET_TAG && tag != REMOVE_TAG {
        return Err(DecodeError::Invalid);
    }
    if n - start < 9 {
        return Err(DecodeError::UnexpectedEnd);
    }
    let klen64 = u64_from_le_bytes(slice_subrange(data, start + 1, start + 9));
    proof {
        assert(data@.subrange(start + 1, start + 9) =~= t.subrange(1, 9));
    }
    let rem = n - (start + 9);
    if (rem as u64) < klen64 {
        return Err(DecodeError::UnexpectedEnd);
    }
    let klen = klen64 as usize;
    let kend = start + 9 + klen;
    let key_bytes = slice_to_vec(slice_subrange(data, start + 9, kend));
    proof {
        assert(data@.subrange(start + 9 as int, kend as int) =~= t.subrange(9, 9 + klen64 as int));
    }
    if tag == REMOVE_TAG {
        match String::from_utf8(key_bytes) {
            Ok(key) => {
                let cmd = Command::Remove { key };
                proof {
                    encode_utf8_decode_utf8(key@);
                }
                Ok((cmd, kend))
            },
            Err(_) => Err(DecodeError::Invalid),
        }
    } else {
        if n - kend < 8 {
            return Err(DecodeError::UnexpectedEnd);
        }
        let vlen64 = u64_from_le_bytes(slice_subrange(data, kend, kend + 8));
        proof {
            assert(data@.subrange(kend as int, kend + 8) =~= t.subrange(
                9 + klen64 as int,
                17 + klen64 as int,
            ));
        }
        let vrem = n - (kend + 8);
        if (vrem as u64) < vlen64 {
            return Err(DecodeError::UnexpectedEnd);
        }
        let vlen = vlen64 as usize;
        let end = kend + 8 + vlen;
        let value_bytes = slice_to_vec(slice_subrange(data, kend + 8, end));
        proof {
            assert(data@.subrange(kend + 8, end as int) =~= t.subrange(
                17 + klen64 as int,
                17 + klen64 as int + vlen64 as int,
            ));
        }
        match String::from_utf8(key_bytes) {
            Ok(key) => match String::from_utf8(value_bytes) {
                Ok(value) => {
                    let cmd = Command::Put { key, value };
                    proof {
                        encode_utf8_decode_utf8(key@);
                        encode_utf8_decode_utf8(value@);
                    }
                    Ok((cmd, end))
                },
                Err(_) => Err(DecodeError::Invalid),
            },
            Err(_) => Err(DecodeError::Invalid),
        }
    }
}

/// Concatenation streams decode: a well-formed record followed by anything
/// decodes to exactly that record, consuming exactly its bytes.
pub proof fn lemma_record_decodes(c: CommandView, rest: Seq<u8>)
    requires
        command_fits(c),
    ensures
        spec_decode(record_bytes(c) + rest) == Some((c, record_bytes(c).len() as int)),
        record_bytes(c).len() >= 9,
{
    lemma_auto_spec_u64_to_from_le_bytes();
    let s = record_bytes(c) + rest;
    match c {
        CommandView::Put { key, value } => {
            let kb = encode_utf8(key);
            let vb = encode_utf8(value);
            let klen = kb.len() as int;
            let vlen = vb.len() as int;
            assert(spec_u64_to_le_bytes(klen as u64).len() == 8);
            assert(spec_u64_to_le_bytes(vlen as u64).len() == 8);
            assert(s.len() == 17 + klen + vlen + rest.len());
            assert(s[0] == SET_TAG);
            assert(s.subrange(1, 9) =~= spec_u64_to_le_bytes(klen as u64));
            assert(spec_u64_from_le_bytes(s.subrange(1, 9)) as int == klen);
            assert(s.subrange(9, 9 + klen) =~= kb);
            assert(s.subrange(9 + klen, 17 + klen) =~= spec_u64_to_le_bytes(vlen as u64));
            assert(spec_u64_from_le_bytes(s.subrange(9 + klen, 17 + klen)) as int == vlen);
            assert(s.subrange(17 + klen, 17 + klen + vlen) =~= vb);
            encode_utf8_valid_utf8(key);
            encode_utf8_valid_utf8(value);
            encode_utf8_decode_utf8(key);
            encode_utf8_decode_utf8(value);
        },
        CommandView::Remove { key } => {
            let kb = encode_utf8(key);
            let klen = kb.len() as int;
            assert(spec_u64_to_le_bytes(klen as u64).len() == 8);
            assert(s.len() == 9 + klen + rest.len());
            assert(s[0] == REMOVE_TAG);
            assert(s.subrange(1, 9) =~= spec_u64_to_le_bytes(klen as u64));
            assert(spec_u64_from_le_bytes(s.subrange(1, 9)) as int == klen);
            assert(s.subrange(9, 9 + klen) =~= kb);
            encode_utf8_valid_utf8(key);
            encode_utf8_decode_utf8(key);
        },
    }
}

/// Decoding is exact: when a record decodes from the head of `s`, the bytes
/// it consumed are precisely the serialization of the decoded command. This
/// is what lets compaction copy record bytes opaquely.
pub proof fn lemma_decode_exact(s: Seq<u8>, c: CommandView, n: int)
    requires
        spec_decode(s) == Some((c, n)),
    ensures
        9 <= n <= s.len(),
        s.subrange(0, n) == record_bytes(c),
        command_fits(c),
{
    lemma_auto_spec_u64_to_from_le_bytes();
    let klen = spec_u64_from_le_bytes(s.subrange(1, 9)) as int;
    assert(s.subrange(1, 9).len() == 8);
    if s[0] == SET_TAG {
        let kb = s.subrange(9, 9 + klen);
        let vlen = spec_u64_from_le_bytes(s.subrange(9 + klen, 17 + klen)) as int;
        let vb = s.subrange(17 + klen, 17 + klen + vlen);
        decode_utf8_encode_utf8(kb);
        decode_utf8_encode_utf8(vb);
        let key = decode_utf8(kb);
        let value = decode_utf8(vb);
        assert(c == (CommandView::Put { key, value }));
        assert(encode_utf8(key) == kb && encode_utf8(value) == vb);
        assert(spec_u64_to_le_bytes(klen as u64) == s.subrange(1, 9));
        assert(spec_u64_to_le_bytes(vlen as u64) == s.subrange(9 + klen, 17 + klen));
        assert(s.subrange(0, n) =~= seq![SET_TAG] + s.subrange(1, 9) + kb + s.subrange(
            9 + klen,
            17 + klen,
        ) + vb);
    } else {
        let kb = s.subrange(9, 9 + klen);
        decode_utf8_encode_utf8(kb);
        let key = decode_utf8(kb);
        assert(c == (CommandView::Remove { key }));
        assert(encode_utf8(key) == kb);
        assert(spec_u64_to_le_bytes(klen as u64) == s.subrange(1, 9));
        assert(s.subrange(0, n) =~= seq![REMOVE_TAG] + s.subrange(1, 9) + kb);
    }
}

/// The size of a record: a tag byte, an eight-byte length per string, and
/// the strings' UTF-8 bytes.
pub proof fn lemma_record_bytes_len(c: CommandView)
    ensures
        record_bytes(c).len() == (match c {
            CommandView::Put { key, value } => 17 + encode_utf8(key).len() + encode_utf8(
                value,
            ).len(),
            CommandView::Remove { key } => 9 + encode_utf8(key).len(),
        }),
{
    lemma_auto_spec_u64_to_from_le_bytes();
    match c {
        CommandView::Put { key, value } => {
            assert(spec_u64_to_le_bytes(encode_utf8(key).len() as u64).len() == 8);
            assert(spec_u64_to_le_bytes(encode_utf8(value).len() as u64).len() == 8);
        },
        CommandView::Remove { key } => {
            assert(spec_u64_to_le_bytes(encode_utf8(key).len() as u64).len() == 8);
        },
    }
}

/// The encoding is injective: commands with equal serializations are equal.
pub proof fn lemma_record_bytes_injective(c1: CommandView, c2: CommandView)
    requires
        command_fits(c1),
        command_fits(c2),
        record_bytes(c1) == record_bytes(c2),
    ensures
        c1 == c2,
{
    lemma_record_decodes(c1, Seq::<u8>::empty());
    lemma_record_decodes(c2, Seq::<u8>::empty());
}

/// A strict prefix of a record never decodes, and always reports lack of
/// bytes rather than corruption: whatever survives a crash mid-append reads
/// as a clean end of the stream.
pub proof fn lemma_record_prefix_incomplete(c: CommandView, k: int)
    requires
        command_fits(c),
        0 <= k < record_bytes(c).len(),
    ensures
        spec_decode(record_bytes(c).subrange(0, k)) is None,
        decode_needs_more(record_bytes(c).subrange(0, k)),
{
    lemma_auto_spec_u64_to_from_le_bytes();
    let w = record_bytes(c);
    let p = w.subrange(0, k);
    lemma_record_decodes(c, Seq::<u8>::empty());
    assert(w + Seq::<u8>::empty() =~= w);
    let klen: int = match c {
        CommandView::Put { key, value } => encode_utf8(key).len() as int,
        CommandView::Remove { key } => encode_utf8(key).len() as int,
    };
    if k == 0 {
    } else {
        assert(p[0] == w[0]);
        if k < 9 {
        } else {
            assert(w.subrange(1, 9) =~= spec_u64_to_le_bytes(klen as u64));
            assert(p.subrange(1, 9) =~= w.subrange(1, 9));
            assert(spec_u64_from_le_bytes(p.subrange(1, 9)) as int == klen);
            match c {
                CommandView::Put { key, value } => {
                    let vlen = encode_utf8(value).len() as int;
                    if k < 17 + klen {
                    } else {
                        assert(p.subrange(9 + klen, 17 + klen) =~= w.subrange(9 + klen, 17 + klen));
                        assert(spec_u64_from_le_bytes(p.subrange(9 + klen, 17 + klen)) as int
                            == vlen);
                        assert(p.len() < 17 + klen + vlen);
                    }
                },
                CommandView::Remove { key } => {
                    assert(p.len() < 9 + klen);
                },
            }
        }
    }
}

} // verus!
