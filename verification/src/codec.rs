//! The gzip member format, as far as the pipeline relies on it.
//!
//! Each chunk becomes one gzip member. A stream of members laid end to end
//! decodes to the members' contents laid end to end, which is what lets the
//! chunks be compressed apart and joined afterwards.

use std::io::Read;
use std::io::Write;
use vstd::prelude::*;

verus! {

/// `std::io::Error`, which the encoder and the decoder fail with. Nothing is
/// read from it: it is only told apart from success.
#[verifier::external_type_specification]
#[verifier::external_body]
pub struct ExIoError(std::io::Error);

/// What flate2's encoder makes of `data` at its highest compression level,
/// with the default header: the gzip member it writes, or `None` where it
/// fails.
pub uninterp spec fn gzip_best(data: Seq<u8>) -> Option<Seq<u8>>;

/// What flate2's single-member decoder makes of `stream`: the content of the
/// member at its front and the number of bytes that follow that member, or
/// `None` where no sound member stands there.
pub uninterp spec fn gunzip_member(stream: Seq<u8>) -> Option<(Seq<u8>, nat)>;

/// `member` holds `plain`: it is not empty, and the decoder reads `plain` from
/// the front of any stream that begins with it, leaving what follows unread.
pub open spec fn encodes(member: Seq<u8>, plain: Seq<u8>) -> bool {
    &&& member.len() >= 18
    &&& forall|rest: Seq<u8>| #[trigger]
        gunzip_member(member + rest) == Some((plain, rest.len()))
}

/// Calls `flate2::write::GzEncoder` over a `Vec<u8>` with
/// `Compression::best()`: `write_all`, then `finish`.
///
/// Believed of it: whether it succeeds, and the member it then returns, are
/// functions of `data` alone (it writes into memory, and the header carries
/// no time stamp and a fixed system byte); the member is at least 18 bytes
/// long (ten of header, eight of trailer); and flate2's single-member decoder
/// reads `data` back from it and stops at its end, whatever follows.
#[verifier::external_body]
pub(crate) fn gzip_encode(data: &[u8]) -> (r: Result<Vec<u8>, std::io::Error>)
    ensures
        match r {
            Ok(member) => gzip_best(data@) == Some(member@) && encodes(member@, data@),
            Err(_) => gzip_best(data@) is None,
        },
{
    let mut encoder = flate2::write::GzEncoder::new(Vec::new(), flate2::Compression::best());
    match encoder.write_all(data) {
        Ok(()) => encoder.finish(),
        Err(e) => Err(e),
    }
}

/// Calls `flate2::bufread::GzDecoder` on `stream` and reads it to the end of
/// the first member.
///
/// Believed of it: on success it returns the member's content and the length
/// of what `into_inner` hands back, the bytes after the member; it fails where
/// the header, the deflate stream or the trailer's checksum and length are
/// unsound. Both are functions of `stream` alone.
#[verifier::external_body]
pub(crate) fn gunzip_first(stream: &[u8]) -> (r: Result<(Vec<u8>, usize), std::io::Error>)
    ensures
        match r {
            Ok((plain, left)) => gunzip_member(stream@) == Some((plain@, left as nat)),
            Err(_) => gunzip_member(stream@) is None,
        },
{
    let mut decoder = flate2::bufread::GzDecoder::new(stream);
    let mut plain = Vec::new();
    match decoder.read_to_end(&mut plain) {
        Ok(_) => Ok((plain, decoder.into_inner().len())),
        Err(e) => Err(e),
    }
}

/// `content` put in front of a decoded tail, where there is one.
pub open spec fn prepend(content: Seq<u8>, tail: Option<Seq<u8>>) -> Option<Seq<u8>> {
    match tail {
        Some(t) => Some(content + t),
        None => None,
    }
}

/// The content of a stream of gzip members laid end to end: the members'
/// contents in the same order. The empty stream holds no member and decodes
/// to nothing; a stream with an unsound member, or one that does not end
/// where a member ends, has no content.
pub open spec fn decode_members(stream: Seq<u8>) -> Option<Seq<u8>>
    decreases stream.len(),
{
    if stream.len() == 0 {
        Some(Seq::empty())
    } else {
        match gunzip_member(stream) {
            Some((plain, left)) => if left < stream.len() {
                prepend(plain, decode_members(stream.subrange(stream.len() - left, stream.len() as int)))
            } else {
                None
            },
            None => None,
        }
    }
}

/// Where the next member begins in a stream of `len` bytes, once the decoder
/// has read the member at `offset` and left `left` bytes unread. `None` where
/// the decoder claims to have read nothing or more than there was.
pub fn member_end(len: usize, offset: usize, left: usize) -> (next: Option<usize>)
    ensures
        next == if offset < len && left < len - offset {
            Some((len - left) as usize)
        } else {
            None
        },
{
    if offset < len && left < len - offset {
        Some(len - left)
    } else {
        None
    }
}

/// Decodes a stream of gzip members into their joined content.
pub fn decompress(assembly: &[u8]) -> (r: Option<Vec<u8>>)
    ensures
        match r {
            Some(plain) => decode_members(assembly@) == Some(plain@),
            None => decode_members(assembly@) is None,
        },
{
    let total = assembly.len();
    let mut out: Vec<u8> = Vec::new();
    let mut offset: usize = 0;
    proof {
        assert(assembly@.subrange(0, total as int) =~= assembly@);
        assert(Seq::<u8>::empty() + decode_members(assembly@).unwrap() =~= decode_members(
            assembly@,
        ).unwrap());
    }
    while offset < total
        invariant
            total == assembly@.len(),
            offset <= total,
            decode_members(assembly@) == prepend(
                out@,
                decode_members(assembly@.subrange(offset as int, total as int)),
            ),
        decreases total - offset,
    {
        let ghost tail = assembly@.subrange(offset as int, total as int);
        let rest = vstd::slice::slice_subrange(assembly, offset, total);
        match gunzip_first(rest) {
            Err(_) => {
                return None;
            },
            Ok((plain, left)) => {
                match member_end(total, offset, left) {
                    None => {
                        return None;
                    },
                    Some(next) => {
                        let mut piece = plain;
                        proof {
                            let after = assembly@.subrange(next as int, total as int);
                            assert(tail.subrange(tail.len() - left, tail.len() as int) =~= after);
                            if decode_members(after) is Some {
                                assert(out@ + (piece@ + decode_members(after).unwrap()) =~= (out@
                                    + piece@) + decode_members(after).unwrap());
                            }
                        }
                        out.append(&mut piece);
                        offset = next;
                    },
                }
            },
        }
    }
    Some(out)
}

/// A stream that begins with a member holding `plain` decodes to `plain`
/// followed by the content of what comes after the member.
pub proof fn lemma_decode_member_then(member: Seq<u8>, plain: Seq<u8>, rest: Seq<u8>)
    requires
        encodes(member, plain),
    ensures
        decode_members(member + rest) == prepend(plain, decode_members(rest)),
{
    let stream = member + rest;
    assert(gunzip_member(stream) == Some((plain, rest.len())));
    assert(stream.subrange(stream.len() - rest.len(), stream.len() as int) =~= rest);
}

/// Members laid end to end decode to their contents laid end to end: if each
/// of `members` holds the chunk at its place in `plain`, the joined members
/// decode to the joined chunks.
pub proof fn lemma_decode_joined(members: Seq<Seq<u8>>, plain: Seq<Seq<u8>>)
    requires
        members.len() == plain.len(),
        forall|i: int| 0 <= i < members.len() ==> encodes(#[trigger] members[i], plain[i]),
    ensures
        decode_members(members.flatten()) == Some(plain.flatten()),
    decreases members.len(),
{
    if members.len() == 0 {
        assert(members.flatten() =~= Seq::<u8>::empty());
        assert(plain.flatten() =~= Seq::<u8>::empty());
    } else {
        let rest_m = members.drop_first();
        let rest_p = plain.drop_first();
        assert forall|i: int| 0 <= i < rest_m.len() implies encodes(#[trigger] rest_m[i], rest_p[i]) by {
            assert(encodes(members[i + 1], plain[i + 1]));
        }
        lemma_decode_joined(rest_m, rest_p);
        assert(encodes(members[0], plain[0]));
        lemma_decode_member_then(members.first(), plain.first(), rest_m.flatten());
    }
}

} // verus!
