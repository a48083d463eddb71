use vstd::prelude::*;

use crate::error::Error;

verus! {

/// The four bytes that open a zstd frame.
pub open spec fn zstd_magic() -> Seq<u8> {
    seq![0x28u8, 0xB5u8, 0x2Fu8, 0xFDu8]
}

/// What `zstd::decode_all` makes of `frame`: the decompressed bytes, or
/// `None` when `frame` is not valid zstd data.
pub uninterp spec fn zstd_decoded(frame: Seq<u8>) -> Option<Seq<u8>>;

/// What `zstd::encode_all` makes of `data` at compression level `level`:
/// one zstd frame, or `None` when it fails.
pub uninterp spec fn zstd_encoded(data: Seq<u8>, level: i32) -> Option<Seq<u8>>;

/// Whether `data` opens with the zstd magic.
pub open spec fn has_magic(data: Seq<u8>) -> bool {
    data.len() >= 4 && data.subrange(0, 4) == zstd_magic()
}

/// Relies on `zstd::encode_all`: its result is one zstd frame, which opens
/// with the magic bytes and decompresses to `data`.
#[verifier::external_body]
fn zstd_compress(data: &[u8], level: i32) -> (r: Option<Vec<u8>>)
    ensures
        match r {
            Some(b) => zstd_encoded(data@, level) == Some(b@) && has_magic(b@) && zstd_decoded(b@) == Some(data@),
            None => zstd_encoded(data@, level) is None,
        },
{
    zstd::encode_all(data, level).ok()
}

/// Relies on `zstd::decode_all`: the decompressed bytes of `data`.
#[verifier::external_body]
fn zstd_decompress(data: &[u8]) -> (r: Option<Vec<u8>>)
    ensures
        match r {
            Some(b) => zstd_decoded(data@) == Some(b@),
            None => zstd_decoded(data@) is None,
        },
{
    zstd::decode_all(data).ok()
}

fn starts_with_magic(data: &Vec<u8>) -> (r: bool)
    ensures
        r == has_magic(data@),
{
    if data.len() < 4 {
        return false;
    }
    let r = data[0] == 0x28u8 && data[1] == 0xB5u8 && data[2] == 0x2Fu8 && data[3] == 0xFDu8;
    proof {
        if r {
            assert(data@.subrange(0, 4) =~= zstd_magic());
        } else {
            if data@.subrange(0, 4) == zstd_magic() {
                assert(data@.subrange(0, 4)[0] == data@[0]);
                assert(data@.subrange(0, 4)[1] == data@[1]);
                assert(data@.subrange(0, 4)[2] == data@[2]);
                assert(data@.subrange(0, 4)[3] == data@[3]);
            }
        }
    }
    r
}

/// Frames an encoded patch for the wire: compressed into one zstd frame when
/// `compression` is on, else unchanged.
pub fn frame_patch(encoded: Vec<u8>, compression: bool, level: i32) -> (r: Result<Vec<u8>, Error>)
    ensures
        !compression ==> (r matches Ok(b) && b@ == encoded@),
        compression ==> (r is Ok <==> zstd_encoded(encoded@, level) is Some),
        compression ==> match r {
            Ok(b) => zstd_encoded(encoded@, level) == Some(b@) && has_magic(b@) && zstd_decoded(b@) == Some(
                encoded@,
            ),
            Err(e) => e is Io,
        },
{
    if !compression {
        return Ok(encoded);
    }
    match zstd_compress(encoded.as_slice(), level) {
        Some(b) => Ok(b),
        None => Err(Error::Io { path: "PATCH".to_string(), cause: "compression failed".to_string() }),
    }
}

/// Takes a patch off the wire: a blob that opens with the zstd magic is
/// decompressed, any other is the encoding itself.
pub fn unframe_patch(data: Vec<u8>) -> (r: Result<Vec<u8>, Error>)
    ensures
        !has_magic(data@) ==> (r matches Ok(b) && b@ == data@),
        has_magic(data@) ==> match r {
            Ok(b) => zstd_decoded(data@) == Some(b@),
            Err(e) => zstd_decoded(data@) is None && e is Corrupt,
        },
{
    if !starts_with_magic(&data) {
        return Ok(data);
    }
    match zstd_decompress(data.as_slice()) {
        Some(b) => Ok(b),
        None => Err(Error::Corrupt { name: "PATCH".to_string(), cause: "invalid zstd frame".to_string() }),
    }
}

/// With compression on, framing and then unframing gives back the encoding.
pub proof fn lemma_frame_round_trip(encoded: Seq<u8>, framed: Seq<u8>, unframed: Seq<u8>)
    requires
        has_magic(framed),
        zstd_decoded(framed) == Some(encoded),
        zstd_decoded(framed) == Some(unframed),
    ensures
        unframed == encoded,
{
}

} // verus!
