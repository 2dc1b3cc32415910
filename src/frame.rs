//! The binary frame around the JSON header: four little-endian size fields,
//! the payload padded to a multiple of four bytes, then the content blob.

use vstd::prelude::*;
use crate::error::{Error, ErrorView};

verus! {

/// The value of the little-endian 32-bit integer at `at` in `data`.
pub open spec fn le_u32(data: Seq<u8>, at: int) -> nat {
    (data[at] as nat) + (data[at + 1] as nat) * 256 + (data[at + 2] as nat) * 65536 + (
    data[at + 3] as nat) * 16777216
}

/// The four little-endian bytes of `x`.
pub open spec fn le_bytes(x: u32) -> Seq<u8> {
    seq![
        (x % 256) as u8,
        ((x / 256) % 256) as u8,
        ((x / 65536) % 256) as u8,
        ((x / 16777216) % 256) as u8,
    ]
}

/// `n` rounded up to a multiple of four.
pub open spec fn aligned(n: nat) -> nat {
    n + ((4 - n % 4) % 4) as nat
}

/// The number of bytes before the JSON payload.
pub const FRAME_PREFIX_LEN: usize = 16;

/// The outcome of decoding the frame of `data`: the JSON payload and the
/// number of bytes from the start of the archive to the content blob.
pub open spec fn frame_spec(data: Seq<u8>) -> Result<(Seq<u8>, nat), ErrorView> {
    if data.len() < 16 {
        Err(ErrorView::Truncated)
    } else if data.len() < 16 + le_u32(data, 12) {
        Err(ErrorView::Truncated)
    } else if le_u32(data, 4) + 8 > usize::MAX {
        // only on targets whose `usize` is narrower than 64 bits
        Err(ErrorView::Truncated)
    } else {
        Ok((data.subrange(16, 16 + le_u32(data, 12) as int), le_u32(data, 4) + 8))
    }
}

/// The archive made of a JSON payload and a content blob: the four size
/// fields, the payload, zero bytes up to a multiple of four, then the content.
#[verifier::opaque]
pub open spec fn archive_spec(json: Seq<u8>, content: Seq<u8>) -> Seq<u8> {
    let a = aligned(json.len());
    le_bytes(4) + le_bytes((a + 8) as u32) + le_bytes((a + 4) as u32) + le_bytes(
        json.len() as u32,
    ) + json + Seq::new((a - json.len()) as nat, |i: int| 0u8) + content
}

/// Reads the little-endian 32-bit integer at `at`.
pub fn read_u32_le(data: &[u8], at: usize) -> (r: u32)
    requires
        at + 4 <= data@.len(),
    ensures
        r as nat == le_u32(data@, at as int),
{
    let b0 = data[at] as u32;
    let b1 = data[at + 1] as u32;
    let b2 = data[at + 2] as u32;
    let b3 = data[at + 3] as u32;
    b0 + b1 * 256 + b2 * 65536 + b3 * 16777216
}

/// Appends the four little-endian bytes of `x`.
pub fn push_u32_le(out: &mut Vec<u8>, x: u32)
    ensures
        final(out)@ == old(out)@ + le_bytes(x),
{
    out.push((x % 256) as u8);
    out.push(((x / 256) % 256) as u8);
    out.push(((x / 65536) % 256) as u8);
    out.push(((x / 16777216) % 256) as u8);
    assert(final(out)@ =~= old(out)@ + le_bytes(x));
}

/// Decodes the frame at the start of `data`: returns the JSON payload and the
/// number of bytes from the start of the archive to the content blob. The first
/// and third size fields are read and not checked.
pub fn read_frame(data: &[u8]) -> (r: Result<(Vec<u8>, usize), Error>)
    ensures
        match (r, frame_spec(data@)) {
            (Ok((json, len)), Ok((sj, sl))) => json@ == sj && len as nat == sl,
            (Err(e), Err(se)) => e@ == se,
            _ => false,
        },
{
    if data.len() < FRAME_PREFIX_LEN {
        return Err(Error::Truncated);
    }
    let outer_size = read_u32_le(data, 4);
    let json_size = read_u32_le(data, 12) as usize;
    if data.len() - FRAME_PREFIX_LEN < json_size {
        return Err(Error::Truncated);
    }
    if outer_size as usize > usize::MAX - 8 {
        return Err(Error::Truncated);
    }
    let json = vstd::slice::slice_to_vec(
        vstd::slice::slice_subrange(data, FRAME_PREFIX_LEN, FRAME_PREFIX_LEN + json_size),
    );
    Ok((json, outer_size as usize + 8))
}

/// Lays out an archive: the frame around `json`, then `content`.
pub fn write_archive(json: &[u8], content: &[u8]) -> (r: Vec<u8>)
    requires
        json@.len() + 11 <= u32::MAX,
    ensures
        r@ == archive_spec(json@, content@),
{
    let json_size = json.len() as u32;
    let aligned_size: u32 = json_size + (4 - json_size % 4) % 4;
    let mut out: Vec<u8> = Vec::new();
    push_u32_le(&mut out, 4);
    push_u32_le(&mut out, aligned_size + 8);
    push_u32_le(&mut out, aligned_size + 4);
    push_u32_le(&mut out, json_size);
    out.extend_from_slice(json);
    let ghost head = out@;
    let mut k: u32 = json_size;
    while k < aligned_size
        invariant
            json_size <= k <= aligned_size,
            out@ == head + Seq::new((k - json_size) as nat, |i: int| 0u8),
        decreases aligned_size - k,
    {
        out.push(0u8);
        k += 1;
        assert(out@ =~= head + Seq::new((k - json_size) as nat, |i: int| 0u8));
    }
    out.extend_from_slice(content);
    reveal(archive_spec);
    assert(out@ =~= archive_spec(json@, content@));
    out
}

/// Decoding the frame of an archive gives back its JSON payload, and the
/// content blob starts right after the padded payload.
pub proof fn lemma_frame_round_trip(json: Seq<u8>, content: Seq<u8>)
    requires
        json.len() + 11 <= u32::MAX,
        json.len() + 19 <= usize::MAX,
    ensures
        frame_spec(archive_spec(json, content)) == Ok::<(Seq<u8>, nat), ErrorView>(
            (json, 16 + aligned(json.len())),
        ),
        archive_spec(json, content).subrange(
            16 + aligned(json.len()) as int,
            archive_spec(json, content).len() as int,
        ) == content,
        archive_spec(json, content).len() == 16 + aligned(json.len()) + content.len(),
{
    reveal(archive_spec);
    let a = aligned(json.len());
    let d = archive_spec(json, content);
    assert(json.len() <= a <= json.len() + 3);
    lemma_le_round_trip((a + 8) as u32);
    lemma_le_round_trip(json.len() as u32);
    assert(d.len() == 16 + a + content.len());
    assert(le_u32(d, 4) == le_u32(le_bytes((a + 8) as u32), 0));
    assert(le_u32(d, 12) == le_u32(le_bytes(json.len() as u32), 0));
    assert(d.subrange(16, 16 + json.len() as int) =~= json);
    assert(le_u32(d, 12) == json.len());
    assert(le_u32(d, 4) + 8 == 16 + a);
    assert(d.subrange(16 + a as int, d.len() as int) =~= content);
}

/// Reading back the four bytes of `x` gives `x`.
pub proof fn lemma_le_round_trip(x: u32)
    ensures
        le_u32(le_bytes(x), 0) == x as nat,
{
    let b = le_bytes(x);
    assert(b[0] as nat == x % 256);
    assert(b[1] as nat == (x / 256) % 256);
    assert(b[2] as nat == (x / 65536) % 256);
    assert(b[3] as nat == (x / 16777216) % 256);
    assert(x as nat == x % 256 + ((x / 256) % 256) * 256 + ((x / 65536) % 256) * 65536 + ((x
        / 16777216) % 256) * 16777216) by (nonlinear_arith);
}

} // verus!
