use vstd::prelude::*;

verus! {

/// The 64-bit checksum that guards a serialized lookup table. Its value
/// depends on the bytes alone.
pub uninterp spec fn xxh3_of(bytes: Seq<u8>) -> u64;

/// Relies on xxhash_rust::xxh3::xxh3_64: the 64-bit xxh3 hash of the
/// bytes, a pure function of its input.
#[verifier::external_body]
fn xxh3_64(bytes: &[u8]) -> (r: u64)
    ensures
        r == xxh3_of(bytes@),
{
    xxhash_rust::xxh3::xxh3_64(bytes)
}

/// The checksum token as eight little-endian bytes.
pub open spec fn token_spec(h: u64) -> Seq<u8> {
    seq![
        (h & 0xff) as u8,
        ((h >> 8) & 0xff) as u8,
        ((h >> 16) & 0xff) as u8,
        ((h >> 24) & 0xff) as u8,
        ((h >> 32) & 0xff) as u8,
        ((h >> 40) & 0xff) as u8,
        ((h >> 48) & 0xff) as u8,
        ((h >> 56) & 0xff) as u8,
    ]
}

/// A well-formed lookup-table file: the table's bytes followed by the
/// eight-byte checksum of those bytes.
pub open spec fn encode_spec(payload: Seq<u8>) -> Seq<u8> {
    payload + token_spec(xxh3_of(payload))
}

/// Whether a file's bytes carry a payload that matches the embedded
/// checksum.
pub open spec fn decode_spec(bytes: Seq<u8>) -> Option<Seq<u8>> {
    if bytes.len() >= 8 && bytes == encode_spec(bytes.subrange(0, bytes.len() - 8)) {
        Some(bytes.subrange(0, bytes.len() - 8))
    } else {
        None
    }
}

/// Writes the checksum token of `h`.
fn token_bytes(h: u64) -> (r: [u8; 8])
    ensures
        r@ == token_spec(h),
{
    let r: [u8; 8] = [
        (h & 0xff) as u8,
        ((h >> 8) & 0xff) as u8,
        ((h >> 16) & 0xff) as u8,
        ((h >> 24) & 0xff) as u8,
        ((h >> 32) & 0xff) as u8,
        ((h >> 40) & 0xff) as u8,
        ((h >> 48) & 0xff) as u8,
        ((h >> 56) & 0xff) as u8,
    ];
    proof {
        assert(r@ =~= token_spec(h));
    }
    r
}

/// Serializes a lookup table for persistent storage: the payload with
/// its checksum appended.
pub fn encode_table(payload: &Vec<u8>) -> (r: Vec<u8>)
    ensures
        r@ == encode_spec(payload@),
{
    let h = xxh3_64(payload.as_slice());
    let token = token_bytes(h);
    let mut out: Vec<u8> = Vec::new();
    let n = payload.len();
    let mut i: usize = 0;
    while i < n
        invariant
            0 <= i <= n == payload@.len(),
            out@ =~= payload@.subrange(0, i as int),
        decreases n - i,
    {
        out.push(payload[i]);
        proof {
            assert(out@ =~= payload@.subrange(0, i as int + 1));
        }
        i = i + 1;
    }
    proof {
        assert(out@ =~= payload@);
    }
    let mut j: usize = 0;
    while j < 8
        invariant
            0 <= j <= 8,
            token@ == token_spec(h),
            h == xxh3_of(payload@),
            out@ =~= payload@ + token@.subrange(0, j as int),
        decreases 8 - j,
    {
        out.push(token[j]);
        proof {
            assert(out@ =~= payload@ + token@.subrange(0, j as int + 1));
        }
        j = j + 1;
    }
    proof {
        assert(token@.subrange(0, 8) =~= token@);
        assert(out@ =~= encode_spec(payload@));
    }
    out
}

/// Reads a lookup-table file's bytes back into the table's payload.
///
/// Returns the payload exactly when the embedded checksum matches it;
/// a short, truncated or corrupted file gives `None`, and the caller
/// treats the table as absent and rebuilds it.
pub fn decode_table(bytes: &Vec<u8>) -> (r: Option<Vec<u8>>)
    ensures
        match r {
            Some(p) => decode_spec(bytes@) == Some(p@),
            None => decode_spec(bytes@) is None,
        },
{
    let n = bytes.len();
    if n < 8 {
        return None;
    }
    let cut = n - 8;
    let mut payload: Vec<u8> = Vec::new();
    let mut i: usize = 0;
    while i < cut
        invariant
            0 <= i <= cut <= bytes@.len(),
            payload@ =~= bytes@.subrange(0, i as int),
        decreases cut - i,
    {
        payload.push(bytes[i]);
        proof {
            assert(payload@ =~= bytes@.subrange(0, i as int + 1));
        }
        i = i + 1;
    }
    proof {
        assert(payload@ =~= bytes@.subrange(0, cut as int));
    }
    let h = xxh3_64(payload.as_slice());
    let token = token_bytes(h);
    let mut j: usize = 0;
    while j < 8
        invariant
            0 <= j <= 8,
            cut + 8 == n == bytes@.len(),
            h == xxh3_of(bytes@.subrange(0, cut as int)),
            token@ == token_spec(h),
            payload@ == bytes@.subrange(0, cut as int),
            forall|q: int| 0 <= q < j ==> bytes@[cut + q] == token_spec(h)[q],
        decreases 8 - j,
    {
        if bytes[cut + j] != token[j] {
            proof {
                let pl = bytes@.subrange(0, cut as int);
                assert(bytes@[cut + j] != token_spec(xxh3_of(pl))[j as int]);
                assert(decode_spec(bytes@) is None) by {
                    if bytes@ == encode_spec(pl) {
                        assert(bytes@[cut + j] == (pl + token_spec(xxh3_of(pl)))[cut + j]);
                    }
                }
            }
            return None;
        }
        j = j + 1;
    }
    proof {
        let pl = bytes@.subrange(0, cut as int);
        assert(bytes@ =~= encode_spec(pl)) by {
            assert(encode_spec(pl).len() == n) by {
                assert(token_spec(xxh3_of(pl)).len() == 8);
            }
            assert forall|q: int| 0 <= q < n implies bytes@[q] == encode_spec(pl)[q] by {
                if q < cut {
                    assert(encode_spec(pl)[q] == pl[q]);
                } else {
                    assert(encode_spec(pl)[q] == token_spec(xxh3_of(pl))[q - cut]);
                }
            }
        }
    }
    Some(payload)
}

/// Decoding is the inverse of encoding: a table serialized by
/// `encode_table` always decodes back to the same payload.
pub proof fn lemma_codec_round_trip(payload: Seq<u8>)
    ensures
        decode_spec(encode_spec(payload)) == Some(payload),
{
    let e = encode_spec(payload);
    assert(token_spec(xxh3_of(payload)).len() == 8);
    assert(e.subrange(0, e.len() - 8) =~= payload);
}

/// Decoding accepts nothing but well-formed files: whenever a payload
/// comes back, the file was exactly that payload's serialization.
pub proof fn lemma_decode_exact(bytes: Seq<u8>, payload: Seq<u8>)
    requires
        decode_spec(bytes) == Some(payload),
    ensures
        bytes == encode_spec(payload),
{
}

} // verus!
