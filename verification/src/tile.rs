use vstd::prelude::*;

verus! {

/// Number of samples along each side of a one-degree elevation tile.
pub const TILE_SIDE: usize = 1201;

/// Number of samples in a tile: `TILE_SIDE * TILE_SIDE`.
pub const TILE_SAMPLES: usize = 1442401;

/// Size in bytes of a tile file: two bytes per sample.
pub const TILE_BYTES: usize = 2884802;

/// The sample value that marks a void (no data) in a tile.
pub const VOID_SAMPLE: i16 = -32768;

/// The signed 16-bit value of a big-endian byte pair.
pub open spec fn be_i16(hi: u8, lo: u8) -> i16 {
    let u = hi as int * 256 + lo as int;
    (if u >= 32768 {
        u - 65536
    } else {
        u
    }) as i16
}

/// The big-endian 16-bit samples that `bytes` holds, in order; a trailing odd
/// byte is ignored.
pub open spec fn decode_samples(bytes: Seq<u8>) -> Seq<i16> {
    Seq::new(bytes.len() / 2, |i: int| be_i16(bytes[2 * i], bytes[2 * i + 1]))
}

/// The height read at column `x`, row `y` of a tile whose samples are `samples`:
/// zero outside the tile and where the sample is void.
pub open spec fn height_in(samples: Seq<i16>, x: int, y: int) -> i16 {
    if 0 <= x < TILE_SIDE && 0 <= y < TILE_SIDE {
        let v = samples[y * TILE_SIDE + x];
        if v == VOID_SAMPLE {
            0
        } else {
            v
        }
    } else {
        0
    }
}

/// Decodes the big-endian 16-bit samples of `bytes`, pair by pair.
pub fn decode_be_samples(bytes: &[u8]) -> (out: Vec<i16>)
    ensures
        out@ == decode_samples(bytes@),
{
    let len = bytes.len();
    let n = len / 2;
    let mut out: Vec<i16> = Vec::new();
    let mut i: usize = 0;
    while i < n
        invariant
            len == bytes@.len(),
            n == len / 2,
            i <= n,
            out@.len() == i,
            forall|k: int| 0 <= k < i ==> out@[k] == be_i16(bytes@[2 * k], bytes@[2 * k + 1]),
        decreases n - i,
    {
        assert(2 * i + 1 < len);
        let hi = bytes[2 * i];
        let lo = bytes[2 * i + 1];
        let u: u32 = hi as u32 * 256 + lo as u32;
        let v: i16 = if u >= 32768 {
            (u as i32 - 65536) as i16
        } else {
            u as i16
        };
        out.push(v);
        i = i + 1;
    }
    assert(out@ =~= decode_samples(bytes@));
    out
}

/// A one-degree elevation tile of `TILE_SIDE` by `TILE_SIDE` samples, row by row
/// from the north edge, each row from the west edge.
pub struct ElevationTile {
    samples: Vec<i16>,
}

impl View for ElevationTile {
    type V = Seq<i16>;

    closed spec fn view(&self) -> Seq<i16> {
        self.samples@
    }
}

impl ElevationTile {
    #[verifier::type_invariant]
    closed spec fn full(self) -> bool {
        self.samples@.len() == TILE_SAMPLES
    }

    /// Reads a tile from the bytes of its file: a tile when there are exactly
    /// `TILE_BYTES` of them, nothing otherwise.
    pub fn from_bytes(bytes: &[u8]) -> (r: Option<ElevationTile>)
        ensures
            r is Some <==> bytes@.len() == TILE_BYTES,
            r matches Some(t) ==> t@ == decode_samples(bytes@),
    {
        if bytes.len() != TILE_BYTES {
            return None;
        }
        let samples = decode_be_samples(bytes);
        Some(ElevationTile { samples })
    }

    /// The height at column `x`, row `y`: zero outside the tile and where the
    /// sample is void.
    pub fn height_at(&self, x: usize, y: usize) -> (h: i16)
        ensures
            h == height_in(self@, x as int, y as int),
    {
        proof {
            use_type_invariant(self);
        }
        if x >= TILE_SIDE || y >= TILE_SIDE {
            return 0;
        }
        let v = self.samples[y * TILE_SIDE + x];
        if v == VOID_SAMPLE {
            0
        } else {
            v
        }
    }
}

/// A tile read from its file gives back, at each position inside it, the
/// big-endian sample stored there, and zero where that sample is void; a void
/// is never reported as a height.
pub proof fn lemma_height_reads_file(bytes: Seq<u8>, x: int, y: int)
    requires
        bytes.len() == TILE_BYTES,
        0 <= x < TILE_SIDE,
        0 <= y < TILE_SIDE,
    ensures
        ({
            let k = y * TILE_SIDE + x;
            let v = be_i16(bytes[2 * k], bytes[2 * k + 1]);
            height_in(decode_samples(bytes), x, y) == if v == VOID_SAMPLE {
                0i16
            } else {
                v
            }
        }),
        height_in(decode_samples(bytes), x, y) != VOID_SAMPLE,
{
    assert(y * TILE_SIDE + x < TILE_SAMPLES);
}

} // verus!
