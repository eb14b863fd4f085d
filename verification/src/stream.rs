use vstd::prelude::*;

verus! {

/// Size in bytes of the stream header: four little-endian `u32` section lengths.
pub const HEADER_BYTES: usize = 16;

/// The four little-endian bytes of a 32-bit word, least significant first.
pub open spec fn le_bytes(w: u32) -> Seq<u8> {
    seq![
        (w % 256) as u8,
        (w / 256 % 256) as u8,
        (w / 65536 % 256) as u8,
        (w / 16777216) as u8,
    ]
}

/// The word that four little-endian bytes encode.
pub open spec fn le_word(b: Seq<u8>) -> u32
    recommends
        b.len() == 4,
{
    (b[0] + 256 * b[1] + 65536 * b[2] + 16777216 * b[3]) as u32
}

/// The words of `ws`, each written as four little-endian bytes, one after another.
pub open spec fn words_le(ws: Seq<u32>) -> Seq<u8>
    decreases ws.len(),
{
    if ws.len() == 0 {
        Seq::empty()
    } else {
        words_le(ws.drop_last()) + le_bytes(ws.last())
    }
}

/// The length field that announces a section of `n` bytes: `n` cut to 32 bits.
pub open spec fn length_field(n: nat) -> Seq<u8> {
    le_bytes((n % 0x1_0000_0000) as u32)
}

/// The stream that carries the four sections: their four length fields, then
/// the sections themselves in the same order.
pub open spec fn framed(mass: Seq<u8>, wmm: Seq<u8>, terrain: Seq<u8>, geoid: Seq<u8>) -> Seq<u8> {
    length_field(mass.len()) + length_field(wmm.len()) + length_field(terrain.len())
        + length_field(geoid.len()) + mass + wmm + terrain + geoid
}

/// The four sections of a stream, as a reader finds them.
pub struct StreamSections {
    pub mass: Vec<u8>,
    pub wmm: Vec<u8>,
    pub terrain: Vec<u8>,
    pub geoid: Vec<u8>,
}

/// The length announced by the field that starts at byte `at`.
pub open spec fn field_at(s: Seq<u8>, at: int) -> int {
    le_word(s.subrange(at, at + 4)) as int
}

/// Whether `s` holds a full header and every section that the header announces.
pub open spec fn well_framed(s: Seq<u8>) -> bool {
    &&& s.len() >= 16
    &&& 16 + field_at(s, 0) + field_at(s, 4) + field_at(s, 8) + field_at(s, 12) <= s.len()
}

/// Section `k` (0 to 3) of a well-framed stream.
pub open spec fn section(s: Seq<u8>, k: int) -> Seq<u8> {
    let l0 = field_at(s, 0);
    let l1 = field_at(s, 4);
    let l2 = field_at(s, 8);
    let l3 = field_at(s, 12);
    if k == 0 {
        s.subrange(16, 16 + l0)
    } else if k == 1 {
        s.subrange(16 + l0, 16 + l0 + l1)
    } else if k == 2 {
        s.subrange(16 + l0 + l1, 16 + l0 + l1 + l2)
    } else {
        s.subrange(16 + l0 + l1 + l2, 16 + l0 + l1 + l2 + l3)
    }
}

proof fn lemma_le_bytes_bounds(w: u32)
    ensures
        le_bytes(w).len() == 4,
        le_word(le_bytes(w)) == w,
{
    let b = le_bytes(w);
    assert(b[0] == w % 256);
    assert(b[1] == w / 256 % 256);
    assert(b[2] == w / 65536 % 256);
    assert(b[3] == w / 16777216) by {
        assert(w / 16777216 < 256);
    }
    assert(b[0] + 256 * b[1] + 65536 * b[2] + 16777216 * b[3] == w) by (nonlinear_arith)
        requires
            b[0] == w % 256,
            b[1] == w / 256 % 256,
            b[2] == w / 65536 % 256,
            b[3] == w / 16777216,
    {
    }
}

/// Writes `w` as four little-endian bytes at the end of `out`.
fn push_word(out: &mut Vec<u8>, w: u32)
    ensures
        final(out)@ == old(out)@ + le_bytes(w),
{
    out.push((w % 256) as u8);
    out.push((w / 256 % 256) as u8);
    out.push((w / 65536 % 256) as u8);
    assert(w / 16777216 < 256);
    out.push((w / 16777216) as u8);
    assert(out@ =~= old(out)@ + le_bytes(w));
}

/// Appends the bytes of `src` to `out`.
fn push_bytes(out: &mut Vec<u8>, src: &[u8])
    ensures
        final(out)@ == old(out)@ + src@,
{
    let ghost start = out@;
    for i in 0..src.len()
        invariant
            out@ == start + src@.subrange(0, i as int),
    {
        out.push(src[i]);
        assert(start + src@.subrange(0, i + 1) =~= (start + src@.subrange(0, i as int)).push(src@[i as int]));
    }
    assert(src@.subrange(0, src@.len() as int) =~= src@);
}

/// Little-endian bytes of each word in turn, as `f32::to_le_bytes` gives them
/// for the bit patterns of floats.
pub fn words_to_le_bytes(words: &[u32]) -> (out: Vec<u8>)
    ensures
        out@ == words_le(words@),
        out@.len() == 4 * words@.len(),
{
    let mut out: Vec<u8> = Vec::new();
    for i in 0..words.len()
        invariant
            out@ == words_le(words@.subrange(0, i as int)),
            out@.len() == 4 * i,
    {
        let ghost before = words@.subrange(0, i as int);
        push_word(&mut out, words[i]);
        assert(words@.subrange(0, i + 1).drop_last() =~= before);
    }
    assert(words@.subrange(0, words@.len() as int) =~= words@);
    out
}

/// Frames the four sections of a stream: a header of four `u32` lengths, little
/// endian (each length cut to 32 bits), then the sections in the same order.
pub fn frame_stream(mass: &[u8], wmm: &[u8], terrain: &[u8], geoid: &[u8]) -> (out: Vec<u8>)
    ensures
        out@ == framed(mass@, wmm@, terrain@, geoid@),
        out@.len() == 16 + mass@.len() + wmm@.len() + terrain@.len() + geoid@.len(),
        out@[0] + 256 * out@[1] + 65536 * out@[2] + 16777216 * out@[3] == mass@.len()
            % 0x1_0000_0000,
        out@[4] + 256 * out@[5] + 65536 * out@[6] + 16777216 * out@[7] == wmm@.len()
            % 0x1_0000_0000,
        out@[8] + 256 * out@[9] + 65536 * out@[10] + 16777216 * out@[11] == terrain@.len()
            % 0x1_0000_0000,
        out@[12] + 256 * out@[13] + 65536 * out@[14] + 16777216 * out@[15] == geoid@.len()
            % 0x1_0000_0000,
        out@.subrange(16, 16 + mass@.len() as int) == mass@,
        out@.subrange(16 + mass@.len() as int, 16 + mass@.len() as int + wmm@.len() as int) == wmm@,
        out@.subrange(
            16 + mass@.len() as int + wmm@.len() as int,
            16 + mass@.len() as int + wmm@.len() as int + terrain@.len() as int,
        ) == terrain@,
        out@.subrange(
            16 + mass@.len() as int + wmm@.len() as int + terrain@.len() as int,
            16 + mass@.len() as int + wmm@.len() as int + terrain@.len() as int + geoid@.len() as int,
        ) == geoid@,
{
    let ml = mass.len() as u64;
    let wl = wmm.len() as u64;
    let tl = terrain.len() as u64;
    let gl = geoid.len() as u64;
    assert(ml as u32 == ml % 0x1_0000_0000) by (bit_vector);
    assert(wl as u32 == wl % 0x1_0000_0000) by (bit_vector);
    assert(tl as u32 == tl % 0x1_0000_0000) by (bit_vector);
    assert(gl as u32 == gl % 0x1_0000_0000) by (bit_vector);
    let mut out: Vec<u8> = Vec::new();
    push_word(&mut out, ml as u32);
    push_word(&mut out, wl as u32);
    push_word(&mut out, tl as u32);
    push_word(&mut out, gl as u32);
    push_bytes(&mut out, mass);
    push_bytes(&mut out, wmm);
    push_bytes(&mut out, terrain);
    push_bytes(&mut out, geoid);
    proof {
        lemma_framed_layout(mass@, wmm@, terrain@, geoid@);
    }
    out
}

/// Reads the length field that starts at byte `at`.
fn read_word(s: &[u8], at: usize) -> (w: u32)
    requires
        at + 4 <= s@.len(),
    ensures
        w == field_at(s@, at as int),
{
    let b0 = s[at] as u32;
    let b1 = s[at + 1] as u32;
    let b2 = s[at + 2] as u32;
    let b3 = s[at + 3] as u32;
    assert(b0 + 256 * b1 + 65536 * b2 + 16777216 * b3 <= 0xffff_ffff) by (nonlinear_arith)
        requires
            b0 < 256,
            b1 < 256,
            b2 < 256,
            b3 < 256,
    {
    }
    let w = b0 + 256 * b1 + 65536 * b2 + 16777216 * b3;
    let ghost sub = s@.subrange(at as int, at + 4);
    assert(sub[0] == b0 && sub[1] == b1 && sub[2] == b2 && sub[3] == b3);
    w
}

/// Copies bytes `start` up to `end` of `s`.
fn copy_range(s: &[u8], start: usize, end: usize) -> (out: Vec<u8>)
    requires
        start <= end <= s@.len(),
    ensures
        out@ == s@.subrange(start as int, end as int),
{
    let mut out: Vec<u8> = Vec::new();
    let mut i = start;
    while i < end
        invariant
            start <= i <= end <= s@.len(),
            out@ == s@.subrange(start as int, i as int),
        decreases end - i,
    {
        out.push(s[i]);
        assert(s@.subrange(start as int, i + 1) =~= s@.subrange(start as int, i as int).push(
            s@[i as int],
        ));
        i = i + 1;
    }
    out
}

/// Splits a received stream into its four sections, as the viewer reads it:
/// nothing when the header is incomplete or a section runs past the end.
pub fn split_stream(s: &[u8]) -> (r: Option<StreamSections>)
    ensures
        r is Some <==> well_framed(s@),
        r matches Some(sec) ==> {
            &&& sec.mass@ == section(s@, 0)
            &&& sec.wmm@ == section(s@, 1)
            &&& sec.terrain@ == section(s@, 2)
            &&& sec.geoid@ == section(s@, 3)
        },
        r matches Some(sec) ==> {
            let l0 = s@[0] + 256 * s@[1] + 65536 * s@[2] + 16777216 * s@[3];
            let l1 = s@[4] + 256 * s@[5] + 65536 * s@[6] + 16777216 * s@[7];
            let l2 = s@[8] + 256 * s@[9] + 65536 * s@[10] + 16777216 * s@[11];
            &&& sec.mass@ == s@.subrange(16, 16 + l0)
            &&& sec.wmm@ == s@.subrange(16 + l0, 16 + l0 + l1)
            &&& sec.terrain@ == s@.subrange(16 + l0 + l1, 16 + l0 + l1 + l2)
            &&& sec.geoid@ == s@.subrange(16 + l0 + l1 + l2, 16 + l0 + l1 + l2 + sec.geoid@.len())
            &&& sec.geoid@.len() == s@[12] + 256 * s@[13] + 65536 * s@[14] + 16777216 * s@[15]
        },
{
    if s.len() < HEADER_BYTES {
        return None;
    }
    let l0 = read_word(s, 0) as usize;
    let l1 = read_word(s, 4) as usize;
    let l2 = read_word(s, 8) as usize;
    let l3 = read_word(s, 12) as usize;
    let rest = s.len() - HEADER_BYTES;
    if l0 > rest || l1 > rest - l0 || l2 > rest - l0 - l1 || l3 > rest - l0 - l1 - l2 {
        return None;
    }
    let e0 = HEADER_BYTES + l0;
    let e1 = e0 + l1;
    let e2 = e1 + l2;
    let e3 = e2 + l3;
    proof {
        lemma_section_offsets(s@);
    }
    Some(
        StreamSections {
            mass: copy_range(s, HEADER_BYTES, e0),
            wmm: copy_range(s, e0, e1),
            terrain: copy_range(s, e1, e2),
            geoid: copy_range(s, e2, e3),
        },
    )
}

proof fn lemma_concat_parts(x: Seq<u8>, y: Seq<u8>)
    ensures
        (x + y).subrange(0, x.len() as int) == x,
        (x + y).subrange(x.len() as int, (x.len() + y.len()) as int) == y,
{
    assert((x + y).subrange(0, x.len() as int) =~= x);
    assert((x + y).subrange(x.len() as int, (x.len() + y.len()) as int) =~= y);
}

proof fn lemma_prefix_subrange(x: Seq<u8>, y: Seq<u8>, i: int, j: int)
    requires
        0 <= i <= j <= x.len(),
    ensures
        (x + y).subrange(i, j) == x.subrange(i, j),
{
    assert((x + y).subrange(i, j) =~= x.subrange(i, j));
}

/// Reading a framed stream gives back the four sections that were framed,
/// provided that no section is longer than a 32-bit length can announce.
pub proof fn lemma_split_frame_roundtrip(
    mass: Seq<u8>,
    wmm: Seq<u8>,
    terrain: Seq<u8>,
    geoid: Seq<u8>,
)
    requires
        mass.len() <= u32::MAX,
        wmm.len() <= u32::MAX,
        terrain.len() <= u32::MAX,
        geoid.len() <= u32::MAX,
    ensures
        well_framed(framed(mass, wmm, terrain, geoid)),
        section(framed(mass, wmm, terrain, geoid), 0) == mass,
        section(framed(mass, wmm, terrain, geoid), 1) == wmm,
        section(framed(mass, wmm, terrain, geoid), 2) == terrain,
        section(framed(mass, wmm, terrain, geoid), 3) == geoid,
{
    let s = framed(mass, wmm, terrain, geoid);
    lemma_framed_layout(mass, wmm, terrain, geoid);
    assert(mass.len() % 0x1_0000_0000 == mass.len());
    assert(wmm.len() % 0x1_0000_0000 == wmm.len());
    assert(terrain.len() % 0x1_0000_0000 == terrain.len());
    assert(geoid.len() % 0x1_0000_0000 == geoid.len());
    lemma_field_at_bytes(s, 0);
    lemma_field_at_bytes(s, 4);
    lemma_field_at_bytes(s, 8);
    lemma_field_at_bytes(s, 12);
}

/// Each word written by `words_le` is read back from its four bytes: the bytes
/// at `4 * i .. 4 * i + 4` encode word `i`.
pub proof fn lemma_words_le_readback(ws: Seq<u32>, i: int)
    requires
        0 <= i < ws.len(),
    ensures
        words_le(ws).len() == 4 * ws.len(),
        words_le(ws).subrange(4 * i, 4 * i + 4) == le_bytes(ws[i]),
        le_word(words_le(ws).subrange(4 * i, 4 * i + 4)) == ws[i],
    decreases ws.len(),
{
    lemma_words_le_len(ws);
    lemma_le_bytes_bounds(ws[i]);
    let d = ws.drop_last();
    lemma_words_le_len(d);
    if i < ws.len() - 1 {
        lemma_words_le_readback(d, i);
        lemma_prefix_subrange(words_le(d), le_bytes(ws.last()), 4 * i, 4 * i + 4);
    } else {
        lemma_le_bytes_bounds(ws.last());
        lemma_concat_parts(words_le(d), le_bytes(ws.last()));
    }
}

proof fn lemma_words_le_len(ws: Seq<u32>)
    ensures
        words_le(ws).len() == 4 * ws.len(),
    decreases ws.len(),
{
    if ws.len() > 0 {
        lemma_words_le_len(ws.drop_last());
        lemma_le_bytes_bounds(ws.last());
    }
}

/// The four little-endian bytes of a word encode that word.
proof fn lemma_le_bytes_value(w: u32)
    ensures
        le_bytes(w)[0] + 256 * le_bytes(w)[1] + 65536 * le_bytes(w)[2] + 16777216 * le_bytes(w)[3]
            == w,
{
    lemma_le_bytes_bounds(w);
}

/// The length fields announced at the start of a stream are read by the byte
/// arithmetic the viewer uses.
proof fn lemma_field_at_bytes(s: Seq<u8>, at: int)
    requires
        0 <= at,
        at + 4 <= s.len(),
    ensures
        field_at(s, at) == s[at] + 256 * s[at + 1] + 65536 * s[at + 2] + 16777216 * s[at + 3],
{
    let sub = s.subrange(at, at + 4);
    assert(sub[0] == s[at] && sub[1] == s[at + 1] && sub[2] == s[at + 2] && sub[3] == s[at + 3]);
    assert(0 <= sub[0] + 256 * sub[1] + 65536 * sub[2] + 16777216 * sub[3] <= u32::MAX)
        by (nonlinear_arith)
        requires
            sub[0] < 256,
            sub[1] < 256,
            sub[2] < 256,
            sub[3] < 256,
    ;
}

/// The layout of a framed stream, byte by byte: a 16-byte header whose four
/// little-endian words are the lengths of mass, magnetic, terrain and geoid
/// sections (each modulo 2^32), then those sections in that order, each
/// starting where the one before it ends.
pub proof fn lemma_framed_layout(mass: Seq<u8>, wmm: Seq<u8>, terrain: Seq<u8>, geoid: Seq<u8>)
    ensures
        ({
            let s = framed(mass, wmm, terrain, geoid);
            let a = 16 + mass.len();
            let b = a + wmm.len();
            let c = b + terrain.len();
            &&& s.len() == c + geoid.len()
            &&& s[0] + 256 * s[1] + 65536 * s[2] + 16777216 * s[3] == mass.len() % 0x1_0000_0000
            &&& s[4] + 256 * s[5] + 65536 * s[6] + 16777216 * s[7] == wmm.len() % 0x1_0000_0000
            &&& s[8] + 256 * s[9] + 65536 * s[10] + 16777216 * s[11] == terrain.len() % 0x1_0000_0000
            &&& s[12] + 256 * s[13] + 65536 * s[14] + 16777216 * s[15] == geoid.len() % 0x1_0000_0000
            &&& s.subrange(16, a as int) == mass
            &&& s.subrange(a as int, b as int) == wmm
            &&& s.subrange(b as int, c as int) == terrain
            &&& s.subrange(c as int, (c + geoid.len()) as int) == geoid
        }),
{
    let f0 = length_field(mass.len());
    let f1 = length_field(wmm.len());
    let f2 = length_field(terrain.len());
    let f3 = length_field(geoid.len());
    lemma_le_bytes_value((mass.len() % 0x1_0000_0000) as u32);
    lemma_le_bytes_value((wmm.len() % 0x1_0000_0000) as u32);
    lemma_le_bytes_value((terrain.len() % 0x1_0000_0000) as u32);
    lemma_le_bytes_value((geoid.len() % 0x1_0000_0000) as u32);
    lemma_le_bytes_bounds((mass.len() % 0x1_0000_0000) as u32);
    lemma_le_bytes_bounds((wmm.len() % 0x1_0000_0000) as u32);
    lemma_le_bytes_bounds((terrain.len() % 0x1_0000_0000) as u32);
    lemma_le_bytes_bounds((geoid.len() % 0x1_0000_0000) as u32);
    let h = f0 + f1 + f2 + f3;
    let p0 = h + mass;
    let p1 = p0 + wmm;
    let p2 = p1 + terrain;
    let s = p2 + geoid;
    assert(s == framed(mass, wmm, terrain, geoid));
    assert forall|i: int| 0 <= i < 16 implies s[i] == h[i] by {
        assert(s[i] == p2[i] && p2[i] == p1[i] && p1[i] == p0[i] && p0[i] == h[i]);
    }
    assert(h[0] == f0[0] && h[1] == f0[1] && h[2] == f0[2] && h[3] == f0[3]);
    assert(h[4] == f1[0] && h[5] == f1[1] && h[6] == f1[2] && h[7] == f1[3]);
    assert(h[8] == f2[0] && h[9] == f2[1] && h[10] == f2[2] && h[11] == f2[3]);
    assert(h[12] == f3[0] && h[13] == f3[1] && h[14] == f3[2] && h[15] == f3[3]);
    assert(s.subrange(16, (16 + mass.len()) as int) == mass) by {
        lemma_prefix_subrange(p2, geoid, 16, (16 + mass.len()) as int);
        lemma_prefix_subrange(p1, terrain, 16, (16 + mass.len()) as int);
        lemma_prefix_subrange(p0, wmm, 16, (16 + mass.len()) as int);
        lemma_concat_parts(h, mass);
    }
    assert(s.subrange(p0.len() as int, p1.len() as int) == wmm) by {
        lemma_prefix_subrange(p2, geoid, p0.len() as int, p1.len() as int);
        lemma_prefix_subrange(p1, terrain, p0.len() as int, p1.len() as int);
        lemma_concat_parts(p0, wmm);
    }
    assert(s.subrange(p1.len() as int, p2.len() as int) == terrain) by {
        lemma_prefix_subrange(p2, geoid, p1.len() as int, p2.len() as int);
        lemma_concat_parts(p1, terrain);
    }
    assert(s.subrange(p2.len() as int, s.len() as int) == geoid) by {
        lemma_concat_parts(p2, geoid);
    }
}

/// Where a reader finds each section of a well-framed stream, byte by byte:
/// the header's four little-endian words give the lengths, and the sections
/// follow the header in the order mass, magnetic, terrain, geoid.
pub proof fn lemma_section_offsets(s: Seq<u8>)
    requires
        well_framed(s),
    ensures
        ({
            let l0 = s[0] + 256 * s[1] + 65536 * s[2] + 16777216 * s[3];
            let l1 = s[4] + 256 * s[5] + 65536 * s[6] + 16777216 * s[7];
            let l2 = s[8] + 256 * s[9] + 65536 * s[10] + 16777216 * s[11];
            let l3 = s[12] + 256 * s[13] + 65536 * s[14] + 16777216 * s[15];
            &&& 16 + l0 + l1 + l2 + l3 <= s.len()
            &&& section(s, 0) == s.subrange(16, 16 + l0)
            &&& section(s, 1) == s.subrange(16 + l0, 16 + l0 + l1)
            &&& section(s, 2) == s.subrange(16 + l0 + l1, 16 + l0 + l1 + l2)
            &&& section(s, 3) == s.subrange(16 + l0 + l1 + l2, 16 + l0 + l1 + l2 + l3)
        }),
{
    lemma_field_at_bytes(s, 0);
    lemma_field_at_bytes(s, 4);
    lemma_field_at_bytes(s, 8);
    lemma_field_at_bytes(s, 12);
}

} // verus!
