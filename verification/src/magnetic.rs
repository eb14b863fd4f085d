use vstd::prelude::*;

verus! {

/// Number of Gauss coefficients `g` (and as many `h`) of a spherical-harmonic
/// field of degree `n`: one for each `(n', m)` with `1 <= n' <= n`, `0 <= m <= n'`.
pub open spec fn coeffs_for_degree(n: int) -> int {
    n * (n + 3) / 2
}

/// `s` is the integer square root of `m`.
pub open spec fn is_floor_sqrt(s: int, m: int) -> bool {
    0 <= s && s * s <= m < (s + 1) * (s + 1)
}

/// The degree that a table of `len` coefficients stands for:
/// `(isqrt(8 * len + 9) - 3) / 2`.
pub open spec fn degree_for_len(len: int) -> int {
    ((choose|s: int| #[trigger] is_floor_sqrt(s, 8 * len + 9)) - 3) / 2
}

/// The `i`th word of `s`, and zero past its end.
pub open spec fn word_or_zero(s: Seq<u32>, i: int) -> u32 {
    if 0 <= i < s.len() {
        s[i]
    } else {
        0
    }
}

/// `s` cut or padded with zeros to `len` words, as `Vec::resize` leaves it.
pub open spec fn padded(s: Seq<u32>, len: nat) -> Seq<u32> {
    Seq::new(len, |i: int| word_or_zero(s, i))
}

/// The four coefficient tables laid side by side for each index below `count`:
/// `g[i], h[i], g_sv[i], h_sv[i]`, with zeros past the end of a table.
pub open spec fn interleaved(
    g: Seq<u32>,
    h: Seq<u32>,
    g_sv: Seq<u32>,
    h_sv: Seq<u32>,
    count: nat,
) -> Seq<u32> {
    Seq::new(
        4 * count,
        |j: int|
            {
                let i = j / 4;
                let k = j % 4;
                if k == 0 {
                    word_or_zero(g, i)
                } else if k == 1 {
                    word_or_zero(h, i)
                } else if k == 2 {
                    word_or_zero(g_sv, i)
                } else {
                    word_or_zero(h_sv, i)
                }
            },
    )
}

/// The four coefficient tables, each cut or padded to `count` words, one after
/// another.
pub open spec fn blocked(
    g: Seq<u32>,
    h: Seq<u32>,
    g_sv: Seq<u32>,
    h_sv: Seq<u32>,
    count: nat,
) -> Seq<u32> {
    padded(g, count) + padded(h, count) + padded(g_sv, count) + padded(h_sv, count)
}

proof fn lemma_product_even(n: int)
    ensures
        (n * (n + 3)) % 2 == 0,
{
    let q = n / 2;
    if n % 2 == 0 {
        assert(n * (n + 3) == (q * (2 * q + 3)) * 2) by (nonlinear_arith)
            requires
                n == 2 * q,
        ;
        vstd::arithmetic::div_mod::lemma_mod_multiples_basic(q * (2 * q + 3), 2);
    } else {
        assert(n * (n + 3) == ((2 * q + 1) * (q + 2)) * 2) by (nonlinear_arith)
            requires
                n == 2 * q + 1,
        ;
        vstd::arithmetic::div_mod::lemma_mod_multiples_basic((2 * q + 1) * (q + 2), 2);
    }
}

/// Number of coefficients in each table of a field of degree `n`: `n * (n + 3) / 2`,
/// computed in 32 bits as the stream does.
pub fn coeff_count(n: i32) -> (c: i32)
    requires
        i32::MIN <= n * (n + 3) <= i32::MAX,
    ensures
        c == coeffs_for_degree(n as int),
        c == n * (n + 3) / 2,
{
    proof {
        lemma_product_even(n as int);
    }
    if n >= 50000 {
        assert(n * (n + 3) >= 50000 * (n + 3)) by (nonlinear_arith)
            requires
                n >= 50000,
        ;
    }
    if n <= -50000 {
        assert(n * (n + 3) >= 49997 * (-n)) by (nonlinear_arith)
            requires
                n <= -50000,
        ;
    }
    let n3: i32 = n + 3;
    let p: i32 = n * n3;
    let half: i32 = p / 2;
    assert(half == p / 2);
    half
}

/// The smaller of the degree a viewer asks for and the degree the model has.
pub open spec fn effective_degree(requested: int, available: int) -> int {
    if requested < available {
        requested
    } else {
        available
    }
}

/// Number of coefficients streamed per table: those of the smaller of the
/// requested degree and the degree of the model.
pub fn stream_coeff_count(requested: i32, available: i32) -> (c: i32)
    requires
        i32::MIN <= effective_degree(requested as int, available as int) * (effective_degree(
            requested as int,
            available as int,
        ) + 3) <= i32::MAX,
    ensures
        c == coeffs_for_degree(effective_degree(requested as int, available as int)),
        requested <= available ==> c == requested * (requested + 3) / 2,
        available <= requested ==> c == available * (available + 3) / 2,
{
    let n = if requested < available {
        requested
    } else {
        available
    };
    coeff_count(n)
}

/// The integer square root of `m`.
fn floor_sqrt(m: u32) -> (s: u32)
    ensures
        is_floor_sqrt(s as int, m as int),
        s <= 65536,
{
    let mut s: u64 = 0;
    loop
        invariant
            s * s <= m,
            s <= 65536,
        ensures
            s * s <= m < (s + 1) * (s + 1),
            s <= 65536,
        decreases m - s * s,
    {
        assert((s + 1) * (s + 1) <= 65537 * 65537) by (nonlinear_arith)
            requires
                s <= 65536,
        ;
        let next = s + 1;
        if next * next > m as u64 {
            break;
        }
        assert(next <= 65536) by (nonlinear_arith)
            requires
                next * next <= m,
                m <= u32::MAX,
        ;
        assert(next * next > s * s) by (nonlinear_arith)
            requires
                next == s + 1,
        ;
        s = next;
    }
    s as u32
}

proof fn lemma_floor_sqrt_unique(s: int, t: int, m: int)
    requires
        is_floor_sqrt(s, m),
        is_floor_sqrt(t, m),
    ensures
        s == t,
{
    if s < t {
        assert((s + 1) * (s + 1) <= t * t) by (nonlinear_arith)
            requires
                0 <= s < t,
        ;
    } else if t < s {
        assert((t + 1) * (t + 1) <= s * s) by (nonlinear_arith)
            requires
                0 <= t < s,
        ;
    }
}

/// The degree of the field whose tables hold `len` coefficients each:
/// `(isqrt(8 * len + 9) - 3) / 2`. This is what the same formula gives with a
/// floating-point square root cut to an integer: `8 * len + 9` is below 2^31,
/// so it and every square up to it are exact as `f64`, the square root is
/// correctly rounded, and a root that is not a whole number lies further from
/// the next whole number than half a unit in the last place.
pub fn degree_for_coeff_count(len: usize) -> (n: i32)
    requires
        8 * len + 9 <= i32::MAX,
    ensures
        n == degree_for_len(len as int),
{
    let m: u32 = 8 * (len as u32) + 9;
    let s = floor_sqrt(m);
    assert(s >= 3) by (nonlinear_arith)
        requires
            is_floor_sqrt(s as int, m as int),
            m >= 9,
    ;
    proof {
        let c = choose|t: int| #[trigger] is_floor_sqrt(t, 8 * len + 9);
        lemma_floor_sqrt_unique(s as int, c, m as int);
    }
    let r: i32 = s as i32 - 3;
    r / 2
}

/// A table of coefficients cut or padded with zeros to `len` words.
pub fn pad_words(v: &[u32], len: usize) -> (out: Vec<u32>)
    ensures
        out@ == padded(v@, len as nat),
{
    let mut out: Vec<u32> = Vec::new();
    for i in 0..len
        invariant
            out@.len() == i,
            forall|k: int| 0 <= k < i ==> out@[k] == word_or_zero(v@, k),
    {
        if i < v.len() {
            out.push(v[i]);
        } else {
            out.push(0);
        }
    }
    assert(out@ =~= padded(v@, len as nat));
    out
}

/// The four tables, index by index: `g[i], h[i], g_sv[i], h_sv[i]` for each `i`
/// below `count`, with zeros past the end of a table.
pub fn interleave_coeffs(g: &[u32], h: &[u32], g_sv: &[u32], h_sv: &[u32], count: usize) -> (out: Vec<u32>)
    requires
        4 * count <= usize::MAX,
    ensures
        out@ == interleaved(g@, h@, g_sv@, h_sv@, count as nat),
{
    let mut out: Vec<u32> = Vec::new();
    for i in 0..count
        invariant
            4 * count <= usize::MAX,
            out@.len() == 4 * i,
            forall|j: int|
                0 <= j < 4 * i ==> out@[j] == #[trigger] interleaved(g@, h@, g_sv@, h_sv@, count as nat)[j],
    {
        let a = if i < g.len() { g[i] } else { 0 };
        let b = if i < h.len() { h[i] } else { 0 };
        let c = if i < g_sv.len() { g_sv[i] } else { 0 };
        let d = if i < h_sv.len() { h_sv[i] } else { 0 };
        out.push(a);
        out.push(b);
        out.push(c);
        out.push(d);
        assert forall|j: int| 0 <= j < 4 * (i + 1) implies out@[j] == #[trigger] interleaved(
            g@,
            h@,
            g_sv@,
            h_sv@,
            count as nat,
        )[j] by {
            if j >= 4 * i {
                assert(j / 4 == i as int);
                assert(j % 4 == j - 4 * i);
            }
        }
    }
    assert(out@ =~= interleaved(g@, h@, g_sv@, h_sv@, count as nat));
    out
}

/// The four tables one after another, each cut or padded to `count` words.
pub fn block_coeffs(g: &[u32], h: &[u32], g_sv: &[u32], h_sv: &[u32], count: usize) -> (out: Vec<u32>)
    requires
        4 * count <= usize::MAX,
    ensures
        out@ == blocked(g@, h@, g_sv@, h_sv@, count as nat),
{
    let mut out = pad_words(g, count);
    let mut b = pad_words(h, count);
    let mut c = pad_words(g_sv, count);
    let mut d = pad_words(h_sv, count);
    out.append(&mut b);
    out.append(&mut c);
    out.append(&mut d);
    out
}

/// Counting the coefficients of a degree and reading the degree back from that
/// count gives the degree again.
pub proof fn lemma_degree_of_count(n: int)
    requires
        0 <= n,
        8 * coeffs_for_degree(n) + 9 <= i32::MAX,
    ensures
        degree_for_len(coeffs_for_degree(n)) == n,
{
    lemma_product_even(n);
    let len = coeffs_for_degree(n);
    assert(8 * len + 9 == (2 * n + 3) * (2 * n + 3)) by (nonlinear_arith)
        requires
            len == n * (n + 3) / 2,
            (n * (n + 3)) % 2 == 0,
    ;
    let s = 2 * n + 3;
    assert(is_floor_sqrt(s, 8 * len + 9)) by (nonlinear_arith)
        requires
            8 * len + 9 == s * s,
            s >= 0,
    ;
    let c = choose|t: int| #[trigger] is_floor_sqrt(t, 8 * len + 9);
    lemma_floor_sqrt_unique(s, c, 8 * len + 9);
}

/// The interleaved layout holds the same words as the blocked layout: word `k`
/// of index `i` in the first is word `i` of block `k` in the second.
pub proof fn lemma_interleaved_is_transposed_blocks(
    g: Seq<u32>,
    h: Seq<u32>,
    g_sv: Seq<u32>,
    h_sv: Seq<u32>,
    count: nat,
    i: int,
    k: int,
)
    requires
        0 <= i < count,
        0 <= k < 4,
    ensures
        interleaved(g, h, g_sv, h_sv, count)[4 * i + k] == blocked(g, h, g_sv, h_sv, count)[k
            * count + i],
{
    assert((4 * i + k) / 4 == i);
    assert((4 * i + k) % 4 == k);
    assert(k * count + i < 4 * count) by (nonlinear_arith)
        requires
            0 <= i < count,
            0 <= k < 4,
    ;
    let a = padded(g, count);
    let b = padded(h, count);
    let c = padded(g_sv, count);
    let d = padded(h_sv, count);
    let ab = a + b;
    let abc = ab + c;
    assert(blocked(g, h, g_sv, h_sv, count) == abc + d);
    if k == 0 {
        assert((abc + d)[i] == abc[i]);
        assert(abc[i] == ab[i]);
        assert(ab[i] == a[i]);
    } else if k == 1 {
        assert(1 * count + i == count + i);
        assert((abc + d)[count + i] == abc[count + i]);
        assert(abc[count + i] == ab[count + i]);
        assert(ab[count + i] == b[i]);
    } else if k == 2 {
        assert(2 * count + i == count + count + i);
        assert((abc + d)[2 * count + i] == abc[2 * count + i]);
        assert(abc[2 * count + i] == c[i]);
    } else {
        assert(3 * count + i == count + count + count + i);
        assert((abc + d)[3 * count + i] == d[i]);
    }
}

/// Streaming fewer coefficients gives the front of the longer section: the
/// section for `c1` is the first `4 * c1` words of the section for `c2`.
pub proof fn lemma_interleaved_prefix(
    g: Seq<u32>,
    h: Seq<u32>,
    g_sv: Seq<u32>,
    h_sv: Seq<u32>,
    c1: nat,
    c2: nat,
)
    requires
        c1 <= c2,
    ensures
        interleaved(g, h, g_sv, h_sv, c1) == interleaved(g, h, g_sv, h_sv, c2).take((4 * c1) as int),
{
    assert(interleaved(g, h, g_sv, h_sv, c1) =~= interleaved(g, h, g_sv, h_sv, c2).take((4 * c1) as int));
}

/// More coefficients for a higher degree: the count grows with the degree.
pub proof fn lemma_coeffs_grow(n1: int, n2: int)
    requires
        0 <= n1 <= n2,
    ensures
        0 <= coeffs_for_degree(n1) <= coeffs_for_degree(n2),
{
    assert(0 <= n1 * (n1 + 3) <= n2 * (n2 + 3)) by (nonlinear_arith)
        requires
            0 <= n1 <= n2,
    ;
    vstd::arithmetic::div_mod::lemma_div_is_ordered(n1 * (n1 + 3), n2 * (n2 + 3), 2);
    vstd::arithmetic::div_mod::lemma_div_is_ordered(0, n1 * (n1 + 3), 2);
}

/// The section of coefficients streamed for a request depends on the request
/// only through the smaller of it and the model's degree: two requests at or
/// above the model's degree stream the same section, and of two requests the
/// smaller streams the front of what the larger streams.
pub proof fn lemma_stream_section_by_request(
    g: Seq<u32>,
    h: Seq<u32>,
    g_sv: Seq<u32>,
    h_sv: Seq<u32>,
    requested1: int,
    requested2: int,
    available: int,
)
    requires
        0 <= available,
        0 <= requested1 <= requested2,
    ensures
        ({
            let c1 = coeffs_for_degree(effective_degree(requested1, available));
            let c2 = coeffs_for_degree(effective_degree(requested2, available));
            &&& 0 <= c1 <= c2
            &&& interleaved(g, h, g_sv, h_sv, c1 as nat) == interleaved(g, h, g_sv, h_sv, c2 as nat).take(
                4 * c1,
            )
            &&& requested1 >= available ==> c1 == c2 && interleaved(g, h, g_sv, h_sv, c1 as nat)
                == interleaved(g, h, g_sv, h_sv, c2 as nat)
        }),
{
    let e1 = effective_degree(requested1, available);
    let e2 = effective_degree(requested2, available);
    lemma_coeffs_grow(e1, e2);
    let c1 = coeffs_for_degree(e1);
    let c2 = coeffs_for_degree(e2);
    lemma_interleaved_prefix(g, h, g_sv, h_sv, c1 as nat, c2 as nat);
}

/// The degree streamed is the smaller of the requested degree and the model's:
/// it is one of the two and no larger than either.
pub proof fn lemma_effective_degree_is_smaller(requested: int, available: int)
    ensures
        effective_degree(requested, available) <= requested,
        effective_degree(requested, available) <= available,
        effective_degree(requested, available) == requested || effective_degree(requested, available)
            == available,
{
}

/// The count streamed for a request, in terms of the request and the model's
/// degree alone: the count of the requested degree when it is not above the
/// model's, and the count of the model's degree otherwise.
pub proof fn lemma_stream_count_of_smaller_degree(requested: int, available: int)
    ensures
        requested <= available ==> coeffs_for_degree(effective_degree(requested, available))
            == requested * (requested + 3) / 2,
        available <= requested ==> coeffs_for_degree(effective_degree(requested, available))
            == available * (available + 3) / 2,
{
}

} // verus!
