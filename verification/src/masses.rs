use vstd::prelude::*;

verus! {

/// NAIF identifier of the Sun, which is streamed however far it is from the view.
pub const SUN_ID: i32 = 10;

/// Number of masses streamed to an observer of a higher tier.
pub const OBSERVER_MASS_LIMIT: usize = 15;

/// Number of masses streamed otherwise.
pub const BASE_MASS_LIMIT: usize = 5;

/// A body that may be streamed: its NAIF identifier, a key that orders bodies
/// as their gravity parameters do, and whether it lies beyond the radius of
/// influence of the view.
#[derive(Clone, Copy, Debug)]
pub struct MassCandidate {
    pub id: i32,
    pub gm_key: u64,
    pub beyond_reach: bool,
}

/// A body is kept unless it lies beyond the radius of influence; the Sun is
/// always kept.
pub open spec fn is_kept(c: MassCandidate) -> bool {
    !(c.beyond_reach && c.id != SUN_ID)
}

/// The number of masses streamed for an observer tier.
pub open spec fn limit_for(observer_tier: i32) -> nat {
    if observer_tier > 0 {
        OBSERVER_MASS_LIMIT as nat
    } else {
        BASE_MASS_LIMIT as nat
    }
}

/// The first position at or after `j` whose key is below `key`, or the length.
pub open spec fn first_below_from(t: Seq<MassCandidate>, key: u64, j: int) -> int
    decreases t.len() - j,
{
    if j < 0 || j >= t.len() {
        t.len() as int
    } else if t[j].gm_key < key {
        j
    } else {
        first_below_from(t, key, j + 1)
    }
}

/// `t` with `c` placed after every body whose key is at least that of `c`.
pub open spec fn insert_desc(t: Seq<MassCandidate>, c: MassCandidate) -> Seq<MassCandidate> {
    t.insert(first_below_from(t, c.gm_key, 0), c)
}

/// The stable sort of `s` by decreasing key: bodies with equal keys keep their order.
pub open spec fn sort_desc(s: Seq<MassCandidate>) -> Seq<MassCandidate>
    decreases s.len(),
{
    if s.len() == 0 {
        s
    } else {
        insert_desc(sort_desc(s.drop_last()), s.last())
    }
}

/// The kept bodies of `s`, in order.
pub open spec fn kept_of(s: Seq<MassCandidate>) -> Seq<MassCandidate> {
    s.filter(|c: MassCandidate| is_kept(c))
}

/// The bodies streamed from candidates `s`: the kept ones, by decreasing key,
/// cut to the limit of the observer tier.
pub open spec fn selection(s: Seq<MassCandidate>, observer_tier: i32) -> Seq<MassCandidate> {
    let t = sort_desc(kept_of(s));
    if t.len() > limit_for(observer_tier) {
        t.take(limit_for(observer_tier) as int)
    } else {
        t
    }
}

/// `t` is ordered by decreasing key.
pub open spec fn sorted_desc(t: Seq<MassCandidate>) -> bool {
    forall|i: int, j: int| 0 <= i < j < t.len() ==> t[i].gm_key >= t[j].gm_key
}

/// The number of masses streamed for an observer tier.
pub fn mass_limit(observer_tier: i32) -> (n: usize)
    ensures
        n == limit_for(observer_tier),
{
    if observer_tier > 0 {
        OBSERVER_MASS_LIMIT
    } else {
        BASE_MASS_LIMIT
    }
}

/// Whether a body is streamed at all: not beyond the radius of influence, or the Sun.
pub fn keeps(c: &MassCandidate) -> (b: bool)
    ensures
        b == is_kept(*c),
        !c.beyond_reach ==> b,
        c.id == SUN_ID ==> b,
        c.beyond_reach && c.id != SUN_ID ==> !b,
{
    !(c.beyond_reach && c.id != SUN_ID)
}

/// Places `c` after every body of `out` whose key is at least that of `c`.
fn insert_by_gm(out: &mut Vec<MassCandidate>, c: MassCandidate)
    ensures
        final(out)@ == insert_desc(old(out)@, c),
{
    let mut j: usize = 0;
    while j < out.len() && out[j].gm_key >= c.gm_key
        invariant
            j <= out@.len(),
            out@ == old(out)@,
            first_below_from(out@, c.gm_key, 0) == first_below_from(out@, c.gm_key, j as int),
        decreases out@.len() - j,
    {
        j = j + 1;
    }
    out.insert(j, c);
}

/// The candidates stably sorted by decreasing key.
pub fn sort_by_gm_desc(v: &Vec<MassCandidate>) -> (out: Vec<MassCandidate>)
    ensures
        out@ == sort_desc(v@),
{
    let mut out: Vec<MassCandidate> = Vec::new();
    for i in 0..v.len()
        invariant
            out@ == sort_desc(v@.take(i as int)),
    {
        assert(v@.take(i + 1).drop_last() =~= v@.take(i as int));
        insert_by_gm(&mut out, v[i]);
    }
    assert(v@.take(v@.len() as int) =~= v@);
    out
}

/// The kept candidates, in order.
pub fn kept_candidates(v: &Vec<MassCandidate>) -> (out: Vec<MassCandidate>)
    ensures
        out@ == kept_of(v@),
{
    let mut out: Vec<MassCandidate> = Vec::new();
    for i in 0..v.len()
        invariant
            out@ == kept_of(v@.take(i as int)),
    {
        proof {
            v@.take(i as int).lemma_filter_push(v@[i as int], |c: MassCandidate| is_kept(c));
            assert(v@.take(i as int).push(v@[i as int]) =~= v@.take(i + 1));
        }
        if keeps(&v[i]) {
            out.push(v[i]);
        }
    }
    assert(v@.take(v@.len() as int) =~= v@);
    out
}

/// The bodies to stream: the kept candidates, by decreasing key (stable), cut
/// to the limit of the observer tier.
pub fn select_masses(candidates: &Vec<MassCandidate>, observer_tier: i32) -> (out: Vec<MassCandidate>)
    ensures
        out@ == selection(candidates@, observer_tier),
{
    let kept = kept_candidates(candidates);
    let mut out = sort_by_gm_desc(&kept);
    let limit = mass_limit(observer_tier);
    out.truncate(limit);
    out
}

proof fn lemma_first_below(t: Seq<MassCandidate>, key: u64, j: int)
    requires
        0 <= j <= t.len(),
    ensures
        j <= first_below_from(t, key, j) <= t.len(),
        forall|k: int| j <= k < first_below_from(t, key, j) ==> t[k].gm_key >= key,
        first_below_from(t, key, j) < t.len() ==> t[first_below_from(t, key, j)].gm_key < key,
    decreases t.len() - j,
{
    if j < t.len() && t[j].gm_key >= key {
        lemma_first_below(t, key, j + 1);
    }
}

proof fn lemma_insert_desc_sorted(t: Seq<MassCandidate>, c: MassCandidate)
    requires
        sorted_desc(t),
    ensures
        sorted_desc(insert_desc(t, c)),
{
    let p = first_below_from(t, c.gm_key, 0);
    lemma_first_below(t, c.gm_key, 0);
    t.insert_ensures(p, c);
    let u = insert_desc(t, c);
    assert forall|i: int, j: int| 0 <= i < j < u.len() implies u[i].gm_key >= u[j].gm_key by {
        if j < p {
            assert(u[i] == t[i] && u[j] == t[j]);
        } else if j == p {
            assert(u[i] == t[i]);
        } else if i < p {
            assert(u[i] == t[i]);
            assert(u[j] == t[j - 1]);
            assert(t[p].gm_key < c.gm_key);
            assert(t[i].gm_key >= c.gm_key);
        } else if i == p {
            assert(u[j] == t[j - 1]);
            assert(t[p].gm_key >= t[j - 1].gm_key);
        } else {
            assert(u[i] == t[i - 1] && u[j] == t[j - 1]);
        }
    }
}

/// Sorting by decreasing key leaves the bodies ordered by decreasing key.
pub proof fn lemma_sort_desc_sorted(s: Seq<MassCandidate>)
    ensures
        sorted_desc(sort_desc(s)),
    decreases s.len(),
{
    if s.len() > 0 {
        lemma_sort_desc_sorted(s.drop_last());
        lemma_insert_desc_sorted(sort_desc(s.drop_last()), s.last());
    }
}

/// Sorting by decreasing key keeps every body, as often as it occurs: the
/// sorted sequence is a permutation of the candidates.
pub proof fn lemma_sort_desc_permutes(s: Seq<MassCandidate>)
    ensures
        sort_desc(s).to_multiset() == s.to_multiset(),
        sort_desc(s).len() == s.len(),
    decreases s.len(),
{
    broadcast use vstd::seq_lib::group_to_multiset_ensures;

    if s.len() > 0 {
        let t = sort_desc(s.drop_last());
        lemma_sort_desc_permutes(s.drop_last());
        lemma_first_below(t, s.last().gm_key, 0);
        vstd::seq_lib::to_multiset_insert(t, first_below_from(t, s.last().gm_key, 0), s.last());
        assert(s.drop_last().push(s.last()) =~= s);
        t.insert_ensures(first_below_from(t, s.last().gm_key, 0), s.last());
    }
}

/// What is streamed is the front of the kept bodies sorted by decreasing key:
/// no more than the limit of the tier, every one kept, in decreasing order of
/// key, each at least as heavy as every kept body left out; and when the kept
/// bodies fit within the limit, all of them are streamed.
pub proof fn lemma_selection_is_heaviest(s: Seq<MassCandidate>, observer_tier: i32)
    ensures
        ({
            let sel = selection(s, observer_tier);
            let all = sort_desc(kept_of(s));
            &&& sel.len() <= limit_for(observer_tier)
            &&& sel == all.take(sel.len() as int)
            &&& sorted_desc(sel)
            &&& forall|i: int| 0 <= i < sel.len() ==> is_kept(#[trigger] sel[i])
            &&& forall|i: int, j: int|
                0 <= i < sel.len() <= j < all.len() ==> sel[i].gm_key >= all[j].gm_key
            &&& kept_of(s).len() <= limit_for(observer_tier) ==> sel.to_multiset()
                == kept_of(s).to_multiset()
        }),
{
    let kept = kept_of(s);
    let all = sort_desc(kept);
    let sel = selection(s, observer_tier);
    lemma_sort_desc_sorted(kept);
    lemma_sort_desc_permutes(kept);
    assert(sel =~= all.take(sel.len() as int));
    assert forall|i: int| 0 <= i < sel.len() implies is_kept(#[trigger] sel[i]) by {
        broadcast use vstd::seq_lib::group_to_multiset_ensures;

        assert(all.contains(all[i]));
        assert(all.to_multiset().count(all[i]) > 0);
        assert(kept.contains(all[i]));
        let k = choose|k: int| 0 <= k < kept.len() && kept[k] == all[i];
        s.lemma_filter_pred(|c: MassCandidate| is_kept(c), k);
    }
}

/// Bodies already in decreasing order of key are left as they are: among equal
/// keys the order is kept, and sorting twice gives what sorting once gives.
pub proof fn lemma_sort_desc_keeps_sorted(s: Seq<MassCandidate>)
    ensures
        sorted_desc(s) ==> sort_desc(s) == s,
        sort_desc(sort_desc(s)) == sort_desc(s),
{
    if sorted_desc(s) {
        lemma_sort_desc_keeps_sorted_once(s);
    }
    lemma_sort_desc_sorted(s);
    lemma_sort_desc_keeps_sorted_once(sort_desc(s));
}

proof fn lemma_sort_desc_keeps_sorted_once(t: Seq<MassCandidate>)
    requires
        sorted_desc(t),
    ensures
        sort_desc(t) == t,
    decreases t.len(),
{
    if t.len() > 0 {
        let d = t.drop_last();
        assert(sorted_desc(d));
        lemma_sort_desc_keeps_sorted_once(d);
        lemma_first_below(d, t.last().gm_key, 0);
        let p = first_below_from(d, t.last().gm_key, 0);
        if p < d.len() {
            assert(d[p] == t[p]);
        }
        assert(d.insert(p, t.last()) =~= t);
    }
}

/// `t2` is at least as long as `t1`, and at each rank of `t1` the body of `t2`
/// has a key at least as large.
pub open spec fn outranked_by(t1: Seq<MassCandidate>, t2: Seq<MassCandidate>) -> bool {
    &&& t1.len() <= t2.len()
    &&& forall|i: int| 0 <= i < t1.len() ==> t2[i].gm_key >= #[trigger] t1[i].gm_key
}

proof fn lemma_insert_both_outranked(
    t1: Seq<MassCandidate>,
    t2: Seq<MassCandidate>,
    c1: MassCandidate,
    c2: MassCandidate,
)
    requires
        sorted_desc(t1),
        sorted_desc(t2),
        outranked_by(t1, t2),
        c1.gm_key == c2.gm_key,
    ensures
        outranked_by(insert_desc(t1, c1), insert_desc(t2, c2)),
{
    let key = c1.gm_key;
    let p1 = first_below_from(t1, key, 0);
    let p2 = first_below_from(t2, key, 0);
    lemma_first_below(t1, key, 0);
    lemma_first_below(t2, key, 0);
    t1.insert_ensures(p1, c1);
    t2.insert_ensures(p2, c2);
    if p2 < p1 {
        assert(t1[p2].gm_key >= key);
        assert(t2[p2].gm_key >= t1[p2].gm_key);
    }
    let u1 = insert_desc(t1, c1);
    let u2 = insert_desc(t2, c2);
    assert forall|i: int| 0 <= i < u1.len() implies u2[i].gm_key >= #[trigger] u1[i].gm_key by {
        if i < p1 {
            assert(u1[i] == t1[i]);
            assert(u2[i] == t2[i]);
        } else if i == p1 {
            if i < p2 {
                assert(u2[i] == t2[i]);
            }
        } else {
            assert(u1[i] == t1[i - 1]);
            assert(t1[i - 1].gm_key <= t1[p1].gm_key);
            if i < p2 {
                assert(u2[i] == t2[i]);
            } else if i > p2 {
                assert(u2[i] == t2[i - 1]);
                assert(t2[i - 1].gm_key >= t1[i - 1].gm_key);
            }
        }
    }
}

proof fn lemma_insert_right_outranked(t1: Seq<MassCandidate>, t2: Seq<MassCandidate>, c: MassCandidate)
    requires
        sorted_desc(t2),
        outranked_by(t1, t2),
    ensures
        outranked_by(t1, insert_desc(t2, c)),
{
    let p = first_below_from(t2, c.gm_key, 0);
    lemma_first_below(t2, c.gm_key, 0);
    t2.insert_ensures(p, c);
    let u = insert_desc(t2, c);
    assert forall|i: int| 0 <= i < t1.len() implies u[i].gm_key >= #[trigger] t1[i].gm_key by {
        if i < p {
            assert(u[i] == t2[i]);
        } else if i == p {
            assert(t2[p].gm_key >= t1[p].gm_key);
        } else {
            assert(u[i] == t2[i - 1]);
            assert(t2[i - 1].gm_key >= t2[i].gm_key);
            assert(t2[i].gm_key >= t1[i].gm_key);
        }
    }
}

proof fn lemma_kept_sorted_outranked(cs1: Seq<MassCandidate>, cs2: Seq<MassCandidate>)
    requires
        cs1.len() == cs2.len(),
        forall|i: int|
            0 <= i < cs1.len() ==> (#[trigger] cs1[i]).gm_key == cs2[i].gm_key && (is_kept(cs1[i])
                ==> is_kept(cs2[i])),
    ensures
        outranked_by(sort_desc(kept_of(cs1)), sort_desc(kept_of(cs2))),
    decreases cs1.len(),
{
    if cs1.len() > 0 {
        let d1 = cs1.drop_last();
        let d2 = cs2.drop_last();
        let l1 = cs1.last();
        let l2 = cs2.last();
        assert forall|i: int| 0 <= i < d1.len() implies (#[trigger] d1[i]).gm_key == d2[i].gm_key
            && (is_kept(d1[i]) ==> is_kept(d2[i])) by {
            assert(d1[i] == cs1[i] && d2[i] == cs2[i]);
        }
        lemma_kept_sorted_outranked(d1, d2);
        d1.lemma_filter_push(l1, |c: MassCandidate| is_kept(c));
        d2.lemma_filter_push(l2, |c: MassCandidate| is_kept(c));
        assert(d1.push(l1) =~= cs1);
        assert(d2.push(l2) =~= cs2);
        let k1 = kept_of(d1);
        let k2 = kept_of(d2);
        lemma_sort_desc_sorted(k1);
        lemma_sort_desc_sorted(k2);
        if is_kept(l1) {
            assert(k1.push(l1).drop_last() =~= k1);
            assert(k2.push(l2).drop_last() =~= k2);
            lemma_insert_both_outranked(sort_desc(k1), sort_desc(k2), l1, l2);
        } else if is_kept(l2) {
            assert(k2.push(l2).drop_last() =~= k2);
            lemma_insert_right_outranked(sort_desc(k1), sort_desc(k2), l2);
        }
    }
}

/// Keeping more candidates never shrinks what is streamed nor lowers a rank:
/// when the same bodies, with the same keys, are offered twice and every body
/// kept the first time is kept the second time (as when the view widens), the
/// second selection is at least as long, and its body at each rank of the
/// first is at least as heavy.
pub proof fn lemma_selection_grows_with_kept(
    cs1: Seq<MassCandidate>,
    cs2: Seq<MassCandidate>,
    observer_tier: i32,
)
    requires
        cs1.len() == cs2.len(),
        forall|i: int|
            0 <= i < cs1.len() ==> (#[trigger] cs1[i]).gm_key == cs2[i].gm_key && (is_kept(cs1[i])
                ==> is_kept(cs2[i])),
    ensures
        outranked_by(selection(cs1, observer_tier), selection(cs2, observer_tier)),
{
    lemma_kept_sorted_outranked(cs1, cs2);
}

/// Which bodies are kept, in terms of the body alone: every body inside the
/// radius of influence, the Sun wherever it is, and no other body beyond it.
pub proof fn lemma_kept_bodies(c: MassCandidate)
    ensures
        !c.beyond_reach ==> is_kept(c),
        c.id == SUN_ID ==> is_kept(c),
        c.beyond_reach && c.id != SUN_ID ==> !is_kept(c),
{
}

/// What is streamed, in terms of the candidates alone: no streamed body lies
/// beyond the radius of influence unless it is the Sun; every streamed body
/// is one of the candidates; the bodies come heaviest first; at most 15 bodies
/// go to a higher tier and 5 to the others; and when the candidates fit
/// within that limit, every body inside the radius of influence and the Sun
/// are streamed.
pub proof fn lemma_streamed_bodies(s: Seq<MassCandidate>, observer_tier: i32)
    ensures
        ({
            let sel = selection(s, observer_tier);
            let limit: int = if observer_tier > 0 { 15 } else { 5 };
            &&& sel.len() <= limit
            &&& forall|i: int|
                0 <= i < sel.len() ==> !(#[trigger] sel[i]).beyond_reach || sel[i].id == SUN_ID
            &&& forall|i: int| 0 <= i < sel.len() ==> s.contains(#[trigger] sel[i])
            &&& forall|i: int, j: int| 0 <= i < j < sel.len() ==> sel[i].gm_key >= sel[j].gm_key
            &&& s.len() <= limit ==> forall|i: int|
                0 <= i < s.len() && (!s[i].beyond_reach || s[i].id == SUN_ID) ==> sel.contains(
                    #[trigger] s[i],
                )
        }),
{
    broadcast use vstd::seq_lib::group_to_multiset_ensures;

    let kept = kept_of(s);
    let all = sort_desc(kept);
    let sel = selection(s, observer_tier);
    let pred = |c: MassCandidate| is_kept(c);
    lemma_selection_is_heaviest(s, observer_tier);
    lemma_sort_desc_permutes(kept);
    s.lemma_filter_len(pred);
    assert forall|i: int| 0 <= i < sel.len() implies s.contains(#[trigger] sel[i]) by {
        assert(sel[i] == all[i]);
        assert(all.contains(all[i]));
        assert(all.to_multiset().count(all[i]) > 0);
        assert(kept.contains(all[i]));
        s.lemma_filter_contains_rev(pred, all[i]);
    }
    if s.len() <= (if observer_tier > 0 { 15int } else { 5int }) {
        assert(sel == all);
        assert forall|i: int|
            0 <= i < s.len() && (!s[i].beyond_reach || s[i].id == SUN_ID) implies sel.contains(
            #[trigger] s[i],
        ) by {
            s.lemma_filter_contains(pred, i);
            assert(kept.to_multiset().count(s[i]) > 0);
            assert(all.to_multiset().count(s[i]) > 0);
        }
    }
}

} // verus!
