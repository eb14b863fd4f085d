use vstd::prelude::*;

verus! {

#[verifier::external_type_specification]
#[verifier::external_body]
pub struct ExAlmanac(anise::almanac::Almanac);

/// Bodies are probed by NAIF identifier from zero up to this bound (excluded).
pub const BODY_ID_BOUND: i32 = 1000;

/// The indices whose flag is set, in increasing order.
pub open spec fn ids_where(flags: Seq<bool>) -> Seq<i32>
    decreases flags.len(),
{
    if flags.len() == 0 {
        Seq::empty()
    } else if flags.last() {
        ids_where(flags.drop_last()).push((flags.len() - 1) as i32)
    } else {
        ids_where(flags.drop_last())
    }
}

/// `ids` is strictly increasing and every identifier in it is below `bound` and
/// not negative.
pub open spec fn increasing_below(ids: Seq<i32>, bound: int) -> bool {
    &&& forall|i: int| 0 <= i < ids.len() ==> 0 <= #[trigger] ids[i] < bound
    &&& forall|i: int, j: int| 0 <= i < j < ids.len() ==> ids[i] < ids[j]
}

/// The NAIF identifiers of the bodies whose frame, in what `almanac` holds,
/// carries a gravity parameter (`mu_km3_s2`).
pub uninterp spec fn gravity_frame_ids(almanac: anise::almanac::Almanac) -> Set<i32>;

/// For each identifier below `BODY_ID_BOUND`, whether the almanac holds a
/// gravity parameter for that body.
pub open spec fn gravity_flags(almanac: anise::almanac::Almanac) -> Seq<bool> {
    Seq::new(BODY_ID_BOUND as nat, |i: int| gravity_frame_ids(almanac).contains(i as i32))
}

/// Calls `anise::almanac::Almanac::frame_info` on the J2000 frame centred on
/// body `id` (built by `anise::frames::Frame::from_ephem_j2000`) and says
/// whether a frame was found and holds a gravity parameter (`mu_km3_s2`).
/// `frame_info` looks the identifier up in the planetary data that the almanac
/// holds, so the answer depends on the almanac and `id` alone; which bodies
/// those are is named, not stated, since the data was read from files.
#[verifier::external_body]
fn frame_has_gravity(almanac: &anise::almanac::Almanac, id: i32) -> (r: bool)
    ensures
        r == gravity_frame_ids(*almanac).contains(id),
{
    almanac.frame_info(anise::frames::Frame::from_ephem_j2000(id)).ok().and_then(|f| f.mu_km3_s2).is_some()
}

/// The identifiers whose flag is set, in increasing order.
pub fn ids_with_flag(flags: &[bool]) -> (ids: Vec<i32>)
    requires
        flags@.len() <= i32::MAX,
    ensures
        ids@ == ids_where(flags@),
{
    let mut ids: Vec<i32> = Vec::new();
    for i in 0..flags.len()
        invariant
            flags@.len() <= i32::MAX,
            ids@ == ids_where(flags@.take(i as int)),
    {
        assert(flags@.take(i + 1).drop_last() =~= flags@.take(i as int));
        if flags[i] {
            ids.push(i as i32);
        }
    }
    assert(flags@.take(flags@.len() as int) =~= flags@);
    ids
}

/// The set flags of `flags` are named in increasing order, each once, and each
/// names a position of `flags`.
pub proof fn lemma_ids_where_increasing(flags: Seq<bool>)
    requires
        flags.len() <= i32::MAX,
    ensures
        increasing_below(ids_where(flags), flags.len() as int),
        forall|i: int| 0 <= i < ids_where(flags).len() ==> flags[#[trigger] ids_where(flags)[i] as int],
    decreases flags.len(),
{
    if flags.len() > 0 {
        lemma_ids_where_increasing(flags.drop_last());
    }
}

/// An identifier is named exactly when it is a position of `flags` whose flag is set.
pub proof fn lemma_ids_where_members(flags: Seq<bool>)
    requires
        flags.len() <= i32::MAX,
    ensures
        forall|id: i32|
            0 <= id < flags.len() ==> (ids_where(flags).contains(id) <==> flags[id as int]),
    decreases flags.len(),
{
    if flags.len() > 0 {
        let d = flags.drop_last();
        lemma_ids_where_members(d);
        lemma_ids_where_increasing(d);
        assert forall|id: i32| 0 <= id < flags.len() implies (ids_where(flags).contains(id)
            <==> flags[id as int]) by {
            if id < d.len() {
                assert(flags[id as int] == d[id as int]);
                if ids_where(flags).contains(id) && !ids_where(d).contains(id) {
                    let k = choose|k: int| 0 <= k < ids_where(flags).len() && ids_where(flags)[k] == id;
                    assert(k == ids_where(d).len());
                }
                if ids_where(d).contains(id) {
                    let k = choose|k: int| 0 <= k < ids_where(d).len() && ids_where(d)[k] == id;
                    if flags.last() {
                        assert(ids_where(flags)[k] == id);
                    }
                }
            } else {
                if flags.last() {
                    assert(ids_where(flags)[ids_where(d).len() as int] == id);
                } else if ids_where(d).contains(id) {
                    let k = choose|k: int| 0 <= k < ids_where(d).len() && ids_where(d)[k] == id;
                    assert(0 <= ids_where(d)[k] < d.len());
                }
            }
        }
    }
}

/// The bodies, among identifiers `0 .. BODY_ID_BOUND`, for which the almanac
/// holds a frame with a gravity parameter, in increasing order.
pub fn gravity_body_ids(almanac: &anise::almanac::Almanac) -> (ids: Vec<i32>)
    ensures
        ids@ == ids_where(gravity_flags(*almanac)),
        increasing_below(ids@, BODY_ID_BOUND as int),
        forall|id: i32|
            0 <= id < BODY_ID_BOUND ==> (ids@.contains(id) <==> gravity_frame_ids(
                *almanac,
            ).contains(id)),
{
    let mut flags: Vec<bool> = Vec::new();
    let mut id: i32 = 0;
    while id < BODY_ID_BOUND
        invariant
            0 <= id <= BODY_ID_BOUND,
            flags@.len() == id,
            flags@ == gravity_flags(*almanac).take(id as int),
        decreases BODY_ID_BOUND - id,
    {
        flags.push(frame_has_gravity(almanac, id));
        assert(flags@ =~= gravity_flags(*almanac).take(id + 1));
        id = id + 1;
    }
    proof {
        assert(flags@ =~= gravity_flags(*almanac));
        lemma_ids_where_increasing(flags@);
        lemma_ids_where_members(flags@);
    }
    let ids = ids_with_flag(flags.as_slice());
    proof {
        assert forall|id: i32| 0 <= id < BODY_ID_BOUND implies (ids@.contains(id)
            <==> gravity_frame_ids(*almanac).contains(id)) by {
            assert(flags@[id as int] == gravity_frame_ids(*almanac).contains(id));
        }
    }
    ids
}

} // verus!
