//! The choices made when setting up presentation: queue families, the
//! physical device, the surface format, the swapchain extent and image count,
//! and the window size of a question.
use vstd::prelude::*;

verus! {

/// Queue family indices.
#[derive(Clone, Copy, Debug)]
pub struct QueueFamilies {
    /// Graphics queue family.
    pub graphics: u32,
    /// Presentation queue family.
    pub present: u32,
}

/// What was learnt of one queue family: whether it has graphics queues, and
/// whether it can present to the surface (`None` when that query failed).
#[derive(Clone, Copy, Debug)]
pub struct FamilyProbe {
    pub graphics: bool,
    pub present: Option<bool>,
}

pub open spec fn has_graphics(p: FamilyProbe) -> bool {
    p.graphics
}

pub open spec fn can_present(p: FamilyProbe) -> bool {
    p.present == Some(true)
}

pub open spec fn query_failed(p: FamilyProbe) -> bool {
    p.present is None
}

/// Whether family `p` has the capability asked for: graphics queues
/// (`present == false`) or presentation (`present == true`).
pub open spec fn capable(p: FamilyProbe, present: bool) -> bool {
    if present {
        can_present(p)
    } else {
        has_graphics(p)
    }
}

/// The last family index with the capability.
pub open spec fn last_capable(ps: Seq<FamilyProbe>, present: bool) -> Option<int>
    decreases ps.len(),
{
    if ps.len() == 0 {
        None
    } else if capable(ps.last(), present) {
        Some(ps.len() - 1)
    } else {
        last_capable(ps.drop_last(), present)
    }
}

/// The families to use: the last one with graphics queues and the last one
/// that can present; none when a presentation query failed or either is
/// missing.
pub open spec fn spec_queue_families(ps: Seq<FamilyProbe>) -> Option<(int, int)> {
    if exists|k: int| 0 <= k < ps.len() && query_failed(#[trigger] ps[k]) {
        None
    } else {
        match (last_capable(ps, false), last_capable(ps, true)) {
            (Some(g), Some(p)) => Some((g, p)),
            _ => None,
        }
    }
}

proof fn lemma_last_capable(ps: Seq<FamilyProbe>, present: bool)
    ensures
        last_capable(ps, present) matches Some(k) ==> 0 <= k < ps.len() && capable(ps[k], present)
            && forall|j: int| k < j < ps.len() ==> !capable(#[trigger] ps[j], present),
        last_capable(ps, present) is None ==> forall|j: int|
            0 <= j < ps.len() ==> !capable(#[trigger] ps[j], present),
    decreases ps.len(),
{
    if ps.len() > 0 && !capable(ps.last(), present) {
        lemma_last_capable(ps.drop_last(), present);
        assert forall|j: int| 0 <= j < ps.len() - 1 implies ps[j] == ps.drop_last()[j] by {}
    }
}

/// The chosen graphics family is the last one with graphics queues, the chosen
/// presentation family the last one that can present, and every query
/// succeeded; when none is chosen, a query failed or one capability is
/// missing everywhere.
pub proof fn lemma_queue_families(ps: Seq<FamilyProbe>)
    ensures
        spec_queue_families(ps) matches Some((g, p)) ==> {
            &&& 0 <= g < ps.len() && ps[g].graphics
            &&& forall|j: int| g < j < ps.len() ==> !(#[trigger] ps[j]).graphics
            &&& 0 <= p < ps.len() && ps[p].present == Some(true)
            &&& forall|j: int| p < j < ps.len() ==> (#[trigger] ps[j]).present != Some(true)
            &&& forall|j: int| 0 <= j < ps.len() ==> (#[trigger] ps[j]).present is Some
        },
        spec_queue_families(ps) is None ==> {
            ||| exists|k: int| 0 <= k < ps.len() && (#[trigger] ps[k]).present is None
            ||| forall|j: int| 0 <= j < ps.len() ==> !(#[trigger] ps[j]).graphics
            ||| forall|j: int| 0 <= j < ps.len() ==> (#[trigger] ps[j]).present != Some(true)
        },
{
    lemma_last_capable(ps, false);
    lemma_last_capable(ps, true);
    if let Some((g, p)) = spec_queue_families(ps) {
        assert forall|j: int| g < j < ps.len() implies !(#[trigger] ps[j]).graphics by {
            assert(!capable(ps[j], false));
        }
        assert forall|j: int| p < j < ps.len() implies (#[trigger] ps[j]).present != Some(true) by {
            assert(!capable(ps[j], true));
        }
        assert forall|j: int| 0 <= j < ps.len() implies (#[trigger] ps[j]).present is Some by {
            assert(!query_failed(ps[j]));
        }
    } else {
        if !(exists|k: int| 0 <= k < ps.len() && (#[trigger] ps[k]).present is None) {
            assert(!exists|k: int| 0 <= k < ps.len() && query_failed(#[trigger] ps[k]));
            if last_capable(ps, false) is None {
                assert forall|j: int| 0 <= j < ps.len() implies !(#[trigger] ps[j]).graphics by {
                    assert(!capable(ps[j], false));
                }
            } else {
                assert forall|j: int| 0 <= j < ps.len() implies (#[trigger] ps[j]).present != Some(true) by {
                    assert(!capable(ps[j], true));
                }
            }
        }
    }
}

/// Picks the graphics and presentation families from the probes.
pub fn find_queue_families(probes: &Vec<FamilyProbe>) -> (r: Option<QueueFamilies>)
    requires
        probes.len() <= u32::MAX,
    ensures
        match r {
            Some(q) => spec_queue_families(probes@) == Some((q.graphics as int, q.present as int)),
            None => spec_queue_families(probes@) is None,
        },
{
    let mut graphics: Option<u32> = None;
    let mut present: Option<u32> = None;
    let mut i: usize = 0;
    while i < probes.len()
        invariant
            i <= probes.len() <= u32::MAX,
            forall|k: int| 0 <= k < i ==> !query_failed(#[trigger] probes@[k]),
            opt_u32(graphics) == last_capable(probes@.take(i as int), false),
            opt_u32(present) == last_capable(probes@.take(i as int), true),
        decreases probes.len() - i,
    {
        let p = probes[i];
        assert(probes@.take(i + 1).drop_last() =~= probes@.take(i as int));
        assert(probes@.take(i + 1).last() == p);
        if p.graphics {
            graphics = Some(i as u32);
        }
        match p.present {
            None => {
                assert(query_failed(probes@[i as int]));
                return None;
            },
            Some(true) => {
                present = Some(i as u32);
            },
            Some(false) => {},
        }
        i = i + 1;
    }
    assert(probes@.take(probes.len() as int) =~= probes@);
    match (graphics, present) {
        (Some(g), Some(p)) => Some(QueueFamilies { graphics: g, present: p }),
        _ => None,
    }
}

pub open spec fn opt_u32(o: Option<u32>) -> Option<int> {
    match o {
        Some(v) => Some(v as int),
        None => None,
    }
}

/// The first device for which queue families were found, with its index.
pub fn choose_device(candidates: &Vec<Option<QueueFamilies>>) -> (r: Option<(usize, QueueFamilies)>)
    ensures
        match r {
            Some((k, q)) => k < candidates.len() && candidates@[k as int] == Some(q) && forall|j: int|
                0 <= j < k ==> (#[trigger] candidates@[j]) is None,
            None => forall|j: int| 0 <= j < candidates.len() ==> (#[trigger] candidates@[j]) is None,
        },
{
    let mut k: usize = 0;
    while k < candidates.len()
        invariant
            k <= candidates.len(),
            forall|j: int| 0 <= j < k ==> (#[trigger] candidates@[j]) is None,
        decreases candidates.len() - k,
    {
        if let Some(q) = candidates[k] {
            return Some((k, q));
        }
        k = k + 1;
    }
    None
}

/// `VK_FORMAT_B8G8R8A8_SRGB`.
pub const PREFERRED_FORMAT: i32 = 50;

/// `VK_COLOR_SPACE_SRGB_NONLINEAR_KHR`.
pub const PREFERRED_COLOR_SPACE: i32 = 0;

/// The surface format to use among `(format, color space)` pairs: the first
/// sRGB BGRA8 one with the sRGB non-linear colour space, else the first.
pub fn choose_surface_format(formats: &Vec<(i32, i32)>) -> (r: usize)
    requires
        formats.len() > 0,
    ensures
        r < formats.len(),
        (exists|k: int| 0 <= k < formats.len() && #[trigger] formats@[k] == (PREFERRED_FORMAT, PREFERRED_COLOR_SPACE))
            ==> formats@[r as int] == (PREFERRED_FORMAT, PREFERRED_COLOR_SPACE)
            && forall|j: int| 0 <= j < r ==> #[trigger] formats@[j] != (PREFERRED_FORMAT, PREFERRED_COLOR_SPACE),
        !(exists|k: int| 0 <= k < formats.len() && #[trigger] formats@[k] == (PREFERRED_FORMAT, PREFERRED_COLOR_SPACE))
            ==> r == 0,
{
    let mut k: usize = 0;
    while k < formats.len()
        invariant
            k <= formats.len(),
            forall|j: int| 0 <= j < k ==> #[trigger] formats@[j] != (PREFERRED_FORMAT, PREFERRED_COLOR_SPACE),
        decreases formats.len() - k,
    {
        let (f, cs) = formats[k];
        if f == PREFERRED_FORMAT && cs == PREFERRED_COLOR_SPACE {
            return k;
        }
        k = k + 1;
    }
    0
}

/// `value` clamped to `[min, max]`.
pub fn clamp_extent(value: u32, min: u32, max: u32) -> (r: u32)
    requires
        min <= max,
    ensures
        r == if value < min {
            min
        } else if value > max {
            max
        } else {
            value
        },
{
    if value < min {
        min
    } else if value > max {
        max
    } else {
        value
    }
}

/// How many swapchain images to ask for: one more than the minimum, capped by
/// the maximum when there is one (a maximum of 0 means no limit).
pub fn swapchain_image_count(min_count: u32, max_count: u32) -> (r: u32)
    requires
        min_count < u32::MAX,
    ensures
        r == if max_count > 0 && max_count < min_count + 1 {
            max_count
        } else {
            (min_count + 1) as u32
        },
{
    let cap = if max_count > 0 {
        max_count
    } else {
        u32::MAX
    };
    if min_count + 1 < cap {
        min_count + 1
    } else {
        cap
    }
}

/// Number of frames rendered ahead.
pub const MAX_FRAMES_IN_FLIGHT: usize = 2;

/// The frame slot after `slot`.
pub fn next_frame_slot(slot: usize) -> (r: usize)
    requires
        slot < MAX_FRAMES_IN_FLIGHT,
    ensures
        r == (slot + 1) % (MAX_FRAMES_IN_FLIGHT as int),
        r < MAX_FRAMES_IN_FLIGHT,
{
    (slot + 1) % MAX_FRAMES_IN_FLIGHT
}

/// A window dimension from a question's size: at least 1, as a `u32`
/// (truncated as `as u32` does).
pub fn window_dimension(size: usize) -> (r: u32)
    ensures
        r == (if size == 0 {
            1
        } else {
            size
        }) as u32,
{
    let s = if size == 0 {
        1
    } else {
        size
    };
    s as u32
}

} // verus!
