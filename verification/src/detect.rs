//! Region extraction: threshold a probability surface, group the pixels
//! above threshold into connected components, and fit an expanded box to
//! each component large enough to pass the noise filter.

use vstd::prelude::*;

use vstd::arithmetic::div_mod::{lemma_fundamental_div_mod, lemma_fundamental_div_mod_converse};
use vstd::arithmetic::mul::lemma_mul_inequality;
use vstd::set_lib::{lemma_int_range, lemma_len_subset, set_int_range};

use crate::geom::{Rect, RotatedRect};
use crate::surface::ProbabilitySurface;

verus! {

/// Components with fewer pixels than this are discarded as noise.
pub const MIN_COMPONENT_AREA: usize = 3;

/// Denominator of the proportional expansion margin: each fitted box grows
/// by one eighth of its own extent on every side, to compensate for the
/// detection model's systematic under-prediction of box extents.
///
/// The margin must be additive and proportional to the rectangle's size;
/// its exact constant is a tuning choice to be confirmed against reference
/// outputs, and one eighth is this crate's choice. Reference outputs
/// produced with another constant will differ from these boxes by a few
/// pixels per side.
pub const EXPANSION_DENOM: i64 = 8;

/// Whether flat pixel index `i` of `s` is at or above `threshold`.
pub open spec fn pixel_on(s: ProbabilitySurface, threshold: u32, i: int) -> bool {
    0 <= i < s.data@.len() && s.data@[i] >= threshold
}

/// Whether flat pixel indices `i` and `j` are 4-neighbours in a row-major
/// grid of width `w`: side by side in one row, or directly above each other.
pub open spec fn pixels_adjacent(w: int, i: int, j: int) -> bool {
    ||| (j == i + 1 && (i + 1) % w != 0)
    ||| (i == j + 1 && (j + 1) % w != 0)
    ||| j == i + w
    ||| i == j + w
}

/// Whether `x` occurs in `s`.
pub open spec fn in_seq(s: Seq<usize>, x: int) -> bool {
    exists|k: int| 0 <= k < s.len() && s[k] == x
}

/// Whether `x` occurs in some component of `comps`.
pub open spec fn in_comps(comps: Seq<Seq<usize>>, x: int) -> bool {
    exists|c: int| 0 <= c < comps.len() && in_seq(#[trigger] comps[c], x)
}

/// Every pixel of every component is above threshold.
pub open spec fn comps_on(comps: Seq<Seq<usize>>, s: ProbabilitySurface, threshold: u32) -> bool {
    forall|c: int, k: int|
        0 <= c < comps.len() && 0 <= k < comps[c].len()
            ==> pixel_on(s, threshold, #[trigger] comps[c][k] as int)
}

/// No component is empty.
pub open spec fn comps_nonempty(comps: Seq<Seq<usize>>) -> bool {
    forall|c: int| 0 <= c < comps.len() ==> (#[trigger] comps[c]).len() > 0
}

/// Every pixel of the sequence except the first is adjacent to an earlier
/// one, so the pixel set of the sequence is 4-connected.
pub open spec fn seq_chained(w: int, comp: Seq<usize>) -> bool {
    forall|k: int|
        1 <= k < comp.len()
            ==> exists|k2: int|
                0 <= k2 < k && pixels_adjacent(w, comp[k2] as int, #[trigger] comp[k] as int)
}

/// Every component is 4-connected.
pub open spec fn comps_chained(w: int, comps: Seq<Seq<usize>>) -> bool {
    forall|c: int| 0 <= c < comps.len() ==> seq_chained(w, #[trigger] comps[c])
}

/// No pixel occurs twice, in one component or across two.
pub open spec fn comps_distinct(comps: Seq<Seq<usize>>) -> bool {
    forall|c1: int, k1: int, c2: int, k2: int|
        #![trigger comps[c1][k1], comps[c2][k2]]
        0 <= c1 < comps.len() && 0 <= k1 < comps[c1].len() && 0 <= c2 < comps.len() && 0 <= k2
            < comps[c2].len() && (c1 != c2 || k1 != k2) ==> comps[c1][k1] != comps[c2][k2]
}

/// Proof that a duplicate-free sequence of values below `n` has at most
/// `n` elements.
proof fn lemma_unique_bounded_len(s: Seq<usize>, n: int)
    requires
        0 <= n,
        forall|k: int| 0 <= k < s.len() ==> (#[trigger] s[k]) < n,
        forall|k1: int, k2: int| #![trigger s[k1], s[k2]] 0 <= k1 < k2 < s.len() ==> s[k1] != s[k2],
    ensures
        s.len() <= n,
{
    let t = s.map_values(|x: usize| x as int);
    assert(t.no_duplicates()) by {
        assert forall|k1: int, k2: int|
            0 <= k1 < t.len() && 0 <= k2 < t.len() && k1 != k2 implies t[k1] != t[k2] by {
            if k1 < k2 {
                assert(s[k1] != s[k2]);
            } else {
                assert(s[k2] != s[k1]);
            }
        }
    }
    t.unique_seq_to_set();
    assert(t.to_set().subset_of(set_int_range(0, n))) by {
        assert forall|x: int| t.to_set().contains(x) implies set_int_range(0, n).contains(x) by {
            let k = choose|k: int| 0 <= k < t.len() && t[k] == x;
            assert(s[k] < n);
        }
    }
    lemma_int_range(0, n);
    lemma_len_subset(t.to_set(), set_int_range(0, n));
}

/// Every component is maximal: a pixel above threshold adjacent to a
/// member of a component belongs to that same component.
pub open spec fn comps_max(
    comps: Seq<Seq<usize>>,
    s: ProbabilitySurface,
    threshold: u32,
) -> bool {
    forall|c: int, k: int, j: int|
        #![trigger comps[c][k], pixel_on(s, threshold, j)]
        0 <= c < comps.len() && 0 <= k < comps[c].len() && pixel_on(s, threshold, j)
            && pixels_adjacent(s.width as int, comps[c][k] as int, j) ==> in_seq(comps[c], j)
}

/// The components stand in row-major scan order: each component opens with
/// its smallest flat pixel index, and those indices increase from one
/// component to the next. This pins the discovery order, so equal surfaces
/// decompose in equal order.
pub open spec fn comps_in_scan_order(comps: Seq<Seq<usize>>) -> bool {
    &&& forall|c: int, k: int|
        #![trigger comps[c][k]]
        0 <= c < comps.len() && 0 <= k < comps[c].len() ==> comps[c][k] >= comps[c][0]
    &&& forall|c1: int, c2: int|
        #![trigger comps[c1][0], comps[c2][0]]
        0 <= c1 < c2 < comps.len() ==> comps[c1][0] < comps[c2][0]
}

/// The complete component decomposition of the thresholded surface: a
/// duplicate-free cover of the above-threshold pixels by nonempty,
/// 4-connected, maximal components, in row-major scan order.
pub open spec fn components_complete(
    comps: Seq<Seq<usize>>,
    s: ProbabilitySurface,
    threshold: u32,
) -> bool {
    &&& comps_nonempty(comps)
    &&& comps_on(comps, s, threshold)
    &&& comps_chained(s.width as int, comps)
    &&& comps_distinct(comps)
    &&& comps_max(comps, s, threshold)
    &&& comps_in_scan_order(comps)
    &&& forall|i: int| pixel_on(s, threshold, i) ==> in_comps(comps, i)
}

/// Whether `(minx, maxx)` and `(miny, maxy)` are the tight column and row
/// bounds of the pixels of `comp` in a grid of width `w`.
pub open spec fn tight_bounds(
    comp: Seq<usize>,
    w: int,
    minx: int,
    miny: int,
    maxx: int,
    maxy: int,
) -> bool {
    &&& forall|k: int|
        0 <= k < comp.len() ==> minx <= (#[trigger] comp[k]) as int % w <= maxx && miny <= comp[k]
            as int / w <= maxy
    &&& exists|k: int| 0 <= k < comp.len() && (#[trigger] comp[k]) as int % w == minx
    &&& exists|k: int| 0 <= k < comp.len() && (#[trigger] comp[k]) as int % w == maxx
    &&& exists|k: int| 0 <= k < comp.len() && (#[trigger] comp[k]) as int / w == miny
    &&& exists|k: int| 0 <= k < comp.len() && (#[trigger] comp[k]) as int / w == maxy
}

/// The box the extractor fits to a component with the given tight pixel
/// bounds: the pixel-edge bounding rectangle, expanded on each side by the
/// proportional margin.
pub open spec fn expanded_box(minx: int, miny: int, maxx: int, maxy: int) -> RotatedRect {
    let margin_x = (maxx + 1 - minx) / (EXPANSION_DENOM as int);
    let margin_y = (maxy + 1 - miny) / (EXPANSION_DENOM as int);
    let left = minx - margin_x;
    let right = maxx + 1 + margin_x;
    let top = miny - margin_y;
    let bottom = maxy + 1 + margin_y;
    RotatedRect {
        cx2: (left + right) as i64,
        cy2: (top + bottom) as i64,
        width: (right - left) as i64,
        height: (bottom - top) as i64,
        angle_urad: 0,
    }
}

/// Whether `r` is exactly the expanded fitted box of the component `comp`.
pub open spec fn region_is_expanded_fit(
    s: ProbabilitySurface,
    comp: Seq<usize>,
    r: RotatedRect,
) -> bool {
    exists|minx: int, miny: int, maxx: int, maxy: int|
        #![trigger expanded_box(minx, miny, maxx, maxy)]
        tight_bounds(comp, s.width as int, minx, miny, maxx, maxy) && r == expanded_box(
            minx,
            miny,
            maxx,
            maxy,
        )
}

/// Whether `regions` holds exactly one expanded fitted box per component
/// of `comps` that passes the noise filter, in component order.
pub open spec fn regions_match_components(
    s: ProbabilitySurface,
    comps: Seq<Seq<usize>>,
    regions: Seq<RotatedRect>,
) -> bool {
    exists|pick: Seq<int>|
        #![trigger pick.len()]
        {
            &&& pick.len() == regions.len()
            &&& forall|m: int| 0 <= m < pick.len() ==> 0 <= #[trigger] pick[m] < comps.len()
            &&& forall|m1: int, m2: int|
                #![trigger pick[m1], pick[m2]]
                0 <= m1 < m2 < pick.len() ==> pick[m1] < pick[m2]
            &&& forall|m: int|
                0 <= m < pick.len() ==> comps[#[trigger] pick[m]].len() >= MIN_COMPONENT_AREA
                    && region_is_expanded_fit(s, comps[pick[m]], regions[m])
            &&& forall|c: int|
                0 <= c < comps.len() && (#[trigger] comps[c]).len() >= MIN_COMPONENT_AREA
                    ==> exists|m: int| 0 <= m < pick.len() && pick[m] == c
        }
}

/// What region extraction returns: every region is a well-formed
/// axis-aligned box covering an above-threshold pixel, an all-blank
/// surface yields none, and the regions are exactly one expanded fitted
/// box per large-enough maximal component of the thresholded surface.
pub open spec fn detection_result_ok(
    s: ProbabilitySurface,
    threshold: u32,
    regions: Seq<RotatedRect>,
) -> bool {
    &&& forall|r: int|
        0 <= r < regions.len() ==> (#[trigger] regions[r]).wf() && regions[r].angle_urad == 0
    &&& forall|r: int|
        0 <= r < regions.len() ==> region_covers_on_pixel(s, threshold, #[trigger] regions[r])
    &&& ((forall|i: int| 0 <= i < s.data@.len() ==> !pixel_on(s, threshold, i)) ==> regions.len()
        == 0)
    &&& exists|comps: Seq<Seq<usize>>|
        #![trigger components_complete(comps, s, threshold)]
        components_complete(comps, s, threshold) && regions_match_components(s, comps, regions)
}

/// The working state of one flood fill: `visited` marks exactly the pixels
/// of the closed components `comps0` and of the component under
/// construction `cur`, which is a nonempty, chained, duplicate-free
/// sequence of above-threshold pixels disjoint from `comps0`.
pub open spec fn flood_inv(
    s: ProbabilitySurface,
    threshold: u32,
    visited: Seq<bool>,
    cur: Seq<usize>,
    comps0: Seq<Seq<usize>>,
) -> bool {
    &&& visited.len() == s.data@.len()
    &&& forall|i: int| 0 <= i < visited.len() && #[trigger] visited[i]
        ==> pixel_on(s, threshold, i)
    &&& forall|i: int| 0 <= i < visited.len()
        ==> (#[trigger] visited[i] <==> (in_comps(comps0, i) || in_seq(cur, i)))
    &&& 1 <= cur.len()
    &&& forall|k: int| 0 <= k < cur.len()
        ==> pixel_on(s, threshold, #[trigger] cur[k] as int)
    &&& seq_chained(s.width as int, cur)
    &&& forall|k1: int, k2: int|
        #![trigger cur[k1], cur[k2]]
        0 <= k1 < k2 < cur.len() ==> cur[k1] != cur[k2]
    &&& forall|k: int| 0 <= k < cur.len() ==> !in_comps(comps0, #[trigger] cur[k] as int)
}

/// Visit one neighbour `q` of the pixel `cur[qi]` during a flood fill: if
/// `q` is above threshold and not yet visited, mark it and append it to the
/// component under construction.
fn flood_visit(
    surface: &ProbabilitySurface,
    threshold: u32,
    visited: &mut Vec<bool>,
    cur: &mut Vec<usize>,
    qi: usize,
    q: usize,
    Ghost(comps0): Ghost<Seq<Seq<usize>>>,
    Ghost(lo): Ghost<int>,
)
    requires
        surface.wf(),
        qi < old(cur)@.len(),
        q < surface.data@.len(),
        pixels_adjacent(surface.width as int, old(cur)@[qi as int] as int, q as int),
        flood_inv(*surface, threshold, old(visited)@, old(cur)@, comps0),
        // Pixels before the scan front `lo` are already visited, so the
        // component under construction never reaches below it.
        forall|i: int|
            0 <= i < lo && pixel_on(*surface, threshold, i) ==> #[trigger] old(visited)@[i],
        forall|k: int| 0 <= k < old(cur)@.len() ==> old(cur)@[k] >= lo,
    ensures
        flood_inv(*surface, threshold, final(visited)@, final(cur)@, comps0),
        final(cur)@ == old(cur)@ || final(cur)@ == old(cur)@.push(q),
        old(cur)@.len() <= final(cur)@.len(),
        forall|k: int| 0 <= k < old(cur)@.len() ==> final(cur)@[k] == old(cur)@[k],
        forall|i: int|
            0 <= i < old(visited)@.len() && old(visited)@[i] ==> #[trigger] final(visited)@[i],
        final(visited)@.len() == old(visited)@.len(),
        pixel_on(*surface, threshold, q as int) ==> final(visited)@[q as int],
        forall|k: int| 0 <= k < final(cur)@.len() ==> final(cur)@[k] >= lo,
{
    if surface.data[q] >= threshold && !visited[q] {
        proof {
            // `q` is above threshold yet unvisited, so it lies at or past
            // the scan front.
            assert(pixel_on(*surface, threshold, q as int));
            assert(q >= lo);
        }
        proof {
            // Not visited, so not in a closed component nor already in `cur`.
            assert(!in_comps(comps0, q as int));
            assert(!in_seq(cur@, q as int));
        }
        let ghost prev = cur@;
        let ghost prev_visited = visited@;
        visited[q] = true;
        cur.push(q);
        proof {
            assert(cur@ == prev.push(q));
            assert(cur@[prev.len() as int] == q);
            assert(in_seq(cur@, q as int));
            // The flood invariant is restored piece by piece.
            assert forall|i: int| 0 <= i < visited@.len() implies (#[trigger] visited@[i] <==> (
            in_comps(comps0, i) || in_seq(cur@, i))) by {
                if i == q {
                } else {
                    assert(visited@[i] == prev_visited[i]);
                    if in_seq(cur@, i) {
                        let k = choose|k: int| 0 <= k < cur@.len() && cur@[k] == i;
                        assert(k < prev.len());
                        assert(prev[k] == i);
                        assert(in_seq(prev, i));
                    }
                    if in_seq(prev, i) {
                        let k = choose|k: int| 0 <= k < prev.len() && prev[k] == i;
                        assert(cur@[k] == i);
                        assert(in_seq(cur@, i));
                    }
                }
            }
            assert forall|k: int| 1 <= k < cur@.len() implies exists|k2: int|
                0 <= k2 < k && pixels_adjacent(
                    surface.width as int,
                    cur@[k2] as int,
                    #[trigger] cur@[k] as int,
                ) by {
                if k < prev.len() {
                    assert(prev[k] == cur@[k]);
                    let k2 = choose|k2: int|
                        0 <= k2 < k && pixels_adjacent(
                            surface.width as int,
                            prev[k2] as int,
                            prev[k] as int,
                        );
                    assert(pixels_adjacent(surface.width as int, cur@[k2] as int, cur@[k] as int));
                } else {
                    assert(cur@[qi as int] == prev[qi as int]);
                    assert(pixels_adjacent(surface.width as int, cur@[qi as int] as int, cur@[k] as int));
                }
            }
            assert forall|k1: int, k2: int|
                #![trigger cur@[k1], cur@[k2]]
                0 <= k1 < k2 < cur@.len() implies cur@[k1] != cur@[k2] by {
                if k2 == prev.len() {
                    assert(cur@[k1] == prev[k1]);
                    assert(in_seq(prev, prev[k1] as int));
                }
            }
            assert forall|k: int| 0 <= k < cur@.len() implies !in_comps(
                comps0,
                #[trigger] cur@[k] as int,
            ) by {
                if k < prev.len() {
                    assert(cur@[k] == prev[k]);
                }
            }
        }
    }
}

/// Process one pixel of the component under construction: visit its four
/// neighbours, marking and collecting every above-threshold one not yet
/// seen. Afterwards every above-threshold neighbour of the pixel is
/// visited.
fn flood_step(
    surface: &ProbabilitySurface,
    threshold: u32,
    visited: &mut Vec<bool>,
    cur: &mut Vec<usize>,
    qi: usize,
    Ghost(comps0): Ghost<Seq<Seq<usize>>>,
    Ghost(lo): Ghost<int>,
)
    requires
        surface.wf(),
        0 < surface.width,
        surface.data@.len() <= 0x4000_0000,
        qi < old(cur)@.len(),
        flood_inv(*surface, threshold, old(visited)@, old(cur)@, comps0),
        forall|i: int|
            0 <= i < lo && pixel_on(*surface, threshold, i) ==> #[trigger] old(visited)@[i],
        forall|k: int| 0 <= k < old(cur)@.len() ==> old(cur)@[k] >= lo,
    ensures
        flood_inv(*surface, threshold, final(visited)@, final(cur)@, comps0),
        old(cur)@.len() <= final(cur)@.len(),
        forall|k: int| 0 <= k < old(cur)@.len() ==> final(cur)@[k] == old(cur)@[k],
        forall|i: int|
            0 <= i < old(visited)@.len() && old(visited)@[i] ==> #[trigger] final(visited)@[i],
        final(visited)@.len() == old(visited)@.len(),
        forall|k: int| 0 <= k < final(cur)@.len() ==> final(cur)@[k] >= lo,
        forall|j: int|
            pixel_on(*surface, threshold, j) && pixels_adjacent(
                surface.width as int,
                old(cur)@[qi as int] as int,
                j,
            ) ==> final(visited)@[j],
{
    let w: usize = surface.width;
    let n: usize = surface.data.len();
    let p: usize = cur[qi];
    proof {
        assert(pixel_on(*surface, threshold, p as int));
    }
    let col: usize = p % w;
    proof {
        lemma_fundamental_div_mod(p as int, w as int);
    }
    // Left neighbour.
    if col > 0 {
        proof {
            assert(pixels_adjacent(w as int, p as int, (p - 1) as int));
        }
        flood_visit(surface, threshold, visited, cur, qi, p - 1, Ghost(comps0), Ghost(lo));
    }
    // Right neighbour.
    if col + 1 < w {
        proof {
            lemma_fundamental_div_mod_converse(
                (p + 1) as int,
                w as int,
                p as int / w as int,
                col + 1,
            );
            assert((p + 1) as int % (w as int) == col + 1);
            assert(pixels_adjacent(w as int, p as int, (p + 1) as int));
            // In bounds: p is not in the last column of its row,
            // and the grid end is a row boundary.
            if p + 1 == n {
                assert(n as int == surface.height as int * w as int)
                    by (nonlinear_arith)
                    requires
                        n == surface.width * surface.height,
                        w == surface.width,
                ;
                lemma_fundamental_div_mod_converse(
                    n as int,
                    w as int,
                    surface.height as int,
                    0,
                );
            }
        }
        flood_visit(surface, threshold, visited, cur, qi, p + 1, Ghost(comps0), Ghost(lo));
    }
    // Neighbour above.
    if p >= w {
        proof {
            assert(pixels_adjacent(w as int, p as int, (p - w) as int));
        }
        flood_visit(surface, threshold, visited, cur, qi, p - w, Ghost(comps0), Ghost(lo));
    }
    // Neighbour below.
    if p + w < n {
        proof {
            assert(pixels_adjacent(w as int, p as int, (p + w) as int));
        }
        flood_visit(surface, threshold, visited, cur, qi, p + w, Ghost(comps0), Ghost(lo));
    }
    proof {
        // Every above-threshold neighbour of the pixel just
        // processed has now been visited.
        assert forall|j: int|
            pixel_on(*surface, threshold, j) && pixels_adjacent(
                w as int,
                p as int,
                j,
            ) implies visited@[j] by {
            if j == p + 1 && (p as int + 1) % (w as int) != 0 {
                if col + 1 == w {
                    assert(p as int + 1 == (p as int / w as int + 1) * w as int)
                        by (nonlinear_arith)
                        requires
                            p as int == w as int * (p as int / w as int)
                                + col as int,
                            col + 1 == w,
                    ;
                    lemma_fundamental_div_mod_converse(
                        p as int + 1,
                        w as int,
                        p as int / w as int + 1,
                        0,
                    );
                }
                assert(col + 1 < w);
            } else if p == j + 1 && (j as int + 1) % (w as int) != 0 {
                assert(col > 0);
            } else if j == p + w {
                assert(p + w < n);
            } else {
                assert(p == j + w);
                assert(p >= w);
            }
        }
    }
}

/// Group the pixels of `surface` at or above `threshold` into maximal
/// 4-connected components, by a row-major scan with flood fill.
///
/// The result is a partition of the above-threshold pixels: every component
/// is a nonempty, 4-connected sequence of above-threshold pixels, no pixel
/// occurs twice, every above-threshold pixel occurs, and each component is
/// maximal (it holds every above-threshold neighbour of its members).
#[verifier::rlimit(100)]
#[verifier::spinoff_prover]
pub fn find_components(surface: &ProbabilitySurface, threshold: u32) -> (comps: Vec<Vec<usize>>)
    requires
        surface.wf(),
    ensures
        comps_nonempty(comps.deep_view()),
        comps_on(comps.deep_view(), *surface, threshold),
        comps_chained(surface.width as int, comps.deep_view()),
        comps_distinct(comps.deep_view()),
        comps_max(comps.deep_view(), *surface, threshold),
        comps_in_scan_order(comps.deep_view()),
        forall|i: int| pixel_on(*surface, threshold, i) ==> in_comps(comps.deep_view(), i),
{
    let n: usize = surface.data.len();
    let w: usize = surface.width;
    proof {
        assert(surface.width * surface.height <= 0x4000_0000) by (nonlinear_arith)
            requires surface.width <= 0x8000 && surface.height <= 0x8000;
    }
    let mut visited: Vec<bool> = Vec::new();
    let mut vi: usize = 0;
    while vi < n
        invariant
            vi == visited@.len() <= n,
            forall|i: int| 0 <= i < vi ==> !(#[trigger] visited@[i]),
        decreases n - vi,
    {
        visited.push(false);
        vi += 1;
    }
    let mut comps: Vec<Vec<usize>> = Vec::new();
    let mut idx: usize = 0;
    while idx < n
        invariant
            surface.wf(),
            n == surface.data@.len(),
            n <= 0x4000_0000,
            w == surface.width,
            idx <= n,
            visited@.len() == n,
            forall|i: int| 0 <= i < n && #[trigger] visited@[i]
                ==> pixel_on(*surface, threshold, i),
            forall|i: int| 0 <= i < idx && pixel_on(*surface, threshold, i)
                ==> #[trigger] visited@[i],
            forall|i: int| 0 <= i < n
                ==> (#[trigger] visited@[i] <==> in_comps(comps.deep_view(), i)),
            comps_nonempty(comps.deep_view()),
            comps_on(comps.deep_view(), *surface, threshold),
            comps_chained(w as int, comps.deep_view()),
            comps_distinct(comps.deep_view()),
            comps_max(comps.deep_view(), *surface, threshold),
            comps_in_scan_order(comps.deep_view()),
            forall|c: int|
                0 <= c < comps.deep_view().len() ==> #[trigger] comps.deep_view()[c][0] < idx,
        decreases n - idx,
    {
        if surface.data[idx] >= threshold && !visited[idx] {
            let ghost comps0 = comps.deep_view();
            visited[idx] = true;
            let mut cur: Vec<usize> = Vec::new();
            cur.push(idx);
            let mut qi: usize = 0;
            proof {
                // The grid is not empty here, so its width is positive.
                if w == 0 {
                    assert(surface.width * surface.height == 0) by (nonlinear_arith)
                        requires surface.width == 0;
                }
                assert(cur@[0] == idx);
                assert(in_seq(cur@, idx as int));
                assert forall|i: int| 0 <= i < n implies (#[trigger] visited@[i] <==> (in_comps(
                    comps0,
                    i,
                ) || in_seq(cur@, i))) by {
                    if i != idx && in_seq(cur@, i) {
                        let k = choose|k: int| 0 <= k < cur@.len() && cur@[k] == i;
                        assert(k == 0);
                    }
                }
                assert(flood_inv(*surface, threshold, visited@, cur@, comps0));
            }
            while qi < cur.len()
                invariant
                    surface.wf(),
                    n == surface.data@.len(),
                    n <= 0x4000_0000,
                    w == surface.width,
                    0 < w,
                    idx < n,
                    qi <= cur@.len() <= n,
                    visited@[idx as int],
                    cur@[0] == idx,
                    forall|k: int| 0 <= k < cur@.len() ==> (#[trigger] cur@[k]) >= idx,
                    flood_inv(*surface, threshold, visited@, cur@, comps0),
                    forall|i: int| 0 <= i < idx && pixel_on(*surface, threshold, i)
                        ==> #[trigger] visited@[i],
                    forall|k: int, j: int|
                        #![trigger pixels_adjacent(w as int, cur@[k] as int, j)]
                        0 <= k < qi && pixel_on(*surface, threshold, j) && pixels_adjacent(
                            w as int,
                            cur@[k] as int,
                            j,
                        ) ==> visited@[j],
                decreases n - qi,
            {
                flood_step(
                    surface,
                    threshold,
                    &mut visited,
                    &mut cur,
                    qi,
                    Ghost(comps0),
                    Ghost(idx as int),
                );
                proof {
                    // The component holds distinct pixel indices below `n`,
                    // so the scan front cannot outrun the grid size.
                    lemma_unique_bounded_len(cur@, n as int);
                }
                qi += 1;
            }
            let ghost curv = cur@;
            comps.push(cur);
            proof {
                assert(comps.deep_view() =~~= comps0.push(curv));
                let newc = comps.deep_view();
                assert forall|i: int| 0 <= i < n implies (#[trigger] visited@[i] <==> in_comps(
                    newc,
                    i,
                )) by {
                    if visited@[i] {
                        if in_comps(comps0, i) {
                            let c = choose|c: int|
                                0 <= c < comps0.len() && in_seq(#[trigger] comps0[c], i);
                            assert(newc[c] == comps0[c]);
                            assert(in_comps(newc, i));
                        } else {
                            assert(in_seq(curv, i));
                            assert(newc[comps0.len() as int] == curv);
                            assert(in_comps(newc, i));
                        }
                    }
                    if in_comps(newc, i) {
                        let c = choose|c: int| 0 <= c < newc.len() && in_seq(#[trigger] newc[c], i);
                        if c < comps0.len() {
                            assert(newc[c] == comps0[c]);
                            assert(in_comps(comps0, i));
                        } else {
                            assert(newc[c] == curv);
                        }
                    }
                }
                assert forall|c1: int, k1: int, c2: int, k2: int|
                    #![trigger newc[c1][k1], newc[c2][k2]]
                    0 <= c1 < newc.len() && 0 <= k1 < newc[c1].len() && 0 <= c2 < newc.len()
                        && 0 <= k2 < newc[c2].len() && (c1 != c2 || k1 != k2) implies newc[c1][k1]
                    != newc[c2][k2] by {
                    let last = comps0.len() as int;
                    if c1 < last && c2 < last {
                        assert(newc[c1] == comps0[c1] && newc[c2] == comps0[c2]);
                        assert(comps0[c1][k1] != comps0[c2][k2]);
                    } else if c1 == last && c2 == last {
                        assert(newc[c1] == curv);
                    } else if c1 == last {
                        assert(newc[c2] == comps0[c2]);
                        assert(in_seq(comps0[c2], comps0[c2][k2] as int));
                        assert(in_comps(comps0, comps0[c2][k2] as int));
                        assert(!in_comps(comps0, curv[k1] as int));
                    } else {
                        assert(newc[c1] == comps0[c1]);
                        assert(in_seq(comps0[c1], comps0[c1][k1] as int));
                        assert(in_comps(comps0, comps0[c1][k1] as int));
                        assert(!in_comps(comps0, curv[k2] as int));
                    }
                }
                assert forall|c: int| 0 <= c < newc.len() implies seq_chained(
                    w as int,
                    #[trigger] newc[c],
                ) by {
                    if c < comps0.len() {
                        assert(newc[c] == comps0[c]);
                    } else {
                        assert(newc[c] == curv);
                    }
                }
                assert forall|c: int, k: int|
                    #![trigger newc[c][k]]
                    0 <= c < newc.len() && 0 <= k < newc[c].len() implies newc[c][k]
                    >= newc[c][0] by {
                    if c < comps0.len() {
                        assert(newc[c] == comps0[c]);
                        assert(comps0[c][k] >= comps0[c][0]);
                    } else {
                        assert(newc[c] == curv);
                        assert(curv[k] >= idx && curv[0] == idx);
                    }
                }
                assert forall|c1: int, c2: int|
                    #![trigger newc[c1][0], newc[c2][0]]
                    0 <= c1 < c2 < newc.len() implies newc[c1][0] < newc[c2][0] by {
                    if c2 < comps0.len() {
                        assert(newc[c1] == comps0[c1] && newc[c2] == comps0[c2]);
                        assert(comps0[c1][0] < comps0[c2][0]);
                    } else {
                        assert(newc[c1] == comps0[c1] && newc[c2] == curv);
                        assert(comps0[c1][0] < idx && curv[0] == idx);
                    }
                }
                assert forall|c: int| 0 <= c < newc.len() implies #[trigger] newc[c][0] < idx
                    + 1 by {
                    if c < comps0.len() {
                        assert(newc[c] == comps0[c]);
                    } else {
                        assert(newc[c] == curv);
                    }
                }
                // Maximality: a neighbour of a closed component's member is
                // in that component. For earlier components this carries
                // over; for the new one, the neighbour was visited, and it
                // cannot lie in an earlier component, whose own maximality
                // would then have claimed the member itself.
                assert forall|c: int, k: int, j: int|
                    #![trigger newc[c][k], pixel_on(*surface, threshold, j)]
                    0 <= c < newc.len() && 0 <= k < newc[c].len() && pixel_on(
                        *surface,
                        threshold,
                        j,
                    ) && pixels_adjacent(w as int, newc[c][k] as int, j) implies in_seq(
                    newc[c],
                    j,
                ) by {
                    if c < comps0.len() {
                        assert(newc[c] == comps0[c]);
                        assert(comps0[c][k] == newc[c][k]);
                        assert(in_seq(comps0[c], j));
                    } else {
                        assert(newc[c] == curv);
                        let p2 = curv[k];
                        assert(pixel_on(*surface, threshold, p2 as int));
                        assert(visited@[j]);
                        if in_comps(comps0, j) {
                            let c2 = choose|c2: int|
                                0 <= c2 < comps0.len() && in_seq(#[trigger] comps0[c2], j);
                            let k2 = choose|k2: int|
                                0 <= k2 < comps0[c2].len() && comps0[c2][k2] == j;
                            assert(comps0[c2][k2] == j);
                            assert(pixels_adjacent(w as int, j, p2 as int));
                            assert(in_seq(comps0[c2], p2 as int));
                            assert(in_comps(comps0, p2 as int));
                            assert(false);
                        }
                        assert(in_seq(curv, j));
                    }
                }
            }
        }
        idx += 1;
    }
    proof {
        assert forall|i: int| pixel_on(*surface, threshold, i) implies in_comps(
            comps.deep_view(),
            i,
        ) by {
            assert(visited@[i]);
        }
    }
    comps
}

/// Fit an axis-aligned box to a component: the tight pixel bounding box,
/// in pixel-edge coordinates, expanded on every side by a fixed proportion
/// of its extent.
///
/// The returned region is axis-aligned and contains the pixel square of
/// every pixel of the component (in doubled coordinates, pixel `(x, y)`
/// spans `[2x, 2x + 2] x [2y, 2y + 2]`).
fn fit_expanded_box(surface: &ProbabilitySurface, threshold: u32, comp: &Vec<usize>) -> (r:
    RotatedRect)
    requires
        surface.wf(),
        0 < surface.width,
        comp@.len() > 0,
        forall|k: int| 0 <= k < comp@.len()
            ==> pixel_on(*surface, threshold, #[trigger] comp@[k] as int),
    ensures
        r.wf(),
        r.angle_urad == 0,
        region_is_expanded_fit(*surface, comp@, r),
        forall|k: int|
            0 <= k < comp@.len() ==> {
                let x = (#[trigger] comp@[k]) as int % surface.width as int;
                let y = comp@[k] as int / surface.width as int;
                r.left2() <= 2 * x && 2 * x + 2 <= r.right2() && r.top2() <= 2 * y && 2 * y + 2
                    <= r.bottom2()
            },
{
    let w: usize = surface.width;
    let first: usize = comp[0];
    proof {
        assert(pixel_on(*surface, threshold, first as int));
        lemma_pixel_row_in_range(first as int, w as int, surface.height as int);
    }
    let mut min_x: usize = first % w;
    let mut max_x: usize = first % w;
    let mut min_y: usize = first / w;
    let mut max_y: usize = first / w;
    let mut k: usize = 1;
    while k < comp.len()
        invariant
            surface.wf(),
            w == surface.width,
            0 < w,
            1 <= k <= comp@.len(),
            forall|j: int| 0 <= j < comp@.len()
                ==> pixel_on(*surface, threshold, #[trigger] comp@[j] as int),
            min_x <= max_x < w,
            min_y <= max_y < surface.height,
            forall|j: int|
                0 <= j < k ==> {
                    let x = (#[trigger] comp@[j]) as int % w as int;
                    let y = comp@[j] as int / w as int;
                    min_x <= x <= max_x && min_y <= y <= max_y
                },
            exists|j: int| 0 <= j < k && (#[trigger] comp@[j]) as int % w as int == min_x,
            exists|j: int| 0 <= j < k && (#[trigger] comp@[j]) as int % w as int == max_x,
            exists|j: int| 0 <= j < k && (#[trigger] comp@[j]) as int / w as int == min_y,
            exists|j: int| 0 <= j < k && (#[trigger] comp@[j]) as int / w as int == max_y,
        decreases comp@.len() - k,
    {
        let p: usize = comp[k];
        proof {
            assert(pixel_on(*surface, threshold, p as int));
            lemma_pixel_row_in_range(p as int, w as int, surface.height as int);
        }
        let x: usize = p % w;
        let y: usize = p / w;
        if x < min_x {
            min_x = x;
        }
        if x > max_x {
            max_x = x;
        }
        if y < min_y {
            min_y = y;
        }
        if y > max_y {
            max_y = y;
        }
        k += 1;
    }
    // Pixel-edge bounds of the component.
    let left: i64 = min_x as i64;
    let right: i64 = max_x as i64 + 1;
    let top: i64 = min_y as i64;
    let bottom: i64 = max_y as i64 + 1;
    // Proportional expansion margin.
    let margin_x: i64 = (right - left) / EXPANSION_DENOM;
    let margin_y: i64 = (bottom - top) / EXPANSION_DENOM;
    let rect = Rect::new(left - margin_x, top - margin_y, right + margin_x, bottom + margin_y);
    let fitted = RotatedRect::from_rect(rect);
    proof {
        assert(tight_bounds(
            comp@,
            w as int,
            min_x as int,
            min_y as int,
            max_x as int,
            max_y as int,
        ));
        assert(fitted == expanded_box(min_x as int, min_y as int, max_x as int, max_y as int));
    }
    fitted
}

/// Proof that a flat index below `w * h` lies in a row below `h`.
proof fn lemma_pixel_row_in_range(i: int, w: int, h: int)
    requires
        0 < w,
        0 <= i < w * h,
    ensures
        0 <= i / w < h,
        0 <= i % w < w,
{
    lemma_fundamental_div_mod(i, w);
    if i / w >= h {
        lemma_mul_inequality(h, i / w, w);
        assert(h * w <= (i / w) * w);
        assert(w * (i / w) == (i / w) * w) by (nonlinear_arith);
        assert(h * w == w * h) by (nonlinear_arith);
    }
    if i / w < 0 {
        assert(w * (i / w) <= w * -1) by (nonlinear_arith)
            requires w > 0 && i / w <= -1;
    }
}

/// Whether some pixel of `s` at or above `threshold` has its pixel square
/// inside the axis-aligned footprint of `r` (doubled coordinates: pixel
/// `(x, y)` spans `[2x, 2x + 2] x [2y, 2y + 2]`).
pub open spec fn region_covers_on_pixel(
    s: ProbabilitySurface,
    threshold: u32,
    r: RotatedRect,
) -> bool {
    exists|i: int|
        #![trigger pixel_on(s, threshold, i)]
        {
            let x = i % s.width as int;
            let y = i / s.width as int;
            &&& pixel_on(s, threshold, i)
            &&& r.left2() <= 2 * x
            &&& 2 * x + 2 <= r.right2()
            &&& r.top2() <= 2 * y
            &&& 2 * y + 2 <= r.bottom2()
        }
}

/// Extract one candidate word region per connected component of the
/// thresholded surface, discarding components below the noise-filter area
/// and expanding each fitted box by its proportional margin.
///
/// The result satisfies `detection_result_ok`: there is exactly one region
/// per large-enough maximal component, each the expanded fitted box of its
/// component; a surface entirely below threshold yields no regions. The
/// order of the regions is the row-major order in which the scan first
/// meets each component.
pub fn extract_regions(surface: &ProbabilitySurface, threshold: u32) -> (regions: Vec<
    RotatedRect,
>)
    requires
        surface.wf(),
    ensures
        detection_result_ok(*surface, threshold, regions@),
{
    let comps = find_components(surface, threshold);
    let mut regions: Vec<RotatedRect> = Vec::new();
    let ghost mut pick: Seq<int> = Seq::empty();
    let mut c: usize = 0;
    while c < comps.len()
        invariant
            surface.wf(),
            comps_nonempty(comps.deep_view()),
            comps_on(comps.deep_view(), *surface, threshold),
            c <= comps@.len(),
            forall|r: int|
                0 <= r < regions@.len() ==> (#[trigger] regions@[r]).wf()
                    && regions@[r].angle_urad == 0,
            forall|r: int|
                0 <= r < regions@.len()
                    ==> region_covers_on_pixel(*surface, threshold, #[trigger] regions@[r]),
            pick.len() == regions@.len(),
            forall|m: int| 0 <= m < pick.len() ==> 0 <= #[trigger] pick[m] < c,
            forall|m1: int, m2: int|
                #![trigger pick[m1], pick[m2]]
                0 <= m1 < m2 < pick.len() ==> pick[m1] < pick[m2],
            forall|m: int|
                0 <= m < pick.len() ==> comps.deep_view()[#[trigger] pick[m]].len()
                    >= MIN_COMPONENT_AREA && region_is_expanded_fit(
                    *surface,
                    comps.deep_view()[pick[m]],
                    regions@[m],
                ),
            forall|c2: int|
                0 <= c2 < c && (#[trigger] comps.deep_view()[c2]).len() >= MIN_COMPONENT_AREA
                    ==> exists|m: int| 0 <= m < pick.len() && pick[m] == c2,
        decreases comps@.len() - c,
    {
        let comp: &Vec<usize> = &comps[c];
        if comp.len() >= MIN_COMPONENT_AREA {
            proof {
                assert(comps.deep_view()[c as int] == comp@);
                assert(forall|k: int|
                    0 <= k < comp@.len() ==> pixel_on(
                        *surface,
                        threshold,
                        #[trigger] comp@[k] as int,
                    ));
                if surface.width == 0 {
                    assert(pixel_on(*surface, threshold, comp@[0] as int));
                    assert(surface.width * surface.height == 0) by (nonlinear_arith)
                        requires surface.width == 0;
                }
            }
            let region = fit_expanded_box(surface, threshold, comp);
            let ghost pick0 = pick;
            regions.push(region);
            proof {
                pick = pick.push(c as int);
                let i = comp@[0] as int;
                assert(pixel_on(*surface, threshold, i));
                let x = i % surface.width as int;
                let y = i / surface.width as int;
                assert(region.left2() <= 2 * x && 2 * x + 2 <= region.right2() && region.top2()
                    <= 2 * y && 2 * y + 2 <= region.bottom2());
                assert(region_covers_on_pixel(*surface, threshold, region));
                assert(pick[pick0.len() as int] == c as int);
                assert(regions@[pick0.len() as int] == region);
                assert forall|c2: int|
                    0 <= c2 < c + 1 && (#[trigger] comps.deep_view()[c2]).len()
                        >= MIN_COMPONENT_AREA implies exists|m: int|
                    0 <= m < pick.len() && pick[m] == c2 by {
                    if c2 == c {
                        assert(pick[pick0.len() as int] == c2);
                    } else {
                        let m = choose|m: int| 0 <= m < pick0.len() && pick0[m] == c2;
                        assert(pick[m] == c2);
                    }
                }
            }
        }
        c += 1;
    }
    proof {
        if regions@.len() > 0 {
            assert(region_covers_on_pixel(*surface, threshold, regions@[0]));
            let i = choose|i: int|
                #![trigger pixel_on(*surface, threshold, i)]
                {
                    let x = i % surface.width as int;
                    let y = i / surface.width as int;
                    &&& pixel_on(*surface, threshold, i)
                    &&& regions@[0].left2() <= 2 * x
                    &&& 2 * x + 2 <= regions@[0].right2()
                    &&& regions@[0].top2() <= 2 * y
                    &&& 2 * y + 2 <= regions@[0].bottom2()
                };
            assert(pixel_on(*surface, threshold, i));
        }
        assert(pick.len() == regions@.len());
        assert(regions_match_components(*surface, comps.deep_view(), regions@));
        assert(components_complete(comps.deep_view(), *surface, threshold));
        assert(detection_result_ok(*surface, threshold, regions@));
    }
    regions
}

} // verus!
