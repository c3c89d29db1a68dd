//! Fog-of-war lighting engine.
//!
//! Given the lights on the grid, every tile within a light's falloff
//! radius receives a contribution that fades linearly with Euclidean
//! distance; contributions from overlapping lights are summed per tile
//! and clamped.  Factors are fixed-point fractions of [`FACTOR_ONE`],
//! so a factor of `FACTOR_ONE` is full brightness.
//!
//! The engine memoizes the last computed map, keyed by the exact light
//! and collider position lists that produced it.  Two deliberate quirks
//! are kept and documented rather than silently corrected: light radii
//! are not part of the cache key (a radius-only change hits the stale
//! entry), and colliders do not (yet) occlude light; they only take
//! part in the cache key.

use vstd::prelude::*;

use crate::point_light::PointLight;
use crate::sqrt::isqrt;
use crate::sqrt::isqrt_spec;
use crate::sqrt::lemma_isqrt_bounds;
use crate::tile::TileTransform;
use crate::tile::dist_sq;
use crate::tile::in_grid;
use crate::visibility::VisibilityMap;

verus! {

/// Fixed-point scale of illumination factors: this value means fully lit.
pub const FACTOR_ONE: u32 = 1_000_000;

/// Whether the light at `light` with falloff radius `rad` reaches tile
/// `p` on a `w` by `h` grid: the light's own tile always, and otherwise
/// every in-grid tile strictly closer to the light than the radius.
pub open spec fn covers(light: (int, int), rad: int, w: int, h: int, p: (int, int)) -> bool {
    p == light || (rad > 0 && in_grid(p, w, h) && dist_sq(p, light) < rad * rad)
}

/// The set of tiles reached by one light.
pub open spec fn covered_set(light: (int, int), rad: int, w: int, h: int) -> Set<(int, int)> {
    Set::new(|p: (int, int)| covers(light, rad, w, h, p))
}

/// Euclidean distance between two grid points, scaled by `FACTOR_ONE`
/// and rounded down.
pub open spec fn scaled_dist(a: (int, int), b: (int, int)) -> int {
    isqrt_spec((FACTOR_ONE as int) * (FACTOR_ONE as int) * dist_sq(a, b))
}

/// Raw contribution of one light to tile `p`: the linear falloff
/// `(rad - distance) / rad` as a fixed-point fraction of `FACTOR_ONE`.
/// A non-positive radius is the degenerate case in which only the
/// light's own tile is lit, fully.
pub open spec fn attenuation(light: (int, int), rad: int, p: (int, int)) -> int {
    if rad <= 0 {
        FACTOR_ONE as int
    } else {
        ((FACTOR_ONE as int) * rad - scaled_dist(p, light)) / rad
    }
}

/// The factor stored for `p`, or zero where the map has no entry.
pub open spec fn map_or_zero(m: Map<(int, int), int>, p: (int, int)) -> int {
    if m.dom().contains(p) {
        m[p]
    } else {
        0
    }
}

/// One light's contribution to tile `p` merged into the map `m` by
/// saturating addition.
pub open spec fn merged_factor(
    m: Map<(int, int), int>,
    light: (int, int),
    rad: int,
    p: (int, int),
) -> int {
    vstd::math::min(map_or_zero(m, p) + attenuation(light, rad, p), FACTOR_ONE as int)
}

/// The map `m` with one light's contribution merged in over the tiles
/// in `tiles`.
pub open spec fn merge_tiles(
    m: Map<(int, int), int>,
    tiles: Set<(int, int)>,
    light: (int, int),
    rad: int,
) -> Map<(int, int), int> {
    Map::new(
        |p: (int, int)| m.dom().contains(p) || tiles.contains(p),
        |p: (int, int)|
            if tiles.contains(p) {
                merged_factor(m, light, rad, p)
            } else {
                m[p]
            },
    )
}

/// The map `m` with one light's full coverage merged in.
pub open spec fn apply_light(
    m: Map<(int, int), int>,
    light: (int, int),
    rad: int,
    w: int,
    h: int,
) -> Map<(int, int), int> {
    merge_tiles(m, covered_set(light, rad, w, h), light, rad)
}

/// The illumination map produced by a list of lights, each given as a
/// position and a radius, merged one light at a time, left to right.
pub open spec fn lighting_map(lights: Seq<((int, int), int)>, w: int, h: int) -> Map<
    (int, int),
    int,
>
    decreases lights.len(),
{
    if lights.len() == 0 {
        Map::empty()
    } else {
        apply_light(
            lighting_map(lights.drop_last(), w, h),
            lights.last().0,
            lights.last().1,
            w,
            h,
        )
    }
}

/// Every tile of the grid, fully lit: what the engine returns when the
/// fog-of-war feature is disabled.
pub open spec fn full_grid_map(w: int, h: int) -> Map<(int, int), int> {
    Map::new(|p: (int, int)| in_grid(p, w, h), |p: (int, int)| FACTOR_ONE as int)
}

/// The positions of a list of tiles.
pub open spec fn tile_views(ts: Seq<TileTransform>) -> Seq<(int, int)> {
    ts.map_values(|t: TileTransform| t@)
}

/// Position and radius of each light in a list.
pub open spec fn light_models(ls: Seq<(TileTransform, PointLight)>) -> Seq<((int, int), int)> {
    ls.map_values(|l: (TileTransform, PointLight)| (l.0@, l.1.radius as int))
}

/// The position-only projection of a list of light models.
pub open spec fn positions_of(ls: Seq<((int, int), int)>) -> Seq<(int, int)> {
    ls.map_values(|l: ((int, int), int)| l.0)
}

/// A covered tile's contribution is a well-formed factor.
proof fn lemma_attenuation_range(light: (int, int), rad: int, p: (int, int))
    requires
        p == light || dist_sq(p, light) < rad * rad,
    ensures
        0 <= attenuation(light, rad, p) <= FACTOR_ONE as int,
        p == light ==> attenuation(light, rad, p) == FACTOR_ONE as int,
{
    if rad <= 0 {
    } else {
        let s = FACTOR_ONE as int;
        let d2 = dist_sq(p, light);
        assert(d2 >= 0) by {
            assert((p.0 - light.0) * (p.0 - light.0) >= 0) by (nonlinear_arith);
            assert((p.1 - light.1) * (p.1 - light.1) >= 0) by (nonlinear_arith);
        }
        assert(rad * rad >= 1) by (nonlinear_arith)
            requires
                rad >= 1;
        let sd = scaled_dist(p, light);
        lemma_isqrt_bounds(s * s * d2);
        if p == light {
            assert(d2 == 0) by {
                assert((p.0 - light.0) * (p.0 - light.0) == 0) by (nonlinear_arith)
                    requires
                        p.0 == light.0;
                assert((p.1 - light.1) * (p.1 - light.1) == 0) by (nonlinear_arith)
                    requires
                        p.1 == light.1;
            }
            assert(s * s * d2 == 0) by (nonlinear_arith)
                requires
                    d2 == 0;
            assert(isqrt_spec(0) == 0);
            assert((s * rad - 0) / rad == s) by (nonlinear_arith)
                requires
                    rad >= 1;
        } else {
            assert(sd < s * rad) by (nonlinear_arith)
                requires
                    sd >= 0,
                    sd * sd <= s * s * d2,
                    0 <= d2 < rad * rad,
                    rad >= 1,
                    s == 1000000;
            assert(0 <= (s * rad - sd) / rad <= s) by (nonlinear_arith)
                requires
                    0 <= sd < s * rad,
                    rad >= 1;
        }
    }
}

/// Whether `p` is one of the tiles of sequence `s`.
pub open spec fn has_tile(s: Seq<TileTransform>, p: (int, int)) -> bool {
    exists|k: int| 0 <= k < s.len() && (#[trigger] s[k])@ == p
}

/// No two tiles of `s` are the same position.
pub open spec fn distinct_tiles(s: Seq<TileTransform>) -> bool {
    forall|i: int, j: int| 0 <= i < j < s.len() ==> (#[trigger] s[i])@ != (#[trigger] s[j])@
}

/// Tiles reached while the radius scan has examined the horizontal
/// offsets below `di_hi`.  The offsets of a tile are determined by its
/// position, so the scan state is plain arithmetic over `p`.
spec fn in_scan(light: (int, int), rad: int, w: int, h: int, p: (int, int), di_hi: int) -> bool {
    &&& rad >= 1
    &&& in_grid(p, w, h)
    &&& dist_sq(p, light) < rad * rad
    &&& -rad <= p.0 - light.0 < di_hi
}

/// Tiles reached in the column at horizontal offset `di` while the
/// scan has examined the vertical offsets below `dj_hi`.
spec fn in_scan_col(
    light: (int, int),
    rad: int,
    w: int,
    h: int,
    p: (int, int),
    di: int,
    dj_hi: int,
) -> bool {
    &&& in_grid(p, w, h)
    &&& dist_sq(p, light) < rad * rad
    &&& p.0 - light.0 == di
    &&& -rad <= p.1 - light.1 < dj_hi
}

/// A tile strictly closer to `light` than `rad` has both offsets
/// strictly within `rad`.
proof fn lemma_offsets_within_radius(light: (int, int), rad: int, p: (int, int))
    requires
        rad >= 1,
        dist_sq(p, light) < rad * rad,
    ensures
        -rad < p.0 - light.0 < rad,
        -rad < p.1 - light.1 < rad,
{
    let dx = p.0 - light.0;
    let dy = p.1 - light.1;
    assert(-rad < dx < rad && -rad < dy < rad) by (nonlinear_arith)
        requires
            rad >= 1,
            dx * dx + dy * dy < rad * rad;
}

/// Appending a tile adds exactly that position to a sequence's tiles.
proof fn lemma_push_has_tile(s: Seq<TileTransform>, t: TileTransform)
    ensures
        forall|p: (int, int)| has_tile(s.push(t), p) <==> (has_tile(s, p) || p == t@),
{
    assert forall|p: (int, int)| has_tile(s.push(t), p) implies (has_tile(s, p) || p == t@) by {
        let k = choose|k: int| 0 <= k < s.push(t).len() && (#[trigger] s.push(t)[k])@ == p;
        if k < s.len() {
            assert(s[k]@ == p);
        }
    }
    assert forall|p: (int, int)| (has_tile(s, p) || p == t@) implies has_tile(s.push(t), p) by {
        if has_tile(s, p) {
            let k = choose|k: int| 0 <= k < s.len() && (#[trigger] s[k])@ == p;
            assert(s.push(t)[k]@ == p);
        } else {
            assert(s.push(t)[s.len() as int]@ == p);
        }
    }
}

/// Appending a fresh tile keeps a sequence's tiles pairwise distinct.
proof fn lemma_push_distinct(s: Seq<TileTransform>, t: TileTransform)
    requires
        distinct_tiles(s),
        !has_tile(s, t@),
    ensures
        distinct_tiles(s.push(t)),
{
    assert forall|i: int, j: int| 0 <= i < j < s.push(t).len() implies (#[trigger] s.push(t)[i])@
        != (#[trigger] s.push(t)[j])@ by {
        if j < s.len() {
            assert(s[i]@ != s[j]@);
        } else {
            assert(s.push(t)[i] == s[i]);
            assert(s[i]@ != t@);
        }
    }
}

/// Exact fixed-point evaluation of [`attenuation`] for a covered tile.
fn light_factor(light: TileTransform, rad: i32, t: TileTransform) -> (f: u32)
    requires
        t@ == light@ || dist_sq(t@, light@) < rad * rad,
    ensures
        f as int == attenuation(light@, rad as int, t@),
        f <= FACTOR_ONE,
{
    proof {
        lemma_attenuation_range(light@, rad as int, t@);
    }
    if rad <= 0 {
        return FACTOR_ONE;
    }
    let d2: u128 = t.distance_sq(&light);
    let ghost s = FACTOR_ONE as int;
    proof {
        assert(rad * rad >= 1) by (nonlinear_arith)
            requires
                rad >= 1;
        assert(d2 < rad * rad);
        assert(s * s * d2 < 0x1_0000_0000_0000_0000_0000_0000_0000_0000) by (nonlinear_arith)
            requires
                s == 1000000,
                0 <= d2 < rad * rad,
                rad < 0x8000_0000;
    }
    let scaled: u128 = 1_000_000u128 * 1_000_000u128 * d2;
    let sd: u128 = isqrt(scaled);
    proof {
        lemma_isqrt_bounds(scaled as int);
        assert(sd < s * rad) by (nonlinear_arith)
            requires
                sd >= 0,
                sd * sd <= s * s * d2,
                0 <= d2 < rad * rad,
                rad >= 1,
                s == 1000000;
    }
    let num: u64 = 1_000_000u64 * (rad as u64) - (sd as u64);
    let f: u64 = num / (rad as u64);
    proof {
        assert(f <= s) by (nonlinear_arith)
            requires
                0 <= num <= s * rad,
                rad >= 1,
                f == (num as int) / (rad as int);
    }
    f as u32
}

/// Every factor of `m` is between zero and fully lit.
pub open spec fn bounded_map(m: Map<(int, int), int>) -> bool {
    forall|p: (int, int)| #[trigger] m.dom().contains(p) ==> 0 <= m[p] <= FACTOR_ONE as int
}

/// The tiles among the first `j` entries of `cells`.
spec fn seen_tiles(cells: Seq<TileTransform>, j: int) -> Set<(int, int)> {
    Set::new(
        |p: (int, int)| exists|k: int| 0 <= k < j && k < cells.len() && (#[trigger] cells[k])@ == p,
    )
}

/// Merging one light into a bounded map yields a bounded map.
proof fn lemma_apply_light_bounded(
    m: Map<(int, int), int>,
    light: (int, int),
    rad: int,
    w: int,
    h: int,
)
    requires
        bounded_map(m),
    ensures
        bounded_map(apply_light(m, light, rad, w, h)),
{
    let r = apply_light(m, light, rad, w, h);
    assert forall|p: (int, int)| #[trigger] r.dom().contains(p) implies 0 <= r[p]
        <= FACTOR_ONE as int by {
        if covered_set(light, rad, w, h).contains(p) {
            lemma_attenuation_range(light, rad, p);
        }
    }
}

/// Every factor of a computed lighting map is a well-formed factor.
proof fn lemma_lighting_map_bounded_rec(lights: Seq<((int, int), int)>, w: int, h: int)
    ensures
        bounded_map(lighting_map(lights, w, h)),
    decreases lights.len(),
{
    if lights.len() == 0 {
    } else {
        lemma_lighting_map_bounded_rec(lights.drop_last(), w, h);
        lemma_apply_light_bounded(
            lighting_map(lights.drop_last(), w, h),
            lights.last().0,
            lights.last().1,
            w,
            h,
        );
    }
}

/// The model of the cache: the memoized map with the light-position
/// and collider-position lists it was computed from, if any.
pub open spec fn cacher_model(c: LightCacher) -> Option<
    (Map<(int, int), int>, Seq<(int, int)>, Seq<(int, int)>),
> {
    match c.current {
        Some(d) => Some((d.tints@, tile_views(d.lights@), tile_views(d.colls@))),
        None => None,
    }
}

/// Whether the memoized configuration matches the given position
/// lists exactly.  Light radii are not consulted.
pub open spec fn step_matches(
    state: Option<(Map<(int, int), int>, Seq<(int, int)>, Seq<(int, int)>)>,
    lpos: Seq<(int, int)>,
    cpos: Seq<(int, int)>,
) -> bool {
    match state {
        Some(e) => e.1 == lpos && e.2 == cpos,
        None => false,
    }
}

/// One call of the engine, as a function from the cache state and the
/// inputs to the returned map and the new cache state: the disabled
/// fast path bypasses the cache, a position-for-position match returns
/// the memoized map unchanged, and anything else recomputes and
/// replaces the cache entry wholesale.
pub open spec fn engine_step(
    state: Option<(Map<(int, int), int>, Seq<(int, int)>, Seq<(int, int)>)>,
    lights: Seq<((int, int), int)>,
    colls: Seq<(int, int)>,
    enabled: bool,
    w: int,
    h: int,
) -> (Map<(int, int), int>, Option<(Map<(int, int), int>, Seq<(int, int)>, Seq<(int, int)>)>) {
    if !enabled {
        (full_grid_map(w, h), state)
    } else if step_matches(state, positions_of(lights), colls) {
        (
            match state {
                Some(e) => e.0,
                None => Map::empty(),
            },
            state,
        )
    } else {
        let r = lighting_map(lights, w, h);
        (r, Some((r, positions_of(lights), colls)))
    }
}

/// The grid tiles of the first `x` columns, plus those of column `x`
/// below row `y`, all fully lit: the disabled fast path mid-loop.
spec fn grid_prefix_map(x: int, y: int, h: int) -> Map<(int, int), int> {
    Map::new(
        |p: (int, int)| (0 <= p.0 < x && 0 <= p.1 < h) || (p.0 == x && 0 <= p.1 < y),
        |p: (int, int)| FACTOR_ONE as int,
    )
}

/// Element-for-element position equality of two tile lists.
fn tiles_equal(a: &Vec<TileTransform>, b: &Vec<TileTransform>) -> (r: bool)
    ensures
        r <==> tile_views(a@) == tile_views(b@),
{
    if a.len() != b.len() {
        proof {
            assert(tile_views(a@).len() != tile_views(b@).len());
        }
        return false;
    }
    let mut i: usize = 0;
    while i < a.len()
        invariant
            a@.len() == b@.len(),
            i <= a@.len(),
            forall|k: int| 0 <= k < i ==> (#[trigger] a@[k])@ == b@[k]@,
        decreases a@.len() - i,
    {
        if !(a[i] == b[i]) {
            proof {
                assert(tile_views(a@)[i as int] != tile_views(b@)[i as int]);
            }
            return false;
        }
        i = i + 1;
    }
    proof {
        assert(tile_views(a@) =~= tile_views(b@));
    }
    true
}

/// A fresh copy of a tile list.
fn copy_tiles(src: &Vec<TileTransform>) -> (r: Vec<TileTransform>)
    ensures
        r@ == src@,
{
    let mut r: Vec<TileTransform> = Vec::new();
    let mut i: usize = 0;
    while i < src.len()
        invariant
            i <= src@.len(),
            r@ =~= src@.subrange(0, i as int),
        decreases src@.len() - i,
    {
        r.push(src[i]);
        i = i + 1;
    }
    proof {
        assert(r@ =~= src@);
    }
    r
}

/// One computed lighting configuration: the illumination map together
/// with the exact light-position and collider-position lists that
/// produced it.  Radii are deliberately absent: they are not part of
/// the cache key.
pub struct LightingData {
    pub tints: VisibilityMap,
    pub lights: Vec<TileTransform>,
    pub colls: Vec<TileTransform>,
}

impl PartialEq for LightingData {
    /// Two configurations are equal when their light and collider
    /// position lists are: the computed tints (and the light radii,
    /// which are not recorded) take no part in the comparison.
    fn eq(&self, other: &Self) -> (r: bool) {
        tiles_equal(&self.lights, &other.lights) && tiles_equal(&self.colls, &other.colls)
    }
}

impl vstd::std_specs::cmp::PartialEqSpecImpl for LightingData {
    open spec fn obeys_eq_spec() -> bool {
        true
    }

    open spec fn eq_spec(&self, other: &Self) -> bool {
        tile_views(self.lights@) == tile_views(other.lights@) && tile_views(self.colls@)
            == tile_views(other.colls@)
    }
}

impl Eq for LightingData {

}

impl Clone for LightingData {
    fn clone(&self) -> (res: Self)
        ensures
            res.tints@ == self.tints@,
            res.lights@ == self.lights@,
            res.colls@ == self.colls@,
    {
        LightingData {
            tints: self.tints.clone(),
            lights: copy_tiles(&self.lights),
            colls: copy_tiles(&self.colls),
        }
    }
}

impl Default for LightingData {
    fn default() -> (d: Self)
        ensures
            d.tints@ == Map::<(int, int), int>::empty(),
            d.lights@ == Seq::<TileTransform>::empty(),
            d.colls@ == Seq::<TileTransform>::empty(),
    {
        LightingData { tints: VisibilityMap::new(), lights: Vec::new(), colls: Vec::new() }
    }
}

/// Memoizes the last computed [`LightingData`]; it holds none at
/// startup and is replaced wholesale on every cache miss.
pub struct LightCacher {
    pub current: Option<LightingData>,
}

impl Default for LightCacher {
    fn default() -> (c: Self)
        ensures
            cacher_model(c) is None,
    {
        LightCacher { current: None }
    }
}

impl Clone for LightCacher {
    fn clone(&self) -> (res: Self)
        ensures
            cacher_model(res) == cacher_model(*self),
    {
        match &self.current {
            Some(d) => LightCacher { current: Some(d.clone()) },
            None => LightCacher { current: None },
        }
    }
}

impl LightCacher {
    /// The set of tiles lit by one light, as a list: every in-grid tile
    /// strictly within the falloff radius, with the light's own tile
    /// appended unconditionally (so it is present even for a
    /// non-positive radius).  Any position other than the light's own
    /// appears at most once.  Colliders are accepted but do not occlude
    /// light.
    pub fn get_lighted_cells_no_cache(
        light: TileTransform,
        rad: i32,
        _colls: &Vec<TileTransform>,
        width: i32,
        height: i32,
    ) -> (cells: Vec<TileTransform>)
        ensures
            forall|k: int|
                0 <= k < cells@.len() ==> covers(
                    light@,
                    rad as int,
                    width as int,
                    height as int,
                    (#[trigger] cells@[k])@,
                ),
            forall|p: (int, int)|
                #[trigger] covers(light@, rad as int, width as int, height as int, p)
                    ==> has_tile(cells@, p),
            forall|k1: int, k2: int|
                (0 <= k1 < k2 < cells@.len() && (#[trigger] cells@[k1])@ == (
                #[trigger] cells@[k2])@) ==> k2 == cells@.len() - 1 && cells@[k2]@ == light@,
    {
        let mut cells: Vec<TileTransform> = Vec::new();
        if rad > 0 {
            let mut di: i32 = -rad;
            while di < rad
                invariant
                    1 <= rad,
                    -rad <= di <= rad,
                    forall|p: (int, int)|
                        has_tile(cells@, p) <==> in_scan(
                            light@,
                            rad as int,
                            width as int,
                            height as int,
                            p,
                            di as int,
                        ),
                    distinct_tiles(cells@),
                decreases rad - di,
            {
                let xi: i64 = light.x as i64 + di as i64;
                if 0 <= xi && xi < width as i64 {
                    let mut dj: i32 = -rad;
                    while dj < rad
                        invariant
                            1 <= rad,
                            -rad <= di < rad,
                            -rad <= dj <= rad,
                            xi == light@.0 + di,
                            0 <= xi < width as int,
                            forall|p: (int, int)|
                                has_tile(cells@, p) <==> (in_scan(
                                    light@,
                                    rad as int,
                                    width as int,
                                    height as int,
                                    p,
                                    di as int,
                                ) || in_scan_col(
                                    light@,
                                    rad as int,
                                    width as int,
                                    height as int,
                                    p,
                                    di as int,
                                    dj as int,
                                )),
                            distinct_tiles(cells@),
                        decreases rad - dj,
                    {
                        let yi: i64 = light.y as i64 + dj as i64;
                        let ghost p_new: (int, int) = (xi as int, yi as int);
                        if 0 <= yi && yi < height as i64 {
                            proof {
                                assert(0 <= (di as i64) * (di as i64) < 0x4000_0000_0000_0000
                                    && 0 <= (dj as i64) * (dj as i64) < 0x4000_0000_0000_0000
                                    && 0 <= (rad as i64) * (rad as i64) < 0x4000_0000_0000_0000)
                                    by (nonlinear_arith)
                                    requires
                                        -0x8000_0000 < (di as i64) < 0x8000_0000,
                                        -0x8000_0000 < (dj as i64) < 0x8000_0000,
                                        -0x8000_0000 < (rad as i64) < 0x8000_0000;
                            }
                            let d2: i64 = (di as i64) * (di as i64) + (dj as i64) * (dj as i64);
                            let r2: i64 = (rad as i64) * (rad as i64);
                            if d2 < r2 {
                                let t = TileTransform::new(xi as i32, yi as i32);
                                let ghost cells0 = cells@;
                                proof {
                                    assert(dist_sq(p_new, light@) == d2);
                                    assert(!has_tile(cells@, p_new));
                                    lemma_push_has_tile(cells@, t);
                                    lemma_push_distinct(cells@, t);
                                }
                                cells.push(t);
                                proof {
                                    assert forall|p: (int, int)| has_tile(cells@, p) <==> (in_scan(
                                        light@,
                                        rad as int,
                                        width as int,
                                        height as int,
                                        p,
                                        di as int,
                                    ) || in_scan_col(
                                        light@,
                                        rad as int,
                                        width as int,
                                        height as int,
                                        p,
                                        di as int,
                                        dj + 1,
                                    )) by {
                                        assert(has_tile(cells@, p) <==> (has_tile(cells0, p) || p
                                            == p_new));
                                        if p == p_new {
                                            assert(dist_sq(p, light@) == d2);
                                        }
                                    }
                                }
                            } else {
                                proof {
                                    assert forall|p: (int, int)|
                                        in_scan_col(
                                            light@,
                                            rad as int,
                                            width as int,
                                            height as int,
                                            p,
                                            di as int,
                                            dj + 1,
                                        ) <==> in_scan_col(
                                            light@,
                                            rad as int,
                                            width as int,
                                            height as int,
                                            p,
                                            di as int,
                                            dj as int,
                                        ) by {
                                        if p == p_new {
                                            assert(dist_sq(p, light@) == d2);
                                        }
                                        if p.0 == light@.0 + di && p.1 == light@.1 + dj {
                                            assert(p == p_new);
                                        }
                                    }
                                }
                            }
                        } else {
                            proof {
                                assert forall|p: (int, int)|
                                    in_scan_col(
                                        light@,
                                        rad as int,
                                        width as int,
                                        height as int,
                                        p,
                                        di as int,
                                        dj + 1,
                                    ) <==> in_scan_col(
                                        light@,
                                        rad as int,
                                        width as int,
                                        height as int,
                                        p,
                                        di as int,
                                        dj as int,
                                    ) by {
                                    if p.0 == light@.0 + di && p.1 == light@.1 + dj {
                                        assert(p.1 == yi as int);
                                    }
                                }
                            }
                        }
                        dj = dj + 1;
                    }
                    proof {
                        assert forall|p: (int, int)|
                            in_scan(
                                light@,
                                rad as int,
                                width as int,
                                height as int,
                                p,
                                di + 1,
                            ) <==> (in_scan(
                                light@,
                                rad as int,
                                width as int,
                                height as int,
                                p,
                                di as int,
                            ) || in_scan_col(
                                light@,
                                rad as int,
                                width as int,
                                height as int,
                                p,
                                di as int,
                                rad as int,
                            )) by {
                            if dist_sq(p, light@) < (rad as int) * (rad as int) {
                                lemma_offsets_within_radius(light@, rad as int, p);
                            }
                        }
                    }
                } else {
                    proof {
                        assert forall|p: (int, int)|
                            in_scan(
                                light@,
                                rad as int,
                                width as int,
                                height as int,
                                p,
                                di + 1,
                            ) <==> in_scan(
                                light@,
                                rad as int,
                                width as int,
                                height as int,
                                p,
                                di as int,
                            ) by {
                            if p.0 == light@.0 + di {
                                assert(p.0 == xi as int);
                            }
                        }
                    }
                }
                di = di + 1;
            }
        }
        let ghost cells0 = cells@;
        proof {
            lemma_push_has_tile(cells@, light);
        }
        cells.push(light);
        proof {
            assert forall|p: (int, int)|
                #[trigger] covers(light@, rad as int, width as int, height as int, p) implies
                has_tile(cells@, p) by {
                if p != light@ {
                    lemma_offsets_within_radius(light@, rad as int, p);
                    assert(in_scan(light@, rad as int, width as int, height as int, p, rad as int));
                    assert(has_tile(cells0, p));
                    let k = choose|k: int| 0 <= k < cells0.len() && (#[trigger] cells0[k])@ == p;
                    assert(cells@[k]@ == p);
                } else {
                    assert(cells@[cells@.len() - 1]@ == p);
                }
            }
            assert forall|k: int| 0 <= k < cells@.len() implies covers(
                light@,
                rad as int,
                width as int,
                height as int,
                (#[trigger] cells@[k])@,
            ) by {
                if k < cells@.len() - 1 {
                    assert(cells0[k]@ == cells@[k]@);
                    assert(has_tile(cells0, cells0[k]@));
                }
            }
            assert forall|k1: int, k2: int|
                (0 <= k1 < k2 < cells@.len() && (#[trigger] cells@[k1])@ == (
                #[trigger] cells@[k2])@) implies k2 == cells@.len() - 1 && cells@[k2]@ == light@ by {
                if k2 < cells@.len() - 1 {
                    assert(cells0[k1]@ != cells0[k2]@);
                }
            }
        }
        cells
    }

    /// Computes the illumination map for the given lights, going
    /// through the memoized entry where the position lists match (see
    /// [`engine_step`] for the exact behavior).  When the fog-of-war
    /// feature is disabled, every tile of the grid is returned fully
    /// lit and the cache is left untouched.
    pub fn get_lighted_cells(
        &mut self,
        lights: &Vec<(TileTransform, PointLight)>,
        colls: &Vec<TileTransform>,
        fow_enabled: bool,
        width: i32,
        height: i32,
    ) -> (tints: VisibilityMap)
        requires
            width >= 0,
            height >= 0,
        ensures
            ({
                let step = engine_step(
                    cacher_model(*old(self)),
                    light_models(lights@),
                    tile_views(colls@),
                    fow_enabled,
                    width as int,
                    height as int,
                );
                tints@ == step.0 && cacher_model(*final(self)) == step.1
            }),
            !fow_enabled ==> tints@.dom().finite() && tints@.dom().len() == (width as int) * (
            height as int),
    {
        if !fow_enabled {
            let mut hm = VisibilityMap::new();
            let mut x: i32 = 0;
            proof {
                assert(hm@ =~= grid_prefix_map(0, 0, height as int));
            }
            while x < width
                invariant
                    0 <= x <= width,
                    0 <= height,
                    hm@ == grid_prefix_map(x as int, 0, height as int),
                    hm@.dom().finite(),
                    hm@.dom().len() == x * height,
                decreases width - x,
            {
                let mut y: i32 = 0;
                while y < height
                    invariant
                        0 <= y <= height,
                        0 <= x < width,
                        hm@ == grid_prefix_map(x as int, y as int, height as int),
                        hm@.dom().finite(),
                        hm@.dom().len() == x * height + y,
                    decreases height - y,
                {
                    let ghost pre = hm@;
                    hm.insert(TileTransform::new(x, y), FACTOR_ONE);
                    proof {
                        assert(!pre.dom().contains((x as int, y as int)));
                        assert(hm@.dom() =~= pre.dom().insert((x as int, y as int)));
                        vstd::set::axiom_set_insert_len(pre.dom(), (x as int, y as int));
                        assert(hm@ =~= grid_prefix_map(x as int, y + 1, height as int));
                    }
                    y = y + 1;
                }
                proof {
                    assert(hm@ =~= grid_prefix_map(x + 1, 0, height as int));
                    assert((x + 1) * (height as int) == x * (height as int) + height) by (nonlinear_arith);
                }
                x = x + 1;
            }
            proof {
                assert(hm@ =~= full_grid_map(width as int, height as int));
            }
            return hm;
        }
        let mut converted_lights: Vec<TileTransform> = Vec::new();
        let mut i: usize = 0;
        while i < lights.len()
            invariant
                i <= lights@.len(),
                converted_lights@.len() == i,
                forall|k: int|
                    0 <= k < i ==> #[trigger] converted_lights@[k] == lights@[k].0,
            decreases lights@.len() - i,
        {
            converted_lights.push(lights[i].0);
            i = i + 1;
        }
        proof {
            assert(tile_views(converted_lights@) =~= positions_of(light_models(lights@)));
        }
        if let Some(data) = &self.current {
            if tiles_equal(&data.lights, &converted_lights) && tiles_equal(&data.colls, colls) {
                let r = data.tints.clone();
                proof {
                    assert(step_matches(
                        cacher_model(*self),
                        positions_of(light_models(lights@)),
                        tile_views(colls@),
                    ));
                }
                return r;
            }
        }
        proof {
            assert(!step_matches(
                cacher_model(*self),
                positions_of(light_models(lights@)),
                tile_views(colls@),
            ));
        }
        let ghost w = width as int;
        let ghost h = height as int;
        let ghost models = light_models(lights@);
        let mut hm = VisibilityMap::new();
        let mut i: usize = 0;
        proof {
            assert(models.take(0) =~= Seq::<((int, int), int)>::empty());
        }
        while i < lights.len()
            invariant
                i <= lights@.len(),
                models == light_models(lights@),
                w == width as int,
                h == height as int,
                hm@ == lighting_map(models.take(i as int), w, h),
                bounded_map(hm@),
            decreases lights@.len() - i,
        {
            let l_t: TileTransform = lights[i].0;
            let rad: i32 = lights[i].1.radius;
            let cells = Self::get_lighted_cells_no_cache(l_t, rad, colls, width, height);
            let ghost m0 = hm@;
            let mut j: usize = 0;
            proof {
                assert(hm@ =~= merge_tiles(m0, seen_tiles(cells@, 0), l_t@, rad as int));
            }
            while j < cells.len()
                invariant
                    j <= cells@.len(),
                    w == width as int,
                    h == height as int,
                    forall|k: int|
                        0 <= k < cells@.len() ==> covers(
                            l_t@,
                            rad as int,
                            w,
                            h,
                            (#[trigger] cells@[k])@,
                        ),
                    forall|k1: int, k2: int|
                        (0 <= k1 < k2 < cells@.len() && (#[trigger] cells@[k1])@ == (
                        #[trigger] cells@[k2])@) ==> k2 == cells@.len() - 1 && cells@[k2]@
                            == l_t@,
                    hm@ == merge_tiles(m0, seen_tiles(cells@, j as int), l_t@, rad as int),
                    bounded_map(m0),
                    bounded_map(hm@),
                decreases cells@.len() - j,
            {
                let t = cells[j];
                let fac = light_factor(l_t, rad, t);
                let cur: u32 = match hm.get(t) {
                    Some(c) => c,
                    None => 0,
                };
                let nu: u32 = if cur + fac > FACTOR_ONE {
                    FACTOR_ONE
                } else {
                    cur + fac
                };
                let ghost pre = hm@;
                hm.insert(t, nu);
                proof {
                    lemma_attenuation_range(l_t@, rad as int, t@);
                    let seen0 = seen_tiles(cells@, j as int);
                    let seen1 = seen_tiles(cells@, j + 1);
                    if seen0.contains(t@) {
                        let k = choose|k: int|
                            0 <= k < j && k < cells@.len() && (#[trigger] cells@[k])@ == t@;
                        assert(cells@[k]@ == cells@[j as int]@);
                        assert(t@ == l_t@);
                    }
                    assert forall|p: (int, int)| #[trigger] seen1.contains(p) implies seen0.contains(
                        p,
                    ) || p == t@ by {
                        let k = choose|k: int|
                            0 <= k < j + 1 && k < cells@.len() && (#[trigger] cells@[k])@ == p;
                        if k < j {
                            assert(seen0.contains(p));
                        }
                    }
                    assert(seen1.contains(t@)) by {
                        assert(cells@[j as int]@ == t@);
                    }
                    assert forall|p: (int, int)| #[trigger] seen0.contains(p) implies seen1.contains(
                        p,
                    ) by {
                        let k = choose|k: int|
                            0 <= k < j && k < cells@.len() && (#[trigger] cells@[k])@ == p;
                        assert(0 <= k < j + 1 && cells@[k]@ == p);
                    }
                    assert(hm@ =~= merge_tiles(m0, seen1, l_t@, rad as int));
                }
                j = j + 1;
            }
            proof {
                assert(seen_tiles(cells@, cells@.len() as int) =~= covered_set(
                    l_t@,
                    rad as int,
                    w,
                    h,
                )) by {
                    assert forall|p: (int, int)|
                        #[trigger] seen_tiles(cells@, cells@.len() as int).contains(p)
                        implies covered_set(l_t@, rad as int, w, h).contains(p) by {
                        let k = choose|k: int|
                            0 <= k < cells@.len() && (#[trigger] cells@[k])@ == p;
                        assert(covers(l_t@, rad as int, w, h, cells@[k]@));
                    }
                    assert forall|p: (int, int)|
                        #[trigger] covered_set(l_t@, rad as int, w, h).contains(p)
                        implies seen_tiles(cells@, cells@.len() as int).contains(p) by {
                        assert(covers(l_t@, rad as int, w, h, p));
                        assert(has_tile(cells@, p));
                        let k = choose|k: int| 0 <= k < cells@.len() && (#[trigger] cells@[k])@ == p;
                        assert(0 <= k < cells@.len() && cells@[k]@ == p);
                    }
                }
                assert(hm@ == apply_light(m0, l_t@, rad as int, w, h));
                assert(models.take(i + 1).drop_last() =~= models.take(i as int));
                assert(models.take(i + 1).last() == (l_t@, rad as int));
                lemma_apply_light_bounded(m0, l_t@, rad as int, w, h);
            }
            i = i + 1;
        }
        proof {
            assert(models.take(lights@.len() as int) =~= models);
        }
        let stored_colls = copy_tiles(colls);
        let tints_copy = hm.clone();
        self.current = Some(
            LightingData { tints: tints_copy, lights: converted_lights, colls: stored_colls },
        );
        hm
    }
}

/// Two enabled calls in a row with unchanged light and collider
/// position lists return the same map the second time and leave the
/// cache entry unchanged: the second call is answered from the memo
/// alone, without recomputing any coverage.  The radii of `lights2`
/// may differ from those of `lights1` — the cache key is
/// position-only, so even a radius-only change still hits the (then
/// stale) entry.
pub proof fn lemma_repeat_call_is_cached(
    state: Option<(Map<(int, int), int>, Seq<(int, int)>, Seq<(int, int)>)>,
    lights1: Seq<((int, int), int)>,
    lights2: Seq<((int, int), int)>,
    colls: Seq<(int, int)>,
    w: int,
    h: int,
)
    requires
        positions_of(lights2) == positions_of(lights1),
    ensures
        ({
            let first = engine_step(state, lights1, colls, true, w, h);
            let second = engine_step(first.1, lights2, colls, true, w, h);
            second.0 == first.0 && second.1 == first.1
        }),
{
}

/// Every factor the engine can return lies between zero and fully
/// lit, no matter how many overlapping lights contribute to a tile.
pub proof fn lemma_factors_clamped(lights: Seq<((int, int), int)>, w: int, h: int)
    ensures
        bounded_map(lighting_map(lights, w, h)),
        bounded_map(full_grid_map(w, h)),
{
    lemma_lighting_map_bounded_rec(lights, w, h);
}

/// Lights positioned on the grid produce no tile outside the grid: no
/// negative coordinate and none at or beyond the grid bounds.
pub proof fn lemma_lighted_cells_within_grid(lights: Seq<((int, int), int)>, w: int, h: int)
    requires
        forall|k: int| 0 <= k < lights.len() ==> in_grid((#[trigger] lights[k]).0, w, h),
    ensures
        forall|p: (int, int)|
            #[trigger] lighting_map(lights, w, h).dom().contains(p) ==> in_grid(p, w, h),
    decreases lights.len(),
{
    if lights.len() == 0 {
    } else {
        assert(forall|k: int|
            0 <= k < lights.drop_last().len() ==> in_grid(
                (#[trigger] lights.drop_last()[k]).0,
                w,
                h,
            ));
        lemma_lighted_cells_within_grid(lights.drop_last(), w, h);
        let m = lighting_map(lights.drop_last(), w, h);
        let light = lights.last().0;
        let rad = lights.last().1;
        assert(in_grid(light, w, h));
        assert forall|p: (int, int)|
            #[trigger] lighting_map(lights, w, h).dom().contains(p) implies in_grid(p, w, h) by {
            if !m.dom().contains(p) {
                assert(covers(light, rad, w, h, p));
            }
        }
    }
}

} // verus!
