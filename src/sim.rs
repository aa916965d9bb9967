//! Disaster simulation rules: explosions, fires and fallout zones advanced
//! once per frame, and the damage they deal to cities. Geographic
//! positions are carried as an opaque, copyable placement `P`; whatever is
//! computed from coordinates is handed in through closures or as cell
//! indices.

use vstd::prelude::*;
use crate::hash::{hash3, hash3_spec, splitmix_spec, unit_bits};
use crate::land::{is_on_land, on_land, LandGrid};
use crate::spatial::SpatialGrid;
use crate::firegrid::{FireGrid, neighbour_count};

verus! {

/// Frames that must pass between two launches.
pub const LAUNCH_COOLDOWN_FRAMES: u64 = 15;

/// Frames an explosion stays on screen.
pub const EXPLOSION_FRAMES: u8 = 60;

/// Fires lose one intensity step on every frame that is a multiple of this.
pub const FIRE_DECAY_PERIOD: u64 = 5;

/// Fires spread only while their intensity is above this.
pub const SPREAD_MIN_INTENSITY: u8 = 60;

/// Intensity a spread fire has less than the fire it came from.
pub const SPREAD_INTENSITY_LOSS: u8 = 10;

/// Most fires alive at once; spread fires beyond it are dropped.
pub const MAX_FIRES: usize = 30000;

/// Most fires one blast spawns.
pub const MAX_FIRES_PER_BLAST: usize = 20000;

/// Blast area, in square kilometres, per spawned fire.
pub const KM2_PER_FIRE: u64 = 5;

/// Fires every blast aims for on top of those its area calls for.
pub const BASE_FIRES: u64 = 200;

/// Intensity of a new fallout zone; it loses one per frame.
pub const FALLOUT_INTENSITY: u16 = 1000;

/// Ongoing damage is dealt on frames that are multiples of this.
pub const DAMAGE_PERIOD: u64 = 10;

/// A fire spreads when its 53-bit draw (see `unit_bits`) is above this:
/// a uniform draw above 0.85.
pub const SPREAD_CHANCE_BITS: u64 = 7656119366529843;

/// A spreading fire spawns two fires when its second 53-bit draw is above
/// this (a uniform draw above 0.7), else one.
pub const DOUBLE_SPREAD_BITS: u64 = 6305039478318694;

/// Divisor of `population * intensity` giving fallout damage per tick.
pub const FALLOUT_DAMAGE_DIVISOR: u128 = 200_000;

/// An explosion: where it is and how many frames it has been shown.
#[derive(Clone, Copy)]
pub struct Explosion<P> {
    pub place: P,
    pub frame: u8,
}

/// A burning fire; removed once its intensity reaches zero.
#[derive(Clone, Copy)]
pub struct Fire<P> {
    pub place: P,
    pub intensity: u8,
}

/// A fallout zone; removed once its intensity reaches zero.
#[derive(Clone, Copy)]
pub struct Fallout<P> {
    pub place: P,
    pub intensity: u16,
}

/// A city. Its population only ever goes down; a population of zero marks a
/// destroyed city, which is kept.
pub struct City<P> {
    pub place: P,
    pub name: String,
    pub population: u64,
    pub original_population: u64,
    pub is_capital: bool,
    pub is_megacity: bool,
}

impl<P> City<P> {
    /// A city at its original population.
    pub fn new(place: P, name: String, population: u64, is_capital: bool, is_megacity: bool) -> (r: Self)
        ensures
            r.place == place,
            r.name == name,
            r.population == population,
            r.original_population == population,
            r.is_capital == is_capital,
            r.is_megacity == is_megacity,
    {
        City { place, name, population, original_population: population, is_capital, is_megacity }
    }
}

/// Whether a launch at `frame` is allowed when the last one was at `last`.
pub open spec fn cooldown_elapsed_spec(frame: u64, last: u64) -> bool {
    frame >= last + LAUNCH_COOLDOWN_FRAMES
}

/// Whether a launch at `frame` is allowed when the last one was at `last`.
pub fn cooldown_elapsed(frame: u64, last: u64) -> (r: bool)
    ensures
        r == cooldown_elapsed_spec(frame, last),
{
    last as u128 + (LAUNCH_COOLDOWN_FRAMES as u128) <= frame as u128
}

/// Number of fires a blast of `area_km2` square kilometres aims for: one per
/// `KM2_PER_FIRE` plus `BASE_FIRES`, at most `MAX_FIRES_PER_BLAST`.
pub open spec fn target_fire_count_spec(area_km2: u64) -> int {
    let n = area_km2 / KM2_PER_FIRE + BASE_FIRES;
    if n > MAX_FIRES_PER_BLAST { MAX_FIRES_PER_BLAST as int } else { n as int }
}

/// Number of fires a blast of `area_km2` square kilometres aims for.
pub fn target_fire_count(area_km2: u64) -> (r: usize)
    ensures
        r == target_fire_count_spec(area_km2),
{
    let n = area_km2 / KM2_PER_FIRE + BASE_FIRES;
    if n > MAX_FIRES_PER_BLAST as u64 {
        MAX_FIRES_PER_BLAST
    } else {
        n as usize
    }
}

/// A fire's intensity after one frame.
pub open spec fn decayed(intensity: u8, frame: u64) -> u8 {
    if frame % FIRE_DECAY_PERIOD == 0 && intensity > 0 {
        (intensity - 1) as u8
    } else {
        intensity
    }
}

/// How many fires a fire spreads to this frame, from the hash bits of its
/// position.
pub open spec fn spread_count_spec(intensity: u8, lon_bits: u64, lat_bits: u64, frame: u64) -> u64 {
    if intensity > SPREAD_MIN_INTENSITY
        && splitmix_spec(hash3_spec(lon_bits, lat_bits, frame)) >> 11u64 > SPREAD_CHANCE_BITS {
        if splitmix_spec(hash3_spec(lat_bits, lon_bits, frame)) >> 11u64 > DOUBLE_SPREAD_BITS {
            2
        } else {
            1
        }
    } else {
        0
    }
}

/// How many fires a fire of `intensity` spreads to at `frame`; the draws are
/// hashes of its position bits and the frame, so the outcome is
/// reproducible.
pub fn spread_count(intensity: u8, lon_bits: u64, lat_bits: u64, frame: u64) -> (r: u64)
    ensures
        r == spread_count_spec(intensity, lon_bits, lat_bits, frame),
        r <= 2,
{
    if intensity > SPREAD_MIN_INTENSITY && unit_bits(hash3(lon_bits, lat_bits, frame)) > SPREAD_CHANCE_BITS {
        if unit_bits(hash3(lat_bits, lon_bits, frame)) > DOUBLE_SPREAD_BITS {
            2
        } else {
            1
        }
    } else {
        0
    }
}

/// Fallout damage for one tick: `population * intensity / 200000`, and at
/// least one.
pub open spec fn fallout_damage_spec(population: u64, intensity: u16) -> u64 {
    let d = (population as int * intensity as int) / (FALLOUT_DAMAGE_DIVISOR as int);
    if d < 1 { 1 } else { d as u64 }
}

/// Fallout damage for one tick.
pub fn fallout_damage(population: u64, intensity: u16) -> (r: u64)
    ensures
        r == fallout_damage_spec(population, intensity),
{
    assert((population as int) * (intensity as int) <= u64::MAX * u16::MAX) by (nonlinear_arith)
        requires
            population <= u64::MAX,
            intensity <= u16::MAX,
    ;
    let d = (population as u128) * (intensity as u128) / FALLOUT_DAMAGE_DIVISOR;
    assert(d <= u64::MAX);
    if d < 1 {
        1
    } else {
        d as u64
    }
}

/// Fire damage for one tick: one percent of the population per burning
/// neighbour cell, and at least one.
pub open spec fn fire_damage_spec(population: u64, burning_cells: u32) -> u64 {
    let d = (population as int * burning_cells as int) / 100;
    if d < 1 { 1 } else { d as u64 }
}

/// Fire damage for one tick.
pub fn fire_damage(population: u64, burning_cells: u32) -> (r: u64)
    requires
        burning_cells <= 100,
    ensures
        r == fire_damage_spec(population, burning_cells),
{
    assert((population as int) * (burning_cells as int) <= u64::MAX * 100) by (nonlinear_arith)
        requires
            population <= u64::MAX,
            burning_cells <= 100,
    ;
    let d = (population as u128) * (burning_cells as u128) / 100;
    if d < 1 {
        1
    } else {
        d as u64
    }
}

/// Population left after `killed` people die.
pub open spec fn after_damage(population: u64, killed: u64) -> u64 {
    if killed >= population { 0 } else { (population - killed) as u64 }
}

/// Population left after each amount in `kills` is dealt in turn.
pub open spec fn after_all(population: u64, kills: Seq<u64>) -> u64
    decreases kills.len(),
{
    if kills.len() == 0 {
        population
    } else {
        after_damage(after_all(population, kills.drop_last()), kills.last())
    }
}

/// Population never rises: whatever damage is dealt, in whatever order, a
/// city ends with no more people than it had before, and each further
/// blow leaves it with no more than the one before.
pub proof fn lemma_population_never_rises(population: u64, kills: Seq<u64>, i: int, j: int)
    requires
        0 <= i <= j <= kills.len(),
    ensures
        after_all(population, kills.take(j)) <= after_all(population, kills.take(i)),
        after_all(population, kills) <= population,
    decreases j - i + kills.len(),
{
    if i < j {
        lemma_population_never_rises(population, kills, i, j - 1);
        assert(kills.take(j).drop_last() =~= kills.take(j - 1));
    }
    if kills.len() > 0 {
        lemma_population_never_rises(population, kills.drop_last(), 0, 0);
        assert(kills.take(kills.len() as int) =~= kills);
    }
}

/// Every fire in `fires` is burning.
pub open spec fn all_burning<P>(fires: Seq<Fire<P>>) -> bool {
    forall|i: int| 0 <= i < fires.len() ==> #[trigger] fires[i].intensity > 0
}

/// The explosions that remain after one frame, one frame older.
pub open spec fn aged_explosions<P>(s: Seq<Explosion<P>>) -> Seq<Explosion<P>>
    decreases s.len(),
{
    if s.len() == 0 {
        s
    } else {
        let rest = aged_explosions(s.drop_last());
        let e = s.last();
        if e.frame + 1 < EXPLOSION_FRAMES {
            rest.push(Explosion { place: e.place, frame: (e.frame + 1) as u8 })
        } else {
            rest
        }
    }
}

/// The fires that still burn after one frame, decayed.
pub open spec fn aged_fires<P>(s: Seq<Fire<P>>, frame: u64) -> Seq<Fire<P>>
    decreases s.len(),
{
    if s.len() == 0 {
        s
    } else {
        let rest = aged_fires(s.drop_last(), frame);
        let f = s.last();
        if decayed(f.intensity, frame) > 0 {
            rest.push(Fire { place: f.place, intensity: decayed(f.intensity, frame) })
        } else {
            rest
        }
    }
}

/// The fallout zones that remain after one frame, one step weaker.
pub open spec fn aged_fallout<P>(s: Seq<Fallout<P>>) -> Seq<Fallout<P>>
    decreases s.len(),
{
    if s.len() == 0 {
        s
    } else {
        let rest = aged_fallout(s.drop_last());
        let z = s.last();
        if z.intensity > 1 {
            rest.push(Fallout { place: z.place, intensity: (z.intensity - 1) as u16 })
        } else {
            rest
        }
    }
}

proof fn lemma_aged_fires_burning<P>(s: Seq<Fire<P>>, frame: u64)
    ensures
        all_burning(aged_fires(s, frame)),
    decreases s.len(),
{
    if s.len() > 0 {
        lemma_aged_fires_burning(s.drop_last(), frame);
    }
}

fn age_explosions<P: Copy>(v: &Vec<Explosion<P>>) -> (r: Vec<Explosion<P>>)
    ensures
        r@ == aged_explosions(v@),
{
    let mut out: Vec<Explosion<P>> = Vec::new();
    let mut i: usize = 0;
    while i < v.len()
        invariant
            i <= v.len(),
            out@ == aged_explosions(v@.take(i as int)),
        decreases v.len() - i,
    {
        let e = v[i];
        assert(v@.take(i + 1).drop_last() =~= v@.take(i as int));
        if e.frame < EXPLOSION_FRAMES - 1 {
            out.push(Explosion { place: e.place, frame: e.frame + 1 });
        }
        i = i + 1;
    }
    assert(v@.take(i as int) =~= v@);
    out
}

fn age_fires<P: Copy>(v: &Vec<Fire<P>>, frame: u64) -> (r: Vec<Fire<P>>)
    ensures
        r@ == aged_fires(v@, frame),
{
    let mut out: Vec<Fire<P>> = Vec::new();
    let mut i: usize = 0;
    let decay = frame % FIRE_DECAY_PERIOD == 0;
    while i < v.len()
        invariant
            i <= v.len(),
            decay == (frame % FIRE_DECAY_PERIOD == 0),
            out@ == aged_fires(v@.take(i as int), frame),
        decreases v.len() - i,
    {
        let f = v[i];
        assert(v@.take(i + 1).drop_last() =~= v@.take(i as int));
        let intensity = if decay { f.intensity.saturating_sub(1) } else { f.intensity };
        if intensity > 0 {
            out.push(Fire { place: f.place, intensity });
        }
        i = i + 1;
    }
    assert(v@.take(i as int) =~= v@);
    out
}

fn age_fallout<P: Copy>(v: &Vec<Fallout<P>>) -> (r: Vec<Fallout<P>>)
    ensures
        r@ == aged_fallout(v@),
{
    let mut out: Vec<Fallout<P>> = Vec::new();
    let mut i: usize = 0;
    while i < v.len()
        invariant
            i <= v.len(),
            out@ == aged_fallout(v@.take(i as int)),
        decreases v.len() - i,
    {
        let z = v[i];
        assert(v@.take(i + 1).drop_last() =~= v@.take(i as int));
        let intensity = z.intensity.saturating_sub(1);
        if intensity > 0 {
            out.push(Fallout { place: z.place, intensity });
        }
        i = i + 1;
    }
    assert(v@.take(i as int) =~= v@);
    out
}

/// A candidate fire with the fine land-grid cell `(lon_idx, lat_idx)` it
/// falls in.
pub type Candidate<P> = (Fire<P>, usize, usize);

/// The candidates that are admitted, in order: those on land and burning.
pub open spec fn kept<P>(land: Option<LandGrid>, c: Seq<Candidate<P>>) -> Seq<Fire<P>>
    decreases c.len(),
{
    if c.len() == 0 {
        Seq::empty()
    } else {
        let rest = kept(land, c.drop_last());
        let last = c.last();
        if on_land(land, last.1 as int, last.2 as int) && last.0.intensity > 0 {
            rest.push(last.0)
        } else {
            rest
        }
    }
}

/// At most the first `n` elements of `s`.
pub open spec fn first_n<T>(s: Seq<T>, n: int) -> Seq<T> {
    if s.len() <= n { s } else { s.take(n) }
}

/// One planned spread: the index of the parent fire, the seed that places
/// the new fire, and the new fire's intensity.
#[derive(Clone, Copy, PartialEq, Eq, Structural, Debug)]
pub struct Spawn {
    pub parent: usize,
    pub seed: u64,
    pub intensity: u8,
}

/// The spawns of fire `j` (of `intensity`, with position bits `lon_bits`,
/// `lat_bits`) at `frame`: `spread_count` of them, spawn `s` seeded with
/// `hash3(lon_bits, lat_bits, frame + s)`.
pub open spec fn spawns_of(j: int, intensity: u8, lon_bits: u64, lat_bits: u64, frame: u64) -> Seq<Spawn> {
    Seq::new(
        spread_count_spec(intensity, lon_bits, lat_bits, frame) as nat,
        |s: int|
            Spawn {
                parent: j as usize,
                seed: hash3_spec(lon_bits, lat_bits, frame.wrapping_add(s as u64)),
                intensity: (intensity - SPREAD_INTENSITY_LOSS) as u8,
            },
    )
}

/// The spawns of the first `n` fires, in fire order.
pub open spec fn spread_plan_spec<P>(fires: Seq<Fire<P>>, bits: Seq<(u64, u64)>, frame: u64, n: int) -> Seq<Spawn>
    decreases n,
{
    if n <= 0 {
        Seq::empty()
    } else {
        spread_plan_spec(fires, bits, frame, n - 1) + spawns_of(
            n - 1,
            fires[n - 1].intensity,
            bits[n - 1].0,
            bits[n - 1].1,
            frame,
        )
    }
}

/// `after` is `before` with some populations lowered and nothing else
/// changed.
pub open spec fn only_damaged<P>(before: Seq<City<P>>, after: Seq<City<P>>) -> bool {
    &&& after.len() == before.len()
    &&& forall|i: int|
        #![trigger after[i]]
        0 <= i < before.len() ==> {
            &&& after[i].population <= before[i].population
            &&& after[i].original_population == before[i].original_population
            &&& after[i].place == before[i].place
            &&& after[i].name == before[i].name
            &&& after[i].is_capital == before[i].is_capital
            &&& after[i].is_megacity == before[i].is_megacity
        }
}

proof fn lemma_only_damaged_trans<P>(a: Seq<City<P>>, b: Seq<City<P>>, c: Seq<City<P>>)
    requires
        only_damaged(a, b),
        only_damaged(b, c),
    ensures
        only_damaged(a, c),
{
    assert forall|i: int| #![trigger c[i]] 0 <= i < a.len() implies {
        &&& c[i].population <= a[i].population
        &&& c[i].original_population == a[i].original_population
        &&& c[i].place == a[i].place
        &&& c[i].name == a[i].name
        &&& c[i].is_capital == a[i].is_capital
        &&& c[i].is_megacity == a[i].is_megacity
    } by {
        assert(b[i].population <= a[i].population);
    }
}

/// Spawned fires are on land: every fire admitted from a list of
/// candidates is a candidate whose fine cell is land under `land` (or any
/// cell when no land data is loaded).
pub proof fn lemma_kept_on_land<P>(land: Option<LandGrid>, c: Seq<Candidate<P>>, i: int)
    requires
        0 <= i < kept(land, c).len(),
    ensures
        exists|j: int|
            0 <= j < c.len() && #[trigger] c[j].0 == kept(land, c)[i] && on_land(land, c[j].1 as int, c[j].2 as int),
    decreases c.len(),
{
    let rest = kept(land, c.drop_last());
    if i < rest.len() {
        lemma_kept_on_land(land, c.drop_last(), i);
        let j = choose|j: int|
            0 <= j < c.drop_last().len() && #[trigger] c.drop_last()[j].0 == rest[i] && on_land(
                land,
                c.drop_last()[j].1 as int,
                c.drop_last()[j].2 as int,
            );
        assert(c[j] == c.drop_last()[j]);
    } else {
        assert(c[c.len() - 1].0 == kept(land, c)[i]);
    }
}

proof fn lemma_kept_burning<P>(land: Option<LandGrid>, c: Seq<Candidate<P>>)
    ensures
        all_burning(kept(land, c)),
    decreases c.len(),
{
    if c.len() > 0 {
        lemma_kept_burning(land, c.drop_last());
    }
}

/// The first `n` candidates that are on land and burning, in order.
fn keep_admitted<P: Copy>(land: &Option<LandGrid>, c: &Vec<Candidate<P>>, n: usize) -> (r: Vec<Fire<P>>)
    requires
        land matches Some(g) ==> g.wf(),
        n <= c.len(),
    ensures
        r@ == kept(*land, c@.take(n as int)),
{
    let mut out: Vec<Fire<P>> = Vec::new();
    let mut i: usize = 0;
    while i < n
        invariant
            land matches Some(g) ==> g.wf(),
            n <= c.len(),
            i <= n,
            out@ == kept(*land, c@.take(i as int)),
        decreases n - i,
    {
        let (fire, x, y) = c[i];
        assert(c@.take(i + 1).drop_last() =~= c@.take(i as int));
        if is_on_land(land, x, y) && fire.intensity > 0 {
            out.push(fire);
        }
        i = i + 1;
    }
    out
}

/// Populations of a list of cities.
pub open spec fn populations<P>(cities: Seq<City<P>>) -> Seq<u64> {
    Seq::new(cities.len(), |i: int| cities[i].population)
}

/// `c` plus `k`, saturating at `u64::MAX`.
pub open spec fn add_casualties(c: u64, k: u64) -> u64 {
    if c + k > u64::MAX { u64::MAX } else { (c + k) as u64 }
}

/// Populations and casualty count after the blows `hits` (city index,
/// people killed) land in turn; a blow on a destroyed or unknown city does
/// nothing.
pub open spec fn after_hits(pops: Seq<u64>, casualties: u64, hits: Seq<(usize, u64)>) -> (Seq<u64>, u64)
    decreases hits.len(),
{
    if hits.len() == 0 {
        (pops, casualties)
    } else {
        let (p, c) = after_hits(pops, casualties, hits.drop_last());
        let (i, k) = hits.last();
        if i < p.len() && p[i as int] > 0 {
            (p.update(i as int, after_damage(p[i as int], k)), add_casualties(c, k))
        } else {
            (p, c)
        }
    }
}

/// Populations and casualty count after a fallout zone of `intensity`
/// reaches the cities of `reached` in turn.
pub open spec fn after_fallout(pops: Seq<u64>, casualties: u64, reached: Seq<usize>, intensity: u16) -> (Seq<u64>, u64)
    decreases reached.len(),
{
    if reached.len() == 0 {
        (pops, casualties)
    } else {
        let (p, c) = after_fallout(pops, casualties, reached.drop_last(), intensity);
        let i = reached.last();
        if i < p.len() && p[i as int] > 0 {
            let k = fallout_damage_spec(p[i as int], intensity);
            (p.update(i as int, after_damage(p[i as int], k)), add_casualties(c, k))
        } else {
            (p, c)
        }
    }
}

/// Populations and casualty count after fire damage to the first `n`
/// cities, city `i` probing the grid around cell `cells[i]`.
pub open spec fn after_fire(pops: Seq<u64>, casualties: u64, grid: &FireGrid, cells: Seq<(i64, i64)>, n: int) -> (Seq<u64>, u64)
    decreases n,
{
    if n <= 0 {
        (pops, casualties)
    } else {
        let (p, c) = after_fire(pops, casualties, grid, cells, n - 1);
        let i = n - 1;
        let (cx, cy) = cells[i];
        if i < p.len() && p[i] > 0 && i64::MIN < cx < i64::MAX && i64::MIN < cy < i64::MAX
            && neighbour_count(grid, cx as int, cy as int) > 0 {
            let k = fire_damage_spec(p[i], neighbour_count(grid, cx as int, cy as int) as u32);
            (p.update(i, after_damage(p[i], k)), add_casualties(c, k))
        } else {
            (p, c)
        }
    }
}

/// The live disaster state: entity collections, the frame counter, the
/// casualty count and the frame of the last launch.
pub struct Simulation<P> {
    pub explosions: Vec<Explosion<P>>,
    pub fires: Vec<Fire<P>>,
    pub fallout: Vec<Fallout<P>>,
    pub casualties: u64,
    pub frame: u64,
    pub last_launch_frame: u64,
}

/// What a launch does: refused within the cooldown, leaving everything as
/// it was; otherwise one explosion and one fallout zone are added, the
/// fires grow by the spawned ones, and the launch frame is recorded.
pub open spec fn launched<P>(
    s0: Simulation<P>,
    s1: Simulation<P>,
    land: Option<LandGrid>,
    blast: P,
    zone: P,
    target: usize,
    candidates: Seq<Candidate<P>>,
    ok: bool,
) -> bool {
    &&& ok == cooldown_elapsed_spec(s0.frame, s0.last_launch_frame)
    &&& ok ==> {
        &&& s1.explosions@ == s0.explosions@.push(Explosion { place: blast, frame: 0 })
        &&& s1.fallout@ == s0.fallout@.push(Fallout { place: zone, intensity: FALLOUT_INTENSITY })
        &&& s1.last_launch_frame == s0.frame
        &&& s1.fires@ == s0.fires@ + first_n(kept(land, first_n(candidates, 2 * target)), target as int)
    }
    &&& !ok ==> {
        &&& s1.explosions@ == s0.explosions@
        &&& s1.fallout@ == s0.fallout@
        &&& s1.fires@ == s0.fires@
        &&& s1.last_launch_frame == s0.last_launch_frame
    }
    &&& s1.frame == s0.frame
    &&& s1.casualties == s0.casualties
}

/// Two launches in the same frame create one explosion and one fallout
/// zone, not two: the second falls within the cooldown of the first.
pub proof fn lemma_launch_twice_in_cooldown<P>(
    s0: Simulation<P>,
    s1: Simulation<P>,
    s2: Simulation<P>,
    land1: Option<LandGrid>,
    b1: P,
    z1: P,
    t1: usize,
    c1: Seq<Candidate<P>>,
    ok1: bool,
    land2: Option<LandGrid>,
    b2: P,
    z2: P,
    t2: usize,
    c2: Seq<Candidate<P>>,
    ok2: bool,
)
    requires
        launched(s0, s1, land1, b1, z1, t1, c1, ok1),
        launched(s1, s2, land2, b2, z2, t2, c2, ok2),
        ok1,
    ensures
        !ok2,
        s2.explosions@.len() == s0.explosions@.len() + 1,
        s2.fallout@.len() == s0.fallout@.len() + 1,
{
}

/// A launch is refused at any frame before the cooldown since the last
/// one has run out.
pub proof fn lemma_cooldown_refuses<P>(
    s0: Simulation<P>,
    s1: Simulation<P>,
    land: Option<LandGrid>,
    blast: P,
    zone: P,
    target: usize,
    candidates: Seq<Candidate<P>>,
    ok: bool,
)
    requires
        launched(s0, s1, land, blast, zone, target, candidates, ok),
        s0.frame < s0.last_launch_frame + LAUNCH_COOLDOWN_FRAMES,
    ensures
        !ok,
        s1.explosions@ == s0.explosions@,
        s1.fallout@ == s0.fallout@,
{
}

impl<P: Copy> Simulation<P> {
    /// No entities, no casualties, frame zero.
    pub fn new() -> (r: Self)
        ensures
            r.explosions@.len() == 0,
            r.fires@.len() == 0,
            r.fallout@.len() == 0,
            r.casualties == 0,
            r.frame == 0,
            r.last_launch_frame == 0,
    {
        Simulation {
            explosions: Vec::new(),
            fires: Vec::new(),
            fallout: Vec::new(),
            casualties: 0,
            frame: 0,
            last_launch_frame: 0,
        }
    }

    /// Whether a launch is allowed this frame.
    pub fn can_launch(&self) -> (r: bool)
        ensures
            r == cooldown_elapsed_spec(self.frame, self.last_launch_frame),
    {
        cooldown_elapsed(self.frame, self.last_launch_frame)
    }

    /// Advance one frame: the frame counter moves on (wrapping), explosions
    /// age and expire, fires decay on every `FIRE_DECAY_PERIOD`-th frame and
    /// go out at zero, fallout zones weaken and vanish at zero.
    pub fn advance(&mut self)
        ensures
            final(self).frame == old(self).frame.wrapping_add(1),
            final(self).explosions@ == aged_explosions(old(self).explosions@),
            final(self).fires@ == aged_fires(old(self).fires@, final(self).frame),
            final(self).fallout@ == aged_fallout(old(self).fallout@),
            final(self).casualties == old(self).casualties,
            final(self).last_launch_frame == old(self).last_launch_frame,
            all_burning(final(self).fires@),
    {
        self.frame = self.frame.wrapping_add(1);
        self.explosions = age_explosions(&self.explosions);
        self.fires = age_fires(&self.fires, self.frame);
        self.fallout = age_fallout(&self.fallout);
        proof {
            lemma_aged_fires_burning(old(self).fires@, self.frame);
        }
    }

    /// Launch at the current frame, unless the cooldown since the last
    /// launch is still running. A launch adds an explosion at `blast`, then
    /// spawns fires by rejection sampling: `candidates[a]` is the fire drawn
    /// at attempt `a`, with the fine land-grid cell it falls in; candidates
    /// on land (and burning) are kept, in order, until `target` are kept or
    /// `2 * target` attempts are spent. Last it adds a fallout zone at
    /// `zone`.
    pub fn launch(
        &mut self,
        land: &Option<LandGrid>,
        blast: P,
        zone: P,
        target: usize,
        candidates: &Vec<Candidate<P>>,
    ) -> (ok: bool)
        requires
            land matches Some(g) ==> g.wf(),
            target <= MAX_FIRES_PER_BLAST,
            all_burning(old(self).fires@),
        ensures
            launched(*old(self), *final(self), *land, blast, zone, target, candidates@, ok),
            all_burning(final(self).fires@),
    {
        if !self.can_launch() {
            return false;
        }
        self.last_launch_frame = self.frame;
        self.explosions.push(Explosion { place: blast, frame: 0 });
        let attempts = if candidates.len() < 2 * target { candidates.len() } else { 2 * target };
        let ghost tried = first_n(candidates@, 2 * target);
        assert(tried =~= candidates@.take(attempts as int));
        let found = keep_admitted(land, candidates, attempts);
        let ghost start = self.fires@;
        let ghost s1 = *self;
        let count = if found.len() < target { found.len() } else { target };
        let mut i: usize = 0;
        while i < count
            invariant
                count <= found.len(),
                count <= target,
                i <= count,
                self.fires@ == start + found@.take(i as int),
                self.explosions@ == s1.explosions@,
                self.fallout@ == s1.fallout@,
                self.frame == s1.frame,
                self.casualties == s1.casualties,
                self.last_launch_frame == s1.last_launch_frame,
            decreases count - i,
        {
            self.fires.push(found[i]);
            i = i + 1;
            assert(found@.take(i as int) =~= found@.take(i - 1).push(found@[i - 1]));
        }
        self.fallout.push(Fallout { place: zone, intensity: FALLOUT_INTENSITY });
        proof {
            assert(found@.take(count as int) =~= first_n(found@, target as int));
            lemma_kept_burning(*land, tried);
            assert forall|k: int| 0 <= k < self.fires@.len() implies #[trigger] self.fires@[k].intensity > 0 by {
                if k >= start.len() {
                    assert(self.fires@[k] == found@[k - start.len()]);
                }
            }
        }
        true
    }

    /// The spreads planned for this frame, given the position bits of each
    /// fire (`bits[j]` for fire `j`). For each fire in turn, `spread_count`
    /// gives how many fires it spawns; spawn `s` gets the seed
    /// `hash3(lon_bits, lat_bits, frame + s)` and burns
    /// `SPREAD_INTENSITY_LOSS` weaker than its parent.
    pub fn spread_plan(&self, bits: &Vec<(u64, u64)>) -> (r: Vec<Spawn>)
        requires
            bits.len() == self.fires.len(),
        ensures
            r@ == spread_plan_spec(self.fires@, bits@, self.frame, self.fires@.len() as int),
    {
        let mut out: Vec<Spawn> = Vec::new();
        let mut j: usize = 0;
        while j < self.fires.len()
            invariant
                bits.len() == self.fires.len(),
                j <= self.fires.len(),
                out@ == spread_plan_spec(self.fires@, bits@, self.frame, j as int),
            decreases self.fires.len() - j,
        {
            let parent = self.fires[j];
            let (lon_bits, lat_bits) = bits[j];
            let count = spread_count(parent.intensity, lon_bits, lat_bits, self.frame);
            let ghost before = out@;
            let ghost want = spawns_of(j as int, parent.intensity, lon_bits, lat_bits, self.frame);
            let mut s: u64 = 0;
            while s < count
                invariant
                    s <= count,
                    count == spread_count_spec(parent.intensity, lon_bits, lat_bits, self.frame),
                    count > 0 ==> parent.intensity > SPREAD_MIN_INTENSITY,
                    want == spawns_of(j as int, parent.intensity, lon_bits, lat_bits, self.frame),
                    out@ == before + want.take(s as int),
                decreases count - s,
            {
                let seed = hash3(lon_bits, lat_bits, self.frame.wrapping_add(s));
                out.push(Spawn { parent: j, seed, intensity: parent.intensity - SPREAD_INTENSITY_LOSS });
                s = s + 1;
                assert(want.take(s as int) =~= want.take(s - 1).push(want[s - 1]));
            }
            assert(want.take(s as int) =~= want);
            j = j + 1;
        }
        out
    }

    /// Admit spread fires: of `spawns` (each with the fine land-grid cell it
    /// falls in), those on land and burning are appended in order while
    /// fewer than `MAX_FIRES` fires burn; the rest are dropped.
    pub fn admit_spread(&mut self, land: &Option<LandGrid>, spawns: &Vec<Candidate<P>>)
        requires
            land matches Some(g) ==> g.wf(),
            all_burning(old(self).fires@),
        ensures
            final(self).fires@ == old(self).fires@ + first_n(
                kept(*land, spawns@),
                MAX_FIRES - (if old(self).fires@.len() < MAX_FIRES { old(self).fires@.len() as int } else { MAX_FIRES as int }),
            ),
            all_burning(final(self).fires@),
            final(self).explosions@ == old(self).explosions@,
            final(self).fallout@ == old(self).fallout@,
            final(self).frame == old(self).frame,
            final(self).casualties == old(self).casualties,
            final(self).last_launch_frame == old(self).last_launch_frame,
    {
        let found = keep_admitted(land, spawns, spawns.len());
        assert(spawns@.take(spawns.len() as int) =~= spawns@);
        let n = self.fires.len();
        let room = MAX_FIRES - (if n < MAX_FIRES { n } else { MAX_FIRES });
        let count = if found.len() < room { found.len() } else { room };
        let ghost start = self.fires@;
        let mut i: usize = 0;
        while i < count
            invariant
                count <= found.len(),
                i <= count,
                self.fires@ == start + found@.take(i as int),
                self.explosions@ == old(self).explosions@,
                self.fallout@ == old(self).fallout@,
                self.frame == old(self).frame,
                self.casualties == old(self).casualties,
                self.last_launch_frame == old(self).last_launch_frame,
            decreases count - i,
        {
            self.fires.push(found[i]);
            i = i + 1;
            assert(found@.take(i as int) =~= found@.take(i - 1).push(found@[i - 1]));
        }
        proof {
            assert(found@.take(count as int) =~= first_n(found@, room as int));
            lemma_kept_burning(*land, spawns@);
            assert forall|k: int| 0 <= k < self.fires@.len() implies #[trigger] self.fires@[k].intensity > 0 by {
                if k >= start.len() {
                    assert(self.fires@[k] == found@[k - start.len()]);
                }
            }
        }
    }

    /// Kill `killed` people in city `idx`: its population drops by that
    /// much (to no less than zero) and the casualty count rises by it
    /// (saturating).
    pub fn damage_city(&mut self, cities: &mut SpatialGrid<City<P>>, idx: usize, killed: u64)
        requires
            old(cities).wf(),
            idx < old(cities).items().len(),
        ensures
            final(cities).wf(),
            final(cities).places() == old(cities).places(),
            only_damaged(old(cities).items(), final(cities).items()),
            final(cities).items()[idx as int].population == after_damage(
                old(cities).items()[idx as int].population,
                killed,
            ),
            forall|j: int| 0 <= j < old(cities).items().len() && j != idx ==> #[trigger] final(cities).items()[j]
                == old(cities).items()[j],
            final(self).casualties == old(self).casualties.saturating_add(killed),
            final(self).fires@ == old(self).fires@,
            final(self).explosions@ == old(self).explosions@,
            final(self).fallout@ == old(self).fallout@,
            final(self).frame == old(self).frame,
            final(self).last_launch_frame == old(self).last_launch_frame,
    {
        let ghost g0 = *cities;
        match cities.get_mut(idx) {
            Some(c) => {
                c.population = c.population.saturating_sub(killed);
            },
            None => {},
        }
        proof {
            cities.lemma_wf_kept(&g0);
        }
        self.casualties = self.casualties.saturating_add(killed);
    }

    /// Blast damage: each blow `(city index, people killed)` of `hits`
    /// lands in turn on a city that still has people; blows on destroyed or
    /// unknown cities do nothing.
    pub fn apply_blast_damage(&mut self, cities: &mut SpatialGrid<City<P>>, hits: &Vec<(usize, u64)>)
        requires
            old(cities).wf(),
        ensures
            final(cities).wf(),
            final(cities).places() == old(cities).places(),
            only_damaged(old(cities).items(), final(cities).items()),
            (populations(final(cities).items()), final(self).casualties) == after_hits(
                populations(old(cities).items()),
                old(self).casualties,
                hits@,
            ),
            final(self).fires@ == old(self).fires@,
            final(self).fallout@ == old(self).fallout@,
    {
        let ghost c0 = cities.items();
        let mut i: usize = 0;
        while i < hits.len()
            invariant
                cities.wf(),
                cities.places() == old(cities).places(),
                only_damaged(c0, cities.items()),
                c0 == old(cities).items(),
                (populations(cities.items()), self.casualties) == after_hits(
                    populations(c0),
                    old(self).casualties,
                    hits@.take(i as int),
                ),
                self.fires@ == old(self).fires@,
                self.fallout@ == old(self).fallout@,
                i <= hits.len(),
            decreases hits.len() - i,
        {
            let (idx, killed) = hits[i];
            assert(hits@.take(i + 1).drop_last() =~= hits@.take(i as int));
            let ghost before = cities.items();
            if let Some(c) = cities.get(idx) {
                if c.population > 0 {
                    self.damage_city(cities, idx, killed);
                    proof {
                        lemma_only_damaged_trans(c0, before, cities.items());
                        assert(populations(cities.items()) =~= populations(before).update(
                            idx as int,
                            after_damage(before[idx as int].population, killed),
                        ));
                    }
                }
            }
            i = i + 1;
        }
        assert(hits@.take(i as int) =~= hits@);
    }

    /// Fallout damage from a zone of `intensity`: each city of `reached`
    /// that still has people loses `fallout_damage(population, intensity)`.
    pub fn apply_fallout_damage(&mut self, cities: &mut SpatialGrid<City<P>>, reached: &Vec<usize>, intensity: u16)
        requires
            old(cities).wf(),
        ensures
            final(cities).wf(),
            final(cities).places() == old(cities).places(),
            only_damaged(old(cities).items(), final(cities).items()),
            (populations(final(cities).items()), final(self).casualties) == after_fallout(
                populations(old(cities).items()),
                old(self).casualties,
                reached@,
                intensity,
            ),
            final(self).fires@ == old(self).fires@,
            final(self).fallout@ == old(self).fallout@,
    {
        let ghost c0 = cities.items();
        let mut i: usize = 0;
        while i < reached.len()
            invariant
                cities.wf(),
                cities.places() == old(cities).places(),
                only_damaged(c0, cities.items()),
                c0 == old(cities).items(),
                (populations(cities.items()), self.casualties) == after_fallout(
                    populations(c0),
                    old(self).casualties,
                    reached@.take(i as int),
                    intensity,
                ),
                self.fires@ == old(self).fires@,
                self.fallout@ == old(self).fallout@,
                i <= reached.len(),
            decreases reached.len() - i,
        {
            let idx = reached[i];
            assert(reached@.take(i + 1).drop_last() =~= reached@.take(i as int));
            let ghost before = cities.items();
            if let Some(c) = cities.get(idx) {
                let pop = c.population;
                if pop > 0 {
                    let killed = fallout_damage(pop, intensity);
                    self.damage_city(cities, idx, killed);
                    proof {
                        lemma_only_damaged_trans(c0, before, cities.items());
                        assert(populations(cities.items()) =~= populations(before).update(
                            idx as int,
                            after_damage(pop, killed),
                        ));
                    }
                }
            }
            i = i + 1;
        }
        assert(reached@.take(i as int) =~= reached@);
    }

    /// Fire damage: city `i`, when it still has people and burning cells
    /// lie in the 3 x 3 neighbourhood of its cell `cells[i]` of `grid`, loses
    /// `fire_damage(population, burning cells)` people.
    pub fn apply_fire_damage(&mut self, cities: &mut SpatialGrid<City<P>>, grid: &FireGrid, cells: &Vec<(i64, i64)>)
        requires
            old(cities).wf(),
            grid.wf(),
            grid.width() > 0,
            grid.height() > 0,
            cells.len() == old(cities).items().len(),
        ensures
            final(cities).wf(),
            final(cities).places() == old(cities).places(),
            only_damaged(old(cities).items(), final(cities).items()),
            (populations(final(cities).items()), final(self).casualties) == after_fire(
                populations(old(cities).items()),
                old(self).casualties,
                grid,
                cells@,
                cells@.len() as int,
            ),
            final(self).fires@ == old(self).fires@,
            final(self).fallout@ == old(self).fallout@,
    {
        let ghost c0 = cities.items();
        let n = cells.len();
        let mut idx: usize = 0;
        while idx < n
            invariant
                cities.wf(),
                cities.places() == old(cities).places(),
                grid.wf(),
                grid.width() > 0,
                grid.height() > 0,
                only_damaged(c0, cities.items()),
                c0 == old(cities).items(),
                n == c0.len(),
                n == cells.len(),
                (populations(cities.items()), self.casualties) == after_fire(
                    populations(c0),
                    old(self).casualties,
                    grid,
                    cells@,
                    idx as int,
                ),
                forall|j: int| idx <= j < n ==> #[trigger] cities.items()[j] == c0[j],
                self.fires@ == old(self).fires@,
                self.fallout@ == old(self).fallout@,
                idx <= n,
            decreases n - idx,
        {
            let ghost before = cities.items();
            let (cx, cy) = cells[idx];
            if let Some(c) = cities.get(idx) {
                let pop = c.population;
                if pop > 0 && cx > i64::MIN && cx < i64::MAX && cy > i64::MIN && cy < i64::MAX {
                    let burning = grid.burning_neighbours(cx, cy);
                    if burning > 0 {
                        let killed = fire_damage(pop, burning);
                        self.damage_city(cities, idx, killed);
                        proof {
                            lemma_only_damaged_trans(c0, before, cities.items());
                            assert(populations(cities.items()) =~= populations(before).update(
                                idx as int,
                                after_damage(pop, killed),
                            ));
                        }
                    }
                }
            }
            idx = idx + 1;
        }
    }

    /// Whether ongoing damage is dealt this frame.
    pub fn is_damage_frame(&self) -> (r: bool)
        ensures
            r == (self.frame % DAMAGE_PERIOD == 0),
    {
        self.frame % DAMAGE_PERIOD == 0
    }

    /// Whether anything is still alive.
    pub fn is_active(&self) -> (r: bool)
        ensures
            r == (self.explosions@.len() > 0 || self.fires@.len() > 0 || self.fallout@.len() > 0),
    {
        self.explosions.len() > 0 || self.fires.len() > 0 || self.fallout.len() > 0
    }
}

} // verus!
