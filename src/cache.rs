//! Display settings and the single-slot cache of the static map layers,
//! keyed on the quantized view.

use vstd::prelude::*;
use crate::canvas::{BrailleCanvas, CanvasView};

verus! {

/// Level of detail of the line data drawn.
#[derive(Clone, Copy, PartialEq, Eq, Structural, Debug)]
pub enum Lod {
    /// World view.
    Low,
    /// Continental view.
    Medium,
    /// Regional view.
    High,
}

/// The tier of coastline data drawn at level of detail `lod`: the finest
/// tier not above `lod` that has data, falling back to `Low`.
pub open spec fn coastline_tier_spec(lod: Lod, has_high: bool, has_medium: bool) -> Lod {
    if lod == Lod::High && has_high {
        Lod::High
    } else if (lod == Lod::High || lod == Lod::Medium) && has_medium {
        Lod::Medium
    } else {
        Lod::Low
    }
}

/// The tier of coastline data drawn at `lod`, given which finer tiers
/// hold data.
pub fn coastline_tier(lod: Lod, has_high: bool, has_medium: bool) -> (r: Lod)
    ensures
        r == coastline_tier_spec(lod, has_high, has_medium),
{
    let finer_than_low = match lod {
        Lod::Low => false,
        _ => true,
    };
    if lod == Lod::High && has_high {
        Lod::High
    } else if finer_than_low && has_medium {
        Lod::Medium
    } else {
        Lod::Low
    }
}

/// The tier of border data drawn at `lod`: high detail when asked for and
/// loaded, else medium (border data has no low tier).
pub fn border_tier(lod: Lod, has_high: bool) -> (r: Lod)
    ensures
        r == (if lod == Lod::High && has_high { Lod::High } else { Lod::Medium }),
{
    if lod == Lod::High && has_high {
        Lod::High
    } else {
        Lod::Medium
    }
}

/// Which map layers are shown.
#[derive(Clone, Copy, PartialEq, Eq, Structural, Debug)]
pub struct DisplaySettings {
    pub show_coastlines: bool,
    pub show_borders: bool,
    pub show_states: bool,
    pub show_counties: bool,
    pub show_cities: bool,
    pub show_labels: bool,
    pub show_population: bool,
}

impl Default for DisplaySettings {
    /// Every layer shown, population figures hidden.
    fn default() -> (r: Self)
        ensures
            r.show_coastlines && r.show_borders && r.show_states && r.show_counties,
            r.show_cities && r.show_labels,
            !r.show_population,
    {
        DisplaySettings {
            show_coastlines: true,
            show_borders: true,
            show_states: true,
            show_counties: true,
            show_cities: true,
            show_labels: true,
            show_population: false,
        }
    }
}

/// Quantized view parameters that the static layers depend on. Two views
/// with equal keys draw the same static layers.
#[derive(Clone, Copy, PartialEq, Eq, Structural, Debug)]
pub struct RenderCacheKey {
    pub width: usize,
    pub height: usize,
    /// Centre longitude in thousandths of a degree.
    pub center_lon: i64,
    /// Centre latitude in thousandths of a degree.
    pub center_lat: i64,
    /// Effective zoom in hundredths.
    pub zoom: i64,
    pub is_globe: bool,
    pub show_coastlines: bool,
    pub show_borders: bool,
    pub show_states: bool,
    pub show_counties: bool,
}

impl RenderCacheKey {
    /// The key of a view: its pixel size, its quantized centre and zoom,
    /// its projection kind and the static layers shown.
    pub fn from_projection(
        center_lon_milli: i64,
        center_lat_milli: i64,
        zoom_centi: i64,
        is_globe: bool,
        width: usize,
        height: usize,
        settings: &DisplaySettings,
    ) -> (r: Self)
        ensures
            r == (RenderCacheKey {
                width,
                height,
                center_lon: center_lon_milli,
                center_lat: center_lat_milli,
                zoom: zoom_centi,
                is_globe,
                show_coastlines: settings.show_coastlines,
                show_borders: settings.show_borders,
                show_states: settings.show_states,
                show_counties: settings.show_counties,
            }),
    {
        RenderCacheKey {
            width,
            height,
            center_lon: center_lon_milli,
            center_lat: center_lat_milli,
            zoom: zoom_centi,
            is_globe,
            show_coastlines: settings.show_coastlines,
            show_borders: settings.show_borders,
            show_states: settings.show_states,
            show_counties: settings.show_counties,
        }
    }
}

/// Model of the four static layers.
pub struct LayersView {
    pub coastlines: CanvasView,
    pub borders: CanvasView,
    pub states: CanvasView,
    pub counties: CanvasView,
}

/// The rasterized static layers, one canvas each.
pub struct StaticLayers {
    pub coastlines: BrailleCanvas,
    pub borders: BrailleCanvas,
    pub states: BrailleCanvas,
    pub counties: BrailleCanvas,
}

impl View for StaticLayers {
    type V = LayersView;

    open spec fn view(&self) -> LayersView {
        LayersView {
            coastlines: self.coastlines@,
            borders: self.borders@,
            states: self.states@,
            counties: self.counties@,
        }
    }
}

impl Clone for StaticLayers {
    fn clone(&self) -> (r: Self)
        ensures
            r@ == self@,
    {
        StaticLayers {
            coastlines: self.coastlines.clone(),
            borders: self.borders.clone(),
            states: self.states.clone(),
            counties: self.counties.clone(),
        }
    }
}

/// Single-slot cache: the static layers of the last view drawn, with its
/// key.
pub struct RenderCache {
    entry: Option<(RenderCacheKey, StaticLayers)>,
}

impl RenderCache {
    /// What the cache holds: the key and layers of the last view stored.
    pub closed spec fn held(&self) -> Option<(RenderCacheKey, LayersView)> {
        match self.entry {
            Some(e) => Some((e.0, e.1@)),
            None => None,
        }
    }

    /// What a lookup of `key` finds.
    pub open spec fn lookup_spec(&self, key: RenderCacheKey) -> Option<LayersView> {
        match self.held() {
            Some(e) => if e.0 == key { Some(e.1) } else { None },
            None => None,
        }
    }

    /// An empty cache.
    pub fn new() -> (r: Self)
        ensures
            r.held() is None,
    {
        RenderCache { entry: None }
    }

    /// A copy of the cached layers when they were drawn for `key`.
    pub fn lookup(&self, key: &RenderCacheKey) -> (r: Option<StaticLayers>)
        ensures
            match r {
                Some(l) => self.lookup_spec(*key) == Some(l@),
                None => self.lookup_spec(*key) is None,
            },
    {
        match &self.entry {
            Some(e) => {
                if e.0 == *key {
                    Some(e.1.clone())
                } else {
                    None
                }
            },
            None => None,
        }
    }

    /// Replace the cached entry with `layers`, drawn for `key`.
    pub fn store(&mut self, key: RenderCacheKey, layers: &StaticLayers)
        ensures
            final(self).held() == Some((key, layers@)),
    {
        self.entry = Some((key, layers.clone()));
    }

    /// The static layers for the view with key `key`: the cached copy when
    /// the last view drawn had this key, else freshly drawn by `draw`, which
    /// then replace the cache's entry.
    pub fn layers_for<F>(&mut self, key: RenderCacheKey, draw: F) -> (r: StaticLayers)
        where
            F: FnOnce() -> StaticLayers,
        requires
            call_requires(draw, ()),
        ensures
            final(self).held() == Some((key, r@)),
            old(self).lookup_spec(key) matches Some(l) ==> r@ == l,
            old(self).lookup_spec(key) is None ==> exists|d: StaticLayers| call_ensures(draw, (), d) && d@ == r@,
    {
        match self.lookup(&key) {
            Some(l) => {
                proof {
                    assert(self.held() == Some((key, l@)));
                }
                l
            },
            None => {
                let l = draw();
                self.store(key, &l);
                l
            },
        }
    }
}

/// The cache serves what it stored: right after the layers of a view are
/// stored, a lookup of the same key finds them unchanged, and a lookup of
/// any other key (a view that moved by more than the quantization step, or
/// changed size, projection or shown layers) finds nothing.
pub proof fn lemma_cache_serves_stored(c: RenderCache, key: RenderCacheKey, layers: LayersView, other: RenderCacheKey)
    requires
        c.held() == Some((key, layers)),
    ensures
        c.lookup_spec(key) == Some(layers),
        other != key ==> c.lookup_spec(other) is None,
{
}

} // verus!
