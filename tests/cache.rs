use std::cell::Cell;
use worldmap::cache::{border_tier, coastline_tier, DisplaySettings, Lod, RenderCache, RenderCacheKey, StaticLayers};
use worldmap::canvas::BrailleCanvas;
use worldmap::geometry::draw_line;

fn key_at(lon_milli: i64, settings: &DisplaySettings) -> RenderCacheKey {
    RenderCacheKey::from_projection(lon_milli, 20_000, 100, false, 4, 2, settings)
}

fn drawn(offset: i32) -> StaticLayers {
    let mut coastlines = BrailleCanvas::new(4, 2);
    draw_line(&mut coastlines, offset, 0, offset + 5, 7);
    StaticLayers {
        coastlines,
        borders: BrailleCanvas::new(4, 2),
        states: BrailleCanvas::new(4, 2),
        counties: BrailleCanvas::new(4, 2),
    }
}

#[test]
fn default_settings_show_all_but_population() {
    let s = DisplaySettings::default();
    assert!(s.show_coastlines && s.show_borders && s.show_states && s.show_counties);
    assert!(s.show_cities && s.show_labels);
    assert!(!s.show_population);
    assert_ne!(Lod::Low, Lod::High);
}

#[test]
fn key_records_view_and_static_layer_toggles() {
    let mut s = DisplaySettings::default();
    s.show_states = false;
    let k = RenderCacheKey::from_projection(-1500, 42_000, 250, true, 80, 24, &s);
    assert_eq!(k.center_lon, -1500);
    assert_eq!(k.center_lat, 42_000);
    assert_eq!(k.zoom, 250);
    assert!(k.is_globe);
    assert!(!k.show_states);
    assert_eq!((k.width, k.height), (80, 24));
}

#[test]
fn same_view_twice_is_served_from_cache() {
    let settings = DisplaySettings::default();
    let mut cache = RenderCache::new();
    let calls = Cell::new(0);
    let first = cache.layers_for(key_at(0, &settings), || {
        calls.set(calls.get() + 1);
        drawn(0)
    });
    let second = cache.layers_for(key_at(0, &settings), || {
        calls.set(calls.get() + 1);
        drawn(3)
    });
    assert_eq!(calls.get(), 1);
    assert_eq!(first.coastlines.to_string(), second.coastlines.to_string());
    assert_eq!(second.coastlines.to_string(), drawn(0).coastlines.to_string());
}

#[test]
fn moved_view_is_drawn_afresh() {
    let settings = DisplaySettings::default();
    let mut cache = RenderCache::new();
    let _ = cache.layers_for(key_at(0, &settings), || drawn(0));
    let moved = cache.layers_for(key_at(1, &settings), || drawn(3));
    assert_eq!(moved.coastlines.to_string(), drawn(3).coastlines.to_string());
    assert_ne!(moved.coastlines.to_string(), drawn(0).coastlines.to_string());
    assert!(cache.lookup(&key_at(0, &settings)).is_none());
    assert!(cache.lookup(&key_at(1, &settings)).is_some());
}

#[test]
fn toggling_a_layer_misses_the_cache() {
    let settings = DisplaySettings::default();
    let mut cache = RenderCache::new();
    cache.store(key_at(0, &settings), &drawn(0));
    let mut hidden = settings;
    hidden.show_borders = false;
    assert!(cache.lookup(&key_at(0, &hidden)).is_none());
    assert!(cache.lookup(&key_at(0, &settings)).is_some());
}

#[test]
fn coastline_tier_falls_back_to_coarser_data() {
    assert_eq!(coastline_tier(Lod::High, true, true), Lod::High);
    assert_eq!(coastline_tier(Lod::High, false, true), Lod::Medium);
    assert_eq!(coastline_tier(Lod::High, false, false), Lod::Low);
    assert_eq!(coastline_tier(Lod::Medium, true, false), Lod::Low);
    assert_eq!(coastline_tier(Lod::Low, true, true), Lod::Low);
}

#[test]
fn border_tier_uses_medium_unless_high_loaded() {
    assert_eq!(border_tier(Lod::High, true), Lod::High);
    assert_eq!(border_tier(Lod::High, false), Lod::Medium);
    assert_eq!(border_tier(Lod::Low, true), Lod::Medium);
}
