use photomosaic::cache::TileCache;

fn bits(v: &[f32]) -> Vec<u32> {
    v.iter().map(|f| f.to_bits()).collect()
}

#[test]
fn empty_cache_has_nothing() {
    let c = TileCache::new();
    assert_eq!(c.get_features("a.png", "1_2", "lab"), None);
}

#[test]
fn read_gives_back_write() {
    let mut c = TileCache::new();
    c.set_features("a.png", "10_20", "lab", &bits(&[0.5, -1.25, 3.0]));
    assert_eq!(c.get_features("a.png", "10_20", "lab"), Some(bits(&[0.5, -1.25, 3.0])));
    assert_eq!(c.get_features("a.png", "10_21", "lab"), None);
    assert_eq!(c.get_features("a.png", "10_20", "hsv"), None);
    assert_eq!(c.get_features("b.png", "10_20", "lab"), None);
}

#[test]
fn write_keeps_other_colorspaces_of_same_file() {
    let mut c = TileCache::new();
    c.set_features("a.png", "1", "lab", &bits(&[1.0]));
    c.set_features("a.png", "1", "hsv", &bits(&[2.0]));
    assert_eq!(c.get_features("a.png", "1", "lab"), Some(bits(&[1.0])));
    assert_eq!(c.get_features("a.png", "1", "hsv"), Some(bits(&[2.0])));
}

#[test]
fn new_identity_drops_old_features() {
    let mut c = TileCache::new();
    c.set_features("a.png", "1", "lab", &bits(&[1.0]));
    c.set_features("a.png", "2", "hsv", &bits(&[2.0]));
    assert_eq!(c.get_features("a.png", "2", "lab"), None);
    assert_eq!(c.get_features("a.png", "1", "lab"), None);
    assert_eq!(c.get_features("a.png", "2", "hsv"), Some(bits(&[2.0])));
}

#[test]
fn overwrite_replaces_values() {
    let mut c = TileCache::new();
    c.set_features("a.png", "1", "lab", &bits(&[1.0, 2.0]));
    c.set_features("a.png", "1", "lab", &bits(&[3.0]));
    assert_eq!(c.get_features("a.png", "1", "lab"), Some(bits(&[3.0])));
}

#[test]
fn non_finite_values_are_not_kept() {
    let mut c = TileCache::new();
    c.set_features("a.png", "1", "lab", &bits(&[1.0, f32::NAN, f32::INFINITY, -2.0, f32::NEG_INFINITY]));
    assert_eq!(c.get_features("a.png", "1", "lab"), Some(bits(&[1.0, -2.0])));
}
