use photomosaic::html::{generate_html, HTML_AFTER_DATA, HTML_BEFORE_DATA, HTML_BEFORE_URL};
use photomosaic::order::text_less;
use photomosaic::settings::{
    check_options, colorspace_name, default_thread_count, estimated_solving_time, fair_problem_too_large,
    is_supported_extension, TileSet,
};
use photomosaic::tile_map::{sorted_unique_names, tile_layout};
use photomosaic::Colorspace;
use photomosaic::tile_info::parse_grid_dimensions;

fn rows(r: &[&[&str]]) -> Vec<Vec<String>> {
    r.iter().map(|row| row.iter().map(|s| s.to_string()).collect()).collect()
}

#[test]
fn layout_is_row_major() {
    let g = rows(&[&["a", "b"], &["c"]]);
    let l = tile_layout(&g);
    let v: Vec<(usize, usize, String)> = l.into_iter().map(|p| (p.row, p.col, p.file)).collect();
    assert_eq!(v, vec![(0, 0, "a".to_string()), (0, 1, "b".to_string()), (1, 0, "c".to_string())]);
}

#[test]
fn names_sorted_and_distinct() {
    let g = rows(&[&["b.png", "a.png", "b.png"], &["C.png", "a.png", "é.png"]]);
    let mut expected: Vec<String> = vec!["b.png", "a.png", "C.png", "é.png"].into_iter().map(String::from).collect();
    expected.sort();
    assert_eq!(sorted_unique_names(&g), expected);
}

#[test]
fn text_order_is_string_order() {
    let words = ["", "a", "ab", "b", "B", "é", "z", "aa"];
    for x in words.iter() {
        for y in words.iter() {
            assert_eq!(text_less(&x.to_string(), &y.to_string()), x < y);
        }
    }
}

#[test]
fn html_wraps_url_and_data() {
    let html = generate_html("file:///tmp/m.png", "{\"x\":1}").unwrap();
    assert!(html.starts_with("<!DOCTYPE html>\n"));
    assert!(html.contains("<img id=\"mosaic-image\" src=\"file:///tmp/m.png\" alt=\"Mosaic\">"));
    assert!(html.contains("const data = {\"x\":1};\n"));
    assert!(html.ends_with("</script>\n</body>\n</html>\n"));
    assert_eq!(html.len(), HTML_BEFORE_URL.len() + 17 + HTML_BEFORE_DATA.len() + 7 + HTML_AFTER_DATA.len());
}

#[test]
fn colorspace_names() {
    assert_eq!(colorspace_name(Colorspace::Lab), "lab");
    assert_eq!(colorspace_name(Colorspace::Bgr), "bgr");
    assert_eq!(colorspace_name(Colorspace::Luv), "luv");
}

#[test]
fn thread_count_default() {
    assert_eq!(default_thread_count(8), 4);
    assert_eq!(default_thread_count(1), 1);
    assert_eq!(default_thread_count(0), 1);
}

#[test]
fn supported_extensions_any_case() {
    assert!(is_supported_extension("jpg"));
    assert!(is_supported_extension("JPEG"));
    assert!(is_supported_extension("WebP"));
    assert!(is_supported_extension("TIFF"));
    assert!(is_supported_extension("tif"));
    assert!(!is_supported_extension("svg"));
    assert!(!is_supported_extension(""));
    assert!(!is_supported_extension("pngx"));
}

#[test]
fn option_checks() {
    assert_eq!(check_options(1, 0), Ok(()));
    assert_eq!(check_options(2, -1), Ok(()));
    assert_eq!(check_options(0, 0), Err("Error: --size must be 1 or 2 values".to_string()));
    assert_eq!(check_options(3, 5), Err("Error: --size must be 1 or 2 values".to_string()));
    assert_eq!(check_options(1, 2), Err("Error: --auto_rotate must be -1, 0, or 1".to_string()));
}

#[test]
fn fair_warning_levels() {
    assert!(!fair_problem_too_large(5_000_000));
    assert!(fair_problem_too_large(5_000_001));
    assert_eq!(estimated_solving_time(100_000_001), "12+ hours");
    assert_eq!(estimated_solving_time(60_000_000), "2-12 hours");
    assert_eq!(estimated_solving_time(6_000_000), "30+ minutes");
}

#[test]
fn tile_set_size() {
    let t = TileSet { tiles: vec![], names: vec![] };
    assert!(t.is_empty());
    assert_eq!(t.len(), 0);
}

#[test]
fn header_line_reads_back_for_any_size() {
    for (w, h) in [(0u32, 0u32), (0, 7), (80, 45), (u32::MAX, 1)] {
        assert_eq!(parse_grid_dimensions(&format!("Grid dimension: {}x{}", w, h)), Ok((w, h)));
    }
}
