use photomosaic::cache::format_file_id;
use photomosaic::tile_info::{build_tile_info, parse_grid_dimensions, parse_tile_info};

#[test]
fn grid_dimensions_parse() {
    assert_eq!(parse_grid_dimensions("Grid dimension: 80x45"), Ok((80, 45)));
    assert_eq!(parse_grid_dimensions("Grid dimension:  12 x 7 "), Ok((12, 7)));
    assert_eq!(parse_grid_dimensions("Grid dimension: +3x4"), Ok((3, 4)));
}

#[test]
fn grid_dimensions_errors() {
    assert_eq!(parse_grid_dimensions("Grid dimension 80x45"), Err("Invalid grid dimension format".to_string()));
    assert_eq!(parse_grid_dimensions("Grid dimension: 80"), Err("Invalid grid dimension format".to_string()));
    assert_eq!(parse_grid_dimensions("a: 1x2x3"), Err("Invalid grid dimension format".to_string()));
    assert_eq!(parse_grid_dimensions("a: -1x2"), Err("Failed to parse grid width".to_string()));
    assert_eq!(parse_grid_dimensions("a: 1x"), Err("Failed to parse grid height".to_string()));
    assert_eq!(parse_grid_dimensions("a: 4294967296x1"), Err("Failed to parse grid width".to_string()));
    assert_eq!(parse_grid_dimensions("a: 4294967295x1"), Ok((4294967295, 1)));
    // only the text between the first and second colon counts
    assert_eq!(parse_grid_dimensions("a: 2x3: junk"), Ok((2, 3)));
}

#[test]
fn tile_info_text_layout() {
    let names = vec!["a.png".to_string(), "b.jpg".to_string()];
    let info = build_tile_info(2, 2, &vec![0, 1, 1, 0], &names);
    assert_eq!(info, "Grid dimension: 2x2\na.png,b.jpg\nb.jpg,a.png");
}

#[test]
fn tile_info_partial_row_and_unknown() {
    let names = vec!["a.png".to_string()];
    let info = build_tile_info(2, 2, &vec![0, 5, 0], &names);
    assert_eq!(info, "Grid dimension: 2x2\na.png,unknown\na.png,");
}

#[test]
fn tile_info_empty_assignment() {
    let info = build_tile_info(3, 0, &vec![], &vec![]);
    assert_eq!(info, "Grid dimension: 3x0\n");
}

#[test]
fn tile_info_round_trip() {
    let names = vec!["x1.png".to_string(), "y 2.jpg".to_string(), "z.gif".to_string()];
    let a = vec![2, 0, 1, 1, 1, 0];
    let info = build_tile_info(3, 2, &a, &names);
    let g = parse_tile_info(&info).unwrap();
    assert_eq!((g.grid_w, g.grid_h), (3, 2));
    assert_eq!(
        g.rows,
        vec![
            vec!["z.gif".to_string(), "x1.png".to_string(), "y 2.jpg".to_string()],
            vec!["y 2.jpg".to_string(), "y 2.jpg".to_string(), "x1.png".to_string()],
        ]
    );
}

#[test]
fn tile_info_parse_skips_empty_lines_and_trims() {
    let g = parse_tile_info("Grid dimension: 2x1\r\n\n a , b \r\n").unwrap();
    assert_eq!((g.grid_w, g.grid_h), (2, 1));
    assert_eq!(g.rows, vec![vec!["a".to_string(), "b".to_string()]]);
}

#[test]
fn tile_info_parse_errors() {
    assert_eq!(parse_tile_info("").err(), Some("Empty tile info".to_string()));
    assert_eq!(parse_tile_info("nothing here\na,b").err(), Some("Invalid grid dimension format".to_string()));
}

#[test]
fn file_id_is_hex_size_and_mtime() {
    assert_eq!(format_file_id(0, 0), "0_0");
    assert_eq!(format_file_id(255, 4096), "ff_1000");
    assert_eq!(format_file_id(u64::MAX, 1700000000), format!("{:x}_{:x}", u64::MAX, 1700000000u64));
}
