use photomosaic::compose::{compose_fair, compose_unfair};
use photomosaic::raster::{
    assemble, block_size, crop, place_centered, resize_center_crop, resize_fit, resize_stretch, rotate270,
    rotate90, Raster,
};

fn raster(w: u32, h: u32, f: impl Fn(u32, u32) -> [u8; 4]) -> Raster {
    let mut pixels = Vec::new();
    for y in 0..h {
        for x in 0..w {
            pixels.push(f(x, y));
        }
    }
    Raster { width: w, height: h, pixels }
}

fn px(r: &Raster, x: u32, y: u32) -> [u8; 4] {
    r.pixels[(y * r.width + x) as usize]
}

const W: [u8; 4] = [255, 255, 255, 255];

#[test]
fn block_size_rounds_up() {
    assert_eq!(block_size(100, 8), 13);
    assert_eq!(block_size(96, 8), 12);
}

#[test]
fn assemble_places_tiles_by_block() {
    let a = raster(2, 1, |x, _| [x as u8, 0, 0, 255]);
    let b = raster(2, 1, |x, _| [0, x as u8 + 10, 0, 255]);
    let m = assemble(&vec![a, b], &vec![1, 0, 0], 2, 2, 2, 1);
    assert_eq!((m.width, m.height), (4, 2));
    assert_eq!(px(&m, 0, 0), [0, 10, 0, 255]);
    assert_eq!(px(&m, 1, 0), [0, 11, 0, 255]);
    assert_eq!(px(&m, 2, 0), [0, 0, 0, 255]);
    assert_eq!(px(&m, 3, 0), [1, 0, 0, 255]);
    assert_eq!(px(&m, 1, 1), [1, 0, 0, 255]);
    // no block for the last cell: white
    assert_eq!(px(&m, 2, 1), W);
    assert_eq!(px(&m, 3, 1), W);
}

#[test]
fn assemble_draws_tiles_of_other_sizes_in_block_order() {
    // a 1x1 tile leaves the rest of its 2x2 cell white; a 3x2 tile spills
    // into the next cell and is cut at the edge of the mosaic
    let small = raster(1, 1, |_, _| [7, 7, 7, 255]);
    let big = raster(3, 2, |x, y| [x as u8, y as u8, 9, 255]);
    let m = assemble(&vec![small, big], &vec![1, 0], 2, 1, 2, 2);
    assert_eq!((m.width, m.height), (4, 2));
    // block 0 drew the big tile over cells 0 and part of 1 ...
    assert_eq!(px(&m, 0, 0), [0, 0, 9, 255]);
    assert_eq!(px(&m, 1, 1), [1, 1, 9, 255]);
    // ... then block 1 drew the small tile at (2, 0), over the big one
    assert_eq!(px(&m, 2, 0), [7, 7, 7, 255]);
    assert_eq!(px(&m, 2, 1), [2, 1, 9, 255]);
    assert_eq!(px(&m, 3, 0), W);
    assert_eq!(px(&m, 3, 1), W);
}

#[test]
fn crop_cuts_to_image() {
    let img = raster(4, 3, |x, y| [x as u8, y as u8, 0, 255]);
    let c = crop(&img, 2, 1, 5, 5);
    assert_eq!((c.width, c.height), (2, 2));
    assert_eq!(px(&c, 0, 0), [2, 1, 0, 255]);
    assert_eq!(px(&c, 1, 1), [3, 2, 0, 255]);
    let e = crop(&img, 9, 9, 2, 2);
    assert_eq!((e.width, e.height), (0, 0));
}

#[test]
fn rotations_match_image_crate() {
    let img = raster(3, 2, |x, y| [x as u8, y as u8, 7, 255]);
    let buf = image::RgbaImage::from_raw(3, 2, img.pixels.concat()).unwrap();
    let r90 = rotate90(&img);
    let e90 = image::imageops::rotate90(&buf);
    assert_eq!((r90.width, r90.height), e90.dimensions());
    assert_eq!(r90.pixels.concat(), e90.into_raw());
    let r270 = rotate270(&img);
    let e270 = image::imageops::rotate270(&buf);
    assert_eq!((r270.width, r270.height), e270.dimensions());
    assert_eq!(r270.pixels.concat(), e270.into_raw());
}

#[test]
fn centred_on_white() {
    let img = raster(2, 1, |_, _| [1, 2, 3, 4]);
    let r = place_centered(&img, 4, 3);
    assert_eq!(px(&r, 0, 0), W);
    assert_eq!(px(&r, 1, 1), [1, 2, 3, 4]);
    assert_eq!(px(&r, 2, 1), [1, 2, 3, 4]);
    assert_eq!(px(&r, 3, 1), W);
    assert_eq!(px(&r, 1, 2), W);
}

#[test]
fn resize_same_size_is_copy() {
    let img = raster(3, 3, |x, y| [x as u8 * 40, y as u8 * 40, 9, 255]);
    let r = resize_stretch(&img, 3, 3);
    assert_eq!(r.pixels, img.pixels);
}

#[test]
fn resize_changes_size() {
    let img = raster(4, 4, |_, _| [100, 100, 100, 255]);
    let r = resize_stretch(&img, 2, 3);
    assert_eq!((r.width, r.height, r.pixels.len()), (2, 3, 6));
    // a uniform image stays uniform
    assert!(r.pixels.iter().all(|p| *p == [100, 100, 100, 255]));
}

#[test]
fn center_crop_takes_middle() {
    // 4 wide, 2 high; crop 2x2 out of the middle, keep size
    let img = raster(4, 2, |x, y| [x as u8, y as u8, 0, 255]);
    let r = resize_center_crop(&img, 2, 2, 2, 2);
    assert_eq!(r.pixels, vec![[1, 0, 0, 255], [2, 0, 0, 255], [1, 1, 0, 255], [2, 1, 0, 255]]);
}

#[test]
fn fit_letterboxes() {
    let img = raster(2, 2, |_, _| [9, 9, 9, 255]);
    let r = resize_fit(&img, 2, 2, 2, 4);
    assert_eq!((r.width, r.height), (2, 4));
    assert_eq!(px(&r, 0, 0), W);
    assert_eq!(px(&r, 0, 1), [9, 9, 9, 255]);
    assert_eq!(px(&r, 1, 2), [9, 9, 9, 255]);
    assert_eq!(px(&r, 1, 3), W);
}

#[test]
fn compose_unfair_builds_all_three() {
    let a = raster(1, 1, |_, _| [1, 0, 0, 255]);
    let b = raster(1, 1, |_, _| [2, 0, 0, 255]);
    let names = vec!["a.png".to_string(), "b.png".to_string()];
    // 2x1 grid, block 0 prefers tile 1, block 1 prefers tile 1 as well
    let keys = vec![5, 1, 5, 1];
    let (assignment, image, info) = compose_unfair(&keys, 2, 1, &vec![raster(1, 1, |_, _| [1, 0, 0, 255]), raster(1, 1, |_, _| [2, 0, 0, 255])], &names, 1, 1, true);
    assert_eq!(assignment, vec![1, 0]);
    assert_eq!(image.pixels, vec![[2, 0, 0, 255], [1, 0, 0, 255]]);
    assert_eq!(info, "Grid dimension: 2x1\nb.png,a.png");
    // without a usage limit both blocks take their closest tile
    let (assignment, image, info) = compose_unfair(&keys, 2, 1, &vec![a, b], &names, 1, 1, false);
    assert_eq!(assignment, vec![1, 1]);
    assert_eq!(image.pixels, vec![[2, 0, 0, 255], [2, 0, 0, 255]]);
    assert_eq!(info, "Grid dimension: 2x1\nb.png,b.png");
}

#[test]
fn compose_fair_names_copies_by_source() {
    let a = raster(1, 1, |_, _| [1, 0, 0, 255]);
    let b = raster(1, 1, |_, _| [2, 0, 0, 255]);
    let names = vec!["a.png".to_string(), "b.png".to_string()];
    // 2 blocks, 4 copies (a, a, b, b); block 0 cheapest with copy 3, block 1 with copy 0
    let cost = vec![9, 9, 9, 0, 0, 9, 9, 9];
    let (assignment, image, info) = compose_fair(&cost, 2, 1, &vec![raster(1, 1, |_, _| [1, 0, 0, 255]), raster(1, 1, |_, _| [2, 0, 0, 255])], &names, 1, 1, 4).unwrap();
    assert_eq!(assignment, vec![3, 0]);
    // copy 3 is a copy of tile 1, copy 0 of tile 0
    assert_eq!(image.pixels, vec![[2, 0, 0, 255], [1, 0, 0, 255]]);
    assert_eq!(info, "Grid dimension: 2x1\nb.png,a.png");
    // copy 1 is a copy of tile 0 (not tile 1): image and text agree
    let cost = vec![9, 0, 9, 9, 9, 9, 0, 9];
    let (assignment, image, info) = compose_fair(&cost, 2, 1, &vec![raster(1, 1, |_, _| [1, 0, 0, 255]), raster(1, 1, |_, _| [2, 0, 0, 255])], &names, 1, 1, 4).unwrap();
    assert_eq!(assignment, vec![1, 2]);
    assert_eq!(image.pixels, vec![[1, 0, 0, 255], [2, 0, 0, 255]]);
    assert_eq!(info, "Grid dimension: 2x1\na.png,b.png");
    // more blocks than copies: the mode fails
    let r = compose_fair(&[0, 0], 2, 1, &vec![a, b], &names, 1, 1, 1);
    assert_eq!(r.err(), Some("Failed to solve assignment problem".to_string()));
}

#[test]
fn both_modes_are_deterministic() {
    let tiles = || vec![raster(1, 1, |_, _| [1, 0, 0, 255]), raster(1, 1, |_, _| [2, 0, 0, 255])];
    let names = vec!["a.png".to_string(), "b.png".to_string()];
    let keys = vec![5, 1, 5, 1];
    let (a1, i1, t1) = compose_unfair(&keys, 2, 1, &tiles(), &names, 1, 1, true);
    let (a2, i2, t2) = compose_unfair(&keys, 2, 1, &tiles(), &names, 1, 1, true);
    assert_eq!((a1, i1.pixels, t1), (a2, i2.pixels, t2));
    let cost = vec![3, 1, 4, 1, 5, 9, 2, 6];
    let (a1, i1, t1) = compose_fair(&cost, 2, 1, &tiles(), &names, 1, 1, 4).unwrap();
    let (a2, i2, t2) = compose_fair(&cost, 2, 1, &tiles(), &names, 1, 1, 4).unwrap();
    assert_eq!((a1, i1.pixels, t1), (a2, i2.pixels, t2));
}
