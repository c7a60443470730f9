use texture_atlas::render::{
    blit_sprite, draw_border, draw_rectangle, palette_color, render_nodes, render_sprites,
    rgba_bytes, Rgba,
};
use texture_atlas::spatial_tree::Region;

fn white() -> Rgba {
    Rgba::new(255, 255, 255, 255)
}

fn canvas(n: usize) -> Vec<Rgba> {
    vec![white(); n]
}

fn at(pixels: &[Rgba], width: u32, x: u32, y: u32) -> Rgba {
    pixels[(y * width + x) as usize]
}

#[test]
fn rgba_fields() {
    let c = Rgba::new(1, 2, 3, 4);
    assert_eq!((c.r, c.g, c.b, c.a), (1, 2, 3, 4));
}

#[test]
fn rectangle_fills_exactly_its_pixels() {
    let mut pixels = canvas(16);
    let red = Rgba::new(255, 0, 0, 255);
    draw_rectangle(red, &Region::new(1, 1, 2, 2), 4, &mut pixels);
    for y in 0..4u32 {
        for x in 0..4u32 {
            let expect = if (1..3).contains(&x) && (1..3).contains(&y) { red } else { white() };
            assert_eq!(at(&pixels, 4, x, y), expect, "pixel ({}, {})", x, y);
        }
    }
}

#[test]
fn degenerate_rectangle_paints_nothing() {
    let mut pixels = canvas(16);
    draw_rectangle(Rgba::new(0, 0, 0, 255), &Region::new(2, 2, 0, 2), 4, &mut pixels);
    assert!(pixels.iter().all(|p| *p == white()));
}

#[test]
fn border_surrounds_the_region() {
    // a 2x2 region at (1,1) on a 5-wide canvas: border pixels sit on rows
    // 1 and 3 (columns 1..3) and on columns 1 and 3 (rows 1..3)
    let mut pixels = canvas(25);
    let m = Rgba::new(255, 0, 255, 255);
    draw_border(m, &Region::new(1, 1, 2, 2), 5, &mut pixels);
    let bordered = [
        (1, 1),
        (2, 1),
        (1, 3),
        (2, 3),
        (1, 1),
        (1, 2),
        (3, 1),
        (3, 2),
    ];
    for y in 0..5u32 {
        for x in 0..5u32 {
            let expect = bordered.contains(&(x, y));
            assert_eq!(at(&pixels, 5, x, y) == m, expect, "pixel ({}, {})", x, y);
        }
    }
}

#[test]
fn blit_copies_sprite_pixels() {
    let mut pixels = canvas(16);
    let sprite = vec![
        Rgba::new(1, 0, 0, 255),
        Rgba::new(2, 0, 0, 255),
        Rgba::new(3, 0, 0, 255),
        Rgba::new(4, 0, 0, 255),
    ];
    blit_sprite(&sprite, &Region::new(1, 2, 2, 2), 4, &mut pixels);
    assert_eq!(at(&pixels, 4, 2, 1), sprite[0]);
    assert_eq!(at(&pixels, 4, 3, 1), sprite[1]);
    assert_eq!(at(&pixels, 4, 2, 2), sprite[2]);
    assert_eq!(at(&pixels, 4, 3, 2), sprite[3]);
    // nothing else changed
    assert_eq!(pixels.iter().filter(|p| **p == white()).count(), 12);
}

#[test]
fn palette_cycles() {
    assert_eq!(palette_color(0), Rgba::new(255, 0, 0, 255));
    assert_eq!(palette_color(1), Rgba::new(0, 255, 0, 255));
    assert_eq!(palette_color(10), Rgba::new(127, 0, 127, 255));
    assert_eq!(palette_color(11), palette_color(0));
    assert_eq!(palette_color(23), palette_color(1));
}

#[test]
fn nodes_render_colors_footprints() {
    // two placements on a 4x4 canvas: first red, second green
    let placements = vec![
        (Region::new(0, 0, 2, 4), (2u32, 2u32)),
        (Region::new(2, 0, 2, 2), (2u32, 2u32)),
    ];
    let pixels = render_nodes(&placements, 4, 4);
    assert_eq!(pixels.len(), 16);
    let red = Rgba::new(255, 0, 0, 255);
    let green = Rgba::new(0, 255, 0, 255);
    for y in 0..4u32 {
        for x in 0..4u32 {
            let expect = if y < 2 && x < 2 {
                red
            } else if y >= 2 && y < 4 && x < 2 {
                green
            } else {
                white()
            };
            assert_eq!(at(&pixels, 4, x, y), expect, "pixel ({}, {})", x, y);
        }
    }
}

#[test]
fn sprites_render_blits_and_borders() {
    // one occupied 2x2 node at the origin of a 3x3 atlas; the canvas is one
    // pixel wider and taller so the far border rows fit
    let sprite = vec![
        Rgba::new(9, 0, 0, 255),
        Rgba::new(8, 0, 0, 255),
        Rgba::new(7, 0, 0, 255),
        Rgba::new(6, 0, 0, 255),
    ];
    let entries = vec![(Region::new(0, 0, 2, 2), (2u32, 2u32))];
    let sprites = vec![Some(sprite.clone())];
    let pixels = render_sprites(&entries, &sprites, 3, 3);
    assert_eq!(pixels.len(), 16);
    let stride = 4u32;
    let m = Rgba::new(255, 0, 255, 255);
    // the border overwrites the top row and left column of the sprite
    assert_eq!(at(&pixels, stride, 0, 0), m);
    assert_eq!(at(&pixels, stride, 1, 0), m);
    assert_eq!(at(&pixels, stride, 0, 1), m);
    // the sprite pixel at (1,1) survives
    assert_eq!(at(&pixels, stride, 1, 1), sprite[3]);
    // the bottom and right border strips
    assert_eq!(at(&pixels, stride, 0, 2), m);
    assert_eq!(at(&pixels, stride, 1, 2), m);
    assert_eq!(at(&pixels, stride, 2, 0), m);
    assert_eq!(at(&pixels, stride, 2, 1), m);
    // the corner past the border strips stays white
    assert_eq!(at(&pixels, stride, 2, 2), white());
}

#[test]
fn bytes_serialize_pixels_in_order() {
    let pixels = vec![Rgba::new(1, 2, 3, 4), Rgba::new(5, 6, 7, 8)];
    let bytes = rgba_bytes(&pixels);
    assert_eq!(bytes, vec![1, 2, 3, 4, 5, 6, 7, 8]);
}
