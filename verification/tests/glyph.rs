use asciime_filter::{Brightness, GlyphMap, GlyphMapBuilder, GlyphRaster, RenderedGlyph};

fn grid(width: u32, height: u32, seed: u32) -> Vec<(u32, u32, Brightness)> {
    let mut samples = Vec::new();
    for y in 0..height {
        for x in 0..width {
            samples.push((x, y, Brightness::new(((seed + 3 * x + 5 * y) % 256) as u8)));
        }
    }
    samples
}

fn raster(cell: u32, width: u32, height: u32, seed: u32) -> GlyphRaster {
    GlyphRaster::new(cell, cell, width, height, grid(width, height, seed)).unwrap()
}

fn coords_are_unique(samples: &[(u32, u32, Brightness)]) -> bool {
    for i in 0..samples.len() {
        for j in 0..i {
            if samples[i].0 == samples[j].0 && samples[i].1 == samples[j].1 {
                return false;
            }
        }
    }
    true
}

#[test]
fn raster_takes_samples_that_tile_the_bounding_box() {
    let r = GlyphRaster::new(4, 4, 2, 3, grid(2, 3, 1));
    assert!(r.is_some());
    let r = r.unwrap();
    assert_eq!(r.cell_width(), 4);
    assert_eq!(r.cell_height(), 4);
}

#[test]
fn raster_takes_samples_in_any_order() {
    let mut samples = grid(3, 2, 9);
    samples.reverse();
    assert!(GlyphRaster::new(3, 3, 3, 2, samples).is_some());
}

#[test]
fn raster_of_a_glyph_without_outline_is_empty() {
    assert!(GlyphRaster::new(5, 5, 0, 0, vec![]).is_some());
}

#[test]
fn raster_rejects_a_sample_given_twice() {
    let mut samples = grid(2, 2, 0);
    samples[3] = (0, 0, Brightness::new(9));
    assert!(GlyphRaster::new(4, 4, 2, 2, samples).is_none());
}

#[test]
fn raster_rejects_a_sample_outside_the_bounding_box() {
    let mut samples = grid(2, 2, 0);
    samples[3] = (2, 1, Brightness::new(9));
    assert!(GlyphRaster::new(4, 4, 2, 2, samples).is_none());
    let mut samples = grid(2, 2, 0);
    samples[0] = (1, 2, Brightness::new(9));
    assert!(GlyphRaster::new(4, 4, 2, 2, samples).is_none());
}

#[test]
fn raster_rejects_a_wrong_number_of_samples() {
    let mut samples = grid(2, 2, 0);
    samples.pop();
    assert!(GlyphRaster::new(4, 4, 2, 2, samples).is_none());
    assert!(GlyphRaster::new(4, 4, 1, 1, vec![]).is_none());
}

#[test]
fn raster_rejects_a_bounding_box_larger_than_the_cell() {
    assert!(GlyphRaster::new(2, 4, 3, 1, grid(3, 1, 0)).is_none());
    assert!(GlyphRaster::new(4, 2, 1, 3, grid(1, 3, 0)).is_none());
}

#[test]
fn rendered_glyph_keeps_what_was_drawn_and_fills_columns_then_rows() {
    let glyph = RenderedGlyph::new(raster(3, 2, 1, 40));
    assert_eq!(glyph.width(), 3);
    assert_eq!(glyph.height(), 3);
    let zero = Brightness::new(0);
    let expected = vec![
        (0, 0, Brightness::new(40)),
        (1, 0, Brightness::new(43)),
        (2, 0, zero),
        (0, 1, zero),
        (1, 1, zero),
        (2, 1, zero),
        (0, 2, zero),
        (1, 2, zero),
        (2, 2, zero),
    ];
    assert_eq!(glyph.samples(), &expected[..]);
}

#[test]
fn rendered_glyph_has_one_sample_for_every_pixel_of_the_cell() {
    for cell in 1..=7u32 {
        for width in 0..=cell {
            for height in 0..=cell {
                if (width == 0) != (height == 0) {
                    continue;
                }
                let glyph = RenderedGlyph::new(raster(cell, width, height, 7));
                let samples = glyph.samples();
                assert_eq!(samples.len(), (cell * cell) as usize);
                assert!(coords_are_unique(samples));
                assert!(samples.iter().all(|s| s.0 < cell && s.1 < cell));
            }
        }
    }
}

#[test]
fn rendered_glyph_of_an_empty_raster_is_all_zero() {
    let glyph = RenderedGlyph::new(raster(2, 0, 0, 0));
    let zero = Brightness::new(0);
    let expected = vec![(0, 0, zero), (1, 0, zero), (0, 1, zero), (1, 1, zero)];
    assert_eq!(glyph.samples(), &expected[..]);
}

#[test]
fn default_brightness_is_zero() {
    assert_eq!(Brightness::default(), Brightness::new(0));
    assert_eq!(Brightness::new(17).value(), 17);
}

#[test]
fn glyph_map_holds_a_glyph_for_each_character() {
    let chars = ['a', 'b', ' '];
    let rasters = vec![raster(4, 4, 4, 1), raster(4, 2, 2, 2), raster(4, 0, 0, 3)];
    let map = GlyphMap::new(4, 4, &chars, rasters);
    assert_eq!(map.width(), 4);
    assert_eq!(map.height(), 4);
    assert_eq!(map.chars(), &chars[..]);
    assert!(map.covers(&chars));
    assert!(!map.covers(&['a', 'z']));
    assert!(map.get(&'z').is_none());
    let a = map.get(&'a').unwrap();
    assert_eq!(a.samples(), RenderedGlyph::new(raster(4, 4, 4, 1)).samples());
    let b = map.get(&'b').unwrap();
    assert_eq!(b.samples(), RenderedGlyph::new(raster(4, 2, 2, 2)).samples());
    let blank = map.get(&' ').unwrap();
    assert!(blank.samples().iter().all(|s| s.2 == Brightness::new(0)));
}

#[test]
fn glyph_map_keeps_the_last_raster_of_a_character_given_twice() {
    let chars = ['a', 'a'];
    let rasters = vec![raster(2, 2, 2, 1), raster(2, 2, 2, 100)];
    let map = GlyphMap::new(2, 2, &chars, rasters);
    let a = map.get(&'a').unwrap();
    assert_eq!(a.samples(), RenderedGlyph::new(raster(2, 2, 2, 100)).samples());
}

#[test]
fn glyph_map_resize_adds_to_the_cell_size_and_stops_at_one() {
    let chars = ['a'];
    let map = GlyphMap::new(4, 4, &chars, vec![raster(4, 4, 4, 1)]);
    assert_eq!(map.resized_size(3), (7, 7));
    assert_eq!(map.resized_size(-3), (1, 1));
    assert_eq!(map.resized_size(-10), (1, 1));
    assert_eq!(map.resized_size(i32::MIN), (1, 1));
    let map = map.resize(-10, vec![raster(1, 1, 1, 5)]);
    assert_eq!((map.width(), map.height()), (1, 1));
    assert_eq!(map.chars(), &chars[..]);
    let a = map.get(&'a').unwrap();
    assert_eq!(a.samples(), &[(0, 0, Brightness::new(5))][..]);
    let map = map.resize(2, vec![raster(3, 3, 3, 6)]);
    assert_eq!((map.width(), map.height()), (3, 3));
    assert_eq!(map.get(&'a').unwrap().samples().len(), 9);
}

#[test]
fn glyph_map_resize_stops_at_the_largest_size() {
    let chars: [char; 0] = [];
    let map = GlyphMap::new(u32::MAX - 1, u32::MAX - 1, &chars, vec![]);
    assert_eq!(map.resized_size(5), (u32::MAX, u32::MAX));
}

#[test]
fn glyph_map_set_charset_keeps_the_cell_size() {
    let map = GlyphMap::new(2, 2, &['a'], vec![raster(2, 2, 2, 1)]);
    let map = map.set_charset(&['x', 'y'], vec![raster(2, 1, 1, 2), raster(2, 2, 2, 3)]);
    assert_eq!((map.width(), map.height()), (2, 2));
    assert!(map.get(&'a').is_none());
    assert!(map.covers(&['x', 'y']));
    assert_eq!(map.get(&'y').unwrap().samples(), RenderedGlyph::new(raster(2, 2, 2, 3)).samples());
}

#[test]
fn builder_takes_the_default_size_and_font() {
    let chars = ['a'];
    let builder = GlyphMapBuilder::new(&chars);
    assert_eq!(builder.size(), 10);
    assert!(builder.font().is_none());
    assert_eq!(builder.chars(), &chars[..]);
    let builder = builder.with_size_or_default(None).with_font_or_default(None);
    assert_eq!(builder.size(), 10);
    assert!(builder.font().is_none());
    let map = builder.build(vec![raster(10, 6, 9, 1)]);
    assert_eq!((map.width(), map.height()), (10, 10));
    assert_eq!(map.get(&'a').unwrap().samples().len(), 100);
}

#[test]
fn builder_takes_the_size_and_font_it_is_given() {
    let chars = ['a', 'b'];
    let builder = GlyphMapBuilder::new(&chars)
        .with_font("fonts/some.ttf".to_string())
        .with_size(3);
    assert_eq!(builder.size(), 3);
    assert_eq!(builder.font().unwrap(), "fonts/some.ttf");
    let builder = builder
        .with_size_or_default(Some(2))
        .with_font_or_default(Some("other.ttf".to_string()));
    assert_eq!(builder.size(), 2);
    assert_eq!(builder.font().unwrap(), "other.ttf");
    let map = builder.build(vec![raster(2, 2, 2, 1), raster(2, 1, 2, 2)]);
    assert_eq!((map.width(), map.height()), (2, 2));
    assert!(map.covers(&chars));
}
