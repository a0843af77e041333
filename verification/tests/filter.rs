use rayon::iter::{IndexedParallelIterator, IntoParallelRefMutIterator, ParallelIterator};

use asciime_filter::{
    charset, AppState, AsciiFilter, AsciiMap, AsciiMode, Brightness, ConfigError, Event, Frame,
    FrameFilter, FrameMeta, GlyphMap, GlyphRaster, Key, MoreLess, Opts, StreamProcessor,
};

fn coverage(c: char, x: u32, y: u32) -> u8 {
    if c == ' ' {
        0
    } else {
        ((c as u32 + 10 * x + y) % 256) as u8
    }
}

fn raster_of(c: char, cell: u32) -> GlyphRaster {
    if c == ' ' {
        return GlyphRaster::new(cell, cell, 0, 0, vec![]).unwrap();
    }
    let mut samples = Vec::new();
    for y in 0..cell {
        for x in 0..cell {
            samples.push((x, y, Brightness::new(coverage(c, x, y))));
        }
    }
    GlyphRaster::new(cell, cell, cell, cell, samples).unwrap()
}

fn rasters(chars: &[char], cell: u32) -> Vec<GlyphRaster> {
    chars.iter().map(|c| raster_of(*c, cell)).collect()
}

fn filter(nbits: u32, cell: u32, mode: AsciiMode) -> AsciiFilter {
    let chars = charset(nbits).unwrap();
    let glyphs = GlyphMap::new(cell, cell, &chars, rasters(&chars, cell));
    AsciiFilter::new(AsciiMap::new(chars), glyphs, mode)
}

fn reversed(chars: &[char]) -> Vec<char> {
    chars.iter().rev().copied().collect()
}

fn opts(nbits: u32, mode: AsciiMode, font_size: Option<u32>) -> Opts {
    Opts {
        source: "/dev/video0".to_string(),
        sink: "/dev/video4".to_string(),
        nbits,
        font: None,
        font_size,
        mode,
        nointeractive: false,
    }
}

fn app(nbits: u32, mode: AsciiMode, cell: u32) -> AppState {
    let chars = charset(nbits).unwrap();
    AppState::from_opts(opts(nbits, mode, Some(cell)), rasters(&chars, cell), 4, 16).unwrap()
}

#[test]
fn all_zero_frame_of_four_by_two_is_drawn_with_the_first_glyph() {
    let filter = filter(1, 2, AsciiMode::Color);
    let mut live = Frame::new(vec![0; 16], 4, 2);
    let reference = live.clone();
    filter.process_strip(&mut live, &reference);
    let bytes = live.as_bytes();
    assert_eq!(bytes.len(), 16);
    assert_eq!((live.width(), live.height()), (4, 2));
    for y in 0..2u32 {
        for x in 0..4u32 {
            let offset = (2 * (y * 4 + x)) as usize;
            assert_eq!(bytes[offset], coverage('$', x % 2, y % 2));
            assert_eq!(bytes[offset + 1], 0);
        }
    }
    assert_eq!(bytes[0], coverage('$', 0, 0));
    assert_eq!(bytes[4], coverage('$', 0, 0));
}

#[test]
fn every_block_gets_the_glyph_of_its_own_mean() {
    // Palette of two bits: '$' below 64, 'w' below 128, 'r' below 192, ' ' above.
    let filter = filter(2, 2, AsciiMode::Color);
    let luma = [0u8, 10, 100, 120, 20, 30, 90, 110];
    let mut bytes = Vec::new();
    for v in luma {
        bytes.push(v);
        bytes.push(77);
    }
    let reference = Frame::new(bytes.clone(), 4, 2);
    let mut live = Frame::new(bytes, 4, 2);
    filter.process_strip(&mut live, &reference);
    let out = live.as_bytes();
    for y in 0..2u32 {
        for x in 0..4u32 {
            let offset = (2 * (y * 4 + x)) as usize;
            let c = if x < 2 { '$' } else { 'w' };
            assert_eq!(out[offset], coverage(c, x % 2, y % 2));
            assert_eq!(out[offset + 1], 77);
        }
    }
}

#[test]
fn glyphs_at_the_right_and_bottom_edge_are_clipped() {
    let filter = filter(1, 2, AsciiMode::Color);
    let reference = Frame::new(vec![255; 18], 3, 3);
    let mut live = Frame::new(vec![9; 18], 3, 3);
    filter.process_strip(&mut live, &reference);
    let out = live.as_bytes();
    assert_eq!(out.len(), 18);
    for y in 0..3u32 {
        for x in 0..3u32 {
            let offset = (2 * (y * 3 + x)) as usize;
            assert_eq!(out[offset], 0);
            assert_eq!(out[offset + 1], 9);
        }
    }
    let dark = Frame::new(vec![0; 18], 3, 3);
    filter.process_strip(&mut live, &dark);
    let out = live.as_bytes();
    for y in 0..3u32 {
        for x in 0..3u32 {
            assert_eq!(out[(2 * (y * 3 + x)) as usize], coverage('$', x % 2, y % 2));
        }
    }
}

#[test]
fn glyphs_are_chosen_from_the_reference_and_drawn_over_the_live_strip() {
    let filter = filter(1, 1, AsciiMode::Color);
    let reference = Frame::new(vec![0, 0, 255, 0], 2, 1);
    let mut live = Frame::new(vec![5, 6, 7, 8], 2, 1);
    filter.process_strip(&mut live, &reference);
    assert_eq!(live.as_bytes(), &[coverage('$', 0, 0), 6, 0, 8][..]);
}

#[test]
fn process_works_on_sixteen_strips() {
    let filter = filter(1, 2, AsciiMode::Color);
    assert_eq!(filter.mode(), AsciiMode::Color);
    // Rows 0..16 dark, rows 16..32 bright; chroma 3 throughout.
    let mut bytes = Vec::new();
    for y in 0..32u32 {
        for _ in 0..4u32 {
            bytes.push(if y < 16 { 0 } else { 255 });
            bytes.push(3);
        }
    }
    let mut frame = Frame::new(bytes, 4, 32);
    filter.process(&mut frame);
    assert_eq!((frame.width(), frame.height()), (4, 32));
    let out = frame.as_bytes();
    assert_eq!(out.len(), 256);
    for y in 0..32u32 {
        for x in 0..4u32 {
            let offset = (2 * (y * 4 + x)) as usize;
            let expected = if y < 16 { coverage('$', x % 2, y % 2) } else { 0 };
            assert_eq!(out[offset], expected);
            assert_eq!(out[offset + 1], 3);
        }
    }
}

#[test]
fn process_starts_the_blocks_anew_in_every_strip() {
    // Strips of three rows and cells of two: the third row of a strip is a
    // clipped block of its own, and the next strip starts at a cell's top.
    let filter = filter(1, 2, AsciiMode::Color);
    let mut frame = Frame::new(vec![0; 2 * 2 * 48], 2, 48);
    filter.process(&mut frame);
    let out = frame.as_bytes();
    for y in 0..48u32 {
        for x in 0..2u32 {
            let offset = (2 * (y * 2 + x)) as usize;
            assert_eq!(out[offset], coverage('$', x, (y % 3) % 2));
        }
    }
}

#[test]
fn grayscale_flattens_what_the_glyphs_are_drawn_over() {
    let filter = filter(1, 2, AsciiMode::Grayscale);
    let mut frame = Frame::new(vec![0; 2 * 4 * 16], 4, 16);
    filter.process(&mut frame);
    let out = frame.as_bytes();
    for y in 0..16u32 {
        for x in 0..4u32 {
            let offset = (2 * (y * 4 + x)) as usize;
            assert_eq!(out[offset], coverage('$', x % 2, 0));
            assert_eq!(out[offset + 1], 127);
        }
    }
}

#[test]
fn invert_takes_the_glyphs_from_the_reversed_palette() {
    let filter = filter(1, 1, AsciiMode::Invert);
    assert_eq!(filter.chars(), &[' ', '$'][..]);
    let mut frame = Frame::new(vec![0; 2 * 1 * 16], 1, 16);
    filter.process(&mut frame);
    assert!(frame.as_bytes().iter().all(|b| *b == 0));
    let mut frame = Frame::new(vec![255; 2 * 1 * 16], 1, 16);
    filter.process(&mut frame);
    for y in 0..16usize {
        assert_eq!(frame.as_bytes()[2 * y], coverage('$', 0, 0));
        assert_eq!(frame.as_bytes()[2 * y + 1], 255);
    }
}

#[test]
fn new_reverses_the_palette_for_invert_only() {
    let plain = charset(3).unwrap();
    assert_eq!(filter(3, 2, AsciiMode::Color).chars(), &plain[..]);
    assert_eq!(filter(3, 2, AsciiMode::Grayscale).chars(), &plain[..]);
    assert_eq!(filter(3, 2, AsciiMode::Invert).chars(), &reversed(&plain)[..]);
    assert_eq!(filter(3, 2, AsciiMode::Invert).nbits(), 3);
    assert_eq!(filter(3, 2, AsciiMode::Invert).size(), (2, 2));
}

#[test]
fn mode_cycles_through_grayscale_color_invert() {
    assert_eq!(AsciiMode::Grayscale.next(), AsciiMode::Color);
    assert_eq!(AsciiMode::Color.next(), AsciiMode::Invert);
    assert_eq!(AsciiMode::Invert.next(), AsciiMode::Grayscale);
}

#[test]
fn cycle_mode_reverses_the_palette_on_entering_and_leaving_invert() {
    let plain = charset(2).unwrap();
    let f = filter(2, 2, AsciiMode::Grayscale);
    let f = f.cycle_mode();
    assert_eq!(f.mode(), AsciiMode::Color);
    assert_eq!(f.chars(), &plain[..]);
    let f = f.cycle_mode();
    assert_eq!(f.mode(), AsciiMode::Invert);
    assert_eq!(f.chars(), &reversed(&plain)[..]);
    let f = f.cycle_mode();
    assert_eq!(f.mode(), AsciiMode::Grayscale);
    assert_eq!(f.chars(), &plain[..]);
}

#[test]
fn cycling_three_times_gives_the_mode_and_the_palette_back() {
    for mode in [AsciiMode::Grayscale, AsciiMode::Color, AsciiMode::Invert] {
        let f = filter(4, 3, mode);
        let before = f.chars().to_vec();
        let f = f.cycle_mode().cycle_mode().cycle_mode();
        assert_eq!(f.mode(), mode);
        assert_eq!(f.chars(), &before[..]);
        assert_eq!(f.size(), (3, 3));
        assert_eq!(f.nbits(), 4);
    }
}

#[test]
fn resize_changes_the_cell_and_keeps_palette_and_mode() {
    let f = filter(2, 4, AsciiMode::Invert);
    let chars = f.glyphs().chars().to_vec();
    let palette = f.chars().to_vec();
    assert_eq!(f.resized_size(1), (5, 5));
    let f = f.resize(1, rasters(&chars, 5));
    assert_eq!(f.size(), (5, 5));
    assert_eq!(f.chars(), &palette[..]);
    assert_eq!(f.mode(), AsciiMode::Invert);
    assert_eq!(f.resized_size(-10), (1, 1));
    let f = f.resize(-10, rasters(&chars, 1));
    assert_eq!(f.size(), (1, 1));
    assert_eq!(f.glyphs().get(&'$').unwrap().samples(), &[(0, 0, Brightness::new(36))][..]);
}

#[test]
fn set_charset_holds_the_palette_in_the_direction_of_the_mode() {
    let wider = charset(3).unwrap();
    let f = filter(2, 2, AsciiMode::Color).set_charset(wider.clone(), rasters(&wider, 2));
    assert_eq!(f.chars(), &wider[..]);
    assert_eq!(f.nbits(), 3);
    assert_eq!(f.size(), (2, 2));
    assert!(f.glyphs().covers(&wider));
    let f = filter(2, 2, AsciiMode::Invert).set_charset(wider.clone(), rasters(&wider, 2));
    assert_eq!(f.chars(), &reversed(&wider)[..]);
    assert_eq!(f.mode(), AsciiMode::Invert);
    assert_eq!(f.cycle_mode().chars(), &wider[..]);
}

#[test]
fn change_bitdepth_takes_the_palette_of_the_new_depth() {
    let f = filter(2, 2, AsciiMode::Color);
    let wanted = f.requested_charset(1).unwrap();
    assert_eq!(wanted, charset(3).unwrap());
    let f = f.change_bitdepth(1, rasters(&wanted, 2));
    assert_eq!(f.nbits(), 3);
    assert_eq!(f.chars(), &wanted[..]);
    assert_eq!(f.size(), (2, 2));
    let wanted = f.requested_charset(-2).unwrap();
    assert_eq!(wanted, charset(1).unwrap());
    let f = f.change_bitdepth(-2, rasters(&wanted, 2));
    assert_eq!(f.nbits(), 1);
    assert_eq!(f.chars(), &['$', ' '][..]);
}

#[test]
fn change_bitdepth_out_of_range_changes_nothing() {
    for mode in [AsciiMode::Grayscale, AsciiMode::Color, AsciiMode::Invert] {
        let f = filter(6, 3, mode);
        let before = f.chars().to_vec();
        assert!(f.requested_charset(1).is_none());
        let f = f.change_bitdepth(1, vec![]);
        assert_eq!(f.nbits(), 6);
        assert_eq!(f.chars(), &before[..]);
        assert_eq!(f.size(), (3, 3));
        assert_eq!(f.mode(), mode);
        let f = f.change_bitdepth(i32::MAX, vec![]);
        assert_eq!(f.nbits(), 6);
        assert_eq!(f.chars(), &before[..]);

        let f = filter(1, 3, mode);
        let before = f.chars().to_vec();
        assert!(f.requested_charset(-1).is_none());
        assert!(f.requested_charset(-2).is_none());
        let f = f.change_bitdepth(-1, vec![]);
        assert_eq!(f.nbits(), 1);
        assert_eq!(f.chars(), &before[..]);
        let f = f.change_bitdepth(i32::MIN, vec![]);
        assert_eq!(f.nbits(), 1);
        assert_eq!(f.chars(), &before[..]);
        assert_eq!(f.mode(), mode);
        assert!(f.glyphs().covers(&before));
    }
}

#[test]
fn stream_without_filters_hands_the_bytes_through() {
    let stream: StreamProcessor<AsciiFilter> = StreamProcessor::new(2, 16);
    assert_eq!((stream.width(), stream.height(), stream.len()), (2, 16, 0));
    let input: Vec<u8> = (0..64).collect();
    let (out, meta) = stream.process_frame(input.clone(), FrameMeta { field: 7, bytesused: 64 });
    assert_eq!(out, input);
    assert_eq!(meta, FrameMeta { field: 0, bytesused: 64 });
}

#[test]
fn stream_applies_its_filters_in_order() {
    let first = filter(1, 2, AsciiMode::Color);
    let second = filter(1, 1, AsciiMode::Color);
    let stream = StreamProcessor::new(4, 16).add_filter(first.clone()).add_filter(second.clone());
    assert_eq!(stream.len(), 2);
    let input = vec![0u8; 128];
    let (out, meta) = stream.process_frame(input.clone(), FrameMeta { field: 1, bytesused: 100 });
    assert_eq!(meta, FrameMeta { field: 0, bytesused: 100 });
    let mut frame = Frame::new(input, 4, 16);
    first.process(&mut frame);
    second.process(&mut frame);
    assert_eq!(out, frame.as_bytes());
    // The second filter sees what the first one drew: '$' covers every
    // pixel with at least 36, which the one-bit palette takes for dark.
    for y in 0..16usize {
        for x in 0..4usize {
            assert_eq!(out[2 * (y * 4 + x)], coverage('$', 0, 0));
        }
    }
    let stream = stream.clear_filters();
    assert_eq!(stream.len(), 0);
    let mut frame = Frame::new(vec![1; 128], 4, 16);
    stream.apply(&mut frame);
    assert_eq!(frame.as_bytes(), &[1u8; 128][..]);
}

#[test]
fn metadata_goes_on_with_the_field_cleared() {
    let meta = FrameMeta { field: 3, bytesused: 614400 };
    assert_eq!(meta.forwarded(), FrameMeta { field: 0, bytesused: 614400 });
}

#[test]
fn keys_give_their_commands() {
    assert_eq!(Event::from_key(Key::Char('q'), false), Event::Quit);
    assert_eq!(Event::from_key(Key::Esc, false), Event::Quit);
    assert_eq!(Event::from_key(Key::Char(' '), false), Event::Toggle);
    assert_eq!(Event::from_key(Key::Enter, true), Event::CycleMode);
    assert_eq!(Event::from_key(Key::Char('+'), false), Event::ChangeSize(1));
    assert_eq!(Event::from_key(Key::Char('-'), false), Event::ChangeSize(-1));
    assert_eq!(Event::from_key(Key::Char('+'), true), Event::ChangeSize(10));
    assert_eq!(Event::from_key(Key::Char('-'), true), Event::ChangeSize(-10));
    assert_eq!(Event::from_key(Key::Left, false), Event::ChangeBitdepth(MoreLess::Less));
    assert_eq!(Event::from_key(Key::Right, false), Event::ChangeBitdepth(MoreLess::More));
    assert_eq!(Event::from_key(Key::Char('x'), false), Event::Other);
    assert_eq!(Event::from_key(Key::Char('Q'), true), Event::Other);
    assert_eq!(Event::from_key(Key::Other, false), Event::Other);
    assert_eq!(MoreLess::More.delta(), 1);
    assert_eq!(MoreLess::Less.delta(), -1);
}

#[test]
fn state_starts_switched_on_with_the_palette_of_the_bit_depth() {
    let state = app(3, AsciiMode::Invert, 2);
    assert_eq!(state.nbits(), 3);
    assert_eq!(state.chars(), &charset(3).unwrap()[..]);
    assert_eq!(state.filter().chars(), &reversed(&charset(3).unwrap())[..]);
    assert_eq!(state.mode(), AsciiMode::Invert);
    assert_eq!(state.font_size(), 2);
    assert_eq!(state.source(), "/dev/video0");
    assert_eq!(state.sink(), "/dev/video4");
    assert!(state.interactive());
    assert!(state.enabled());
    assert!(state.redraw());
    assert_eq!(state.stream().len(), 1);
    assert_eq!((state.stream().width(), state.stream().height()), (4, 16));
    let state = state.drawn();
    assert!(!state.redraw());
}

#[test]
fn state_takes_the_default_cell_size() {
    let chars = charset(6).unwrap();
    let state = AppState::from_opts(opts(6, AsciiMode::Color, None), rasters(&chars, 10), 4, 16)
        .unwrap();
    assert_eq!(state.font_size(), 10);
    assert_eq!(state.filter().size(), (10, 10));
}

#[test]
fn there_is_no_state_for_a_bit_depth_without_palette() {
    for nbits in [0u32, 7, 8, 100] {
        let r = AppState::from_opts(opts(nbits, AsciiMode::Color, Some(2)), vec![], 4, 16);
        match r {
            Err(e) => {
                assert_eq!(e, ConfigError::NoCharset);
                assert_eq!(e.message(), "No charset for that number of bits");
            }
            Ok(_) => panic!("a state for {nbits} bits"),
        }
    }
}

#[test]
fn toggle_takes_the_filter_out_of_the_stream_and_puts_it_back() {
    let state = app(1, AsciiMode::Color, 2).drawn();
    let input = vec![0u8; 128];
    let meta = FrameMeta { field: 1, bytesused: 128 };
    let (filtered, _) = state.stream().process_frame(input.clone(), meta);
    assert_ne!(filtered, input);
    let state = state.toggle();
    assert!(!state.enabled());
    assert!(state.redraw());
    assert_eq!(state.stream().len(), 0);
    let (plain, _) = state.stream().process_frame(input.clone(), meta);
    assert_eq!(plain, input);
    let state = state.toggle();
    assert!(state.enabled());
    assert_eq!(state.stream().len(), 1);
    let (again, _) = state.stream().process_frame(input, meta);
    assert_eq!(again, filtered);
}

#[test]
fn commands_reach_the_filter_of_the_stream() {
    let state = app(1, AsciiMode::Color, 1).drawn();
    let bright = vec![255u8; 128];
    let meta = FrameMeta { field: 0, bytesused: 128 };
    let (out, _) = state.stream().process_frame(bright.clone(), meta);
    assert!(out.iter().step_by(2).all(|b| *b == 0));
    // Into Invert: bright blocks get the dense glyph.
    let state = state.cycle_mode();
    assert_eq!(state.mode(), AsciiMode::Invert);
    assert!(state.redraw());
    assert_eq!(state.chars(), &['$', ' '][..]);
    assert_eq!(state.filter().chars(), &[' ', '$'][..]);
    let (out, _) = state.stream().process_frame(bright.clone(), meta);
    assert!(out.iter().step_by(2).all(|b| *b == coverage('$', 0, 0)));
    // A larger cell.
    let state = state.drawn();
    assert_eq!(state.resized_size(1), (2, 2));
    let chars = state.chars().to_vec();
    let state = state.change_size(1, rasters(&chars, 2));
    assert_eq!(state.font_size(), 2);
    assert!(state.redraw());
    assert_eq!(state.stream().len(), 1);
    let (out, _) = state.stream().process_frame(bright.clone(), meta);
    for y in 0..16u32 {
        for x in 0..4u32 {
            assert_eq!(out[(2 * (y * 4 + x)) as usize], coverage('$', x % 2, 0));
        }
    }
    // While switched off nothing is installed, and the filter still changes.
    let state = state.toggle().cycle_mode();
    assert_eq!(state.mode(), AsciiMode::Grayscale);
    assert_eq!(state.stream().len(), 0);
    assert_eq!(state.filter().chars(), &['$', ' '][..]);
}

#[test]
fn bit_depth_changes_by_one_and_not_beyond_the_palettes() {
    let state = app(5, AsciiMode::Invert, 2).drawn();
    let wanted = state.requested_charset(MoreLess::More).unwrap();
    assert_eq!(wanted, charset(6).unwrap());
    let state = state.change_bitdepth(MoreLess::More, rasters(&wanted, 2));
    assert_eq!(state.nbits(), 6);
    assert_eq!(state.chars(), &wanted[..]);
    assert_eq!(state.filter().nbits(), 6);
    assert_eq!(state.filter().chars(), &reversed(&wanted)[..]);
    assert!(state.redraw());
    assert_eq!(state.stream().len(), 1);

    let state = state.drawn();
    assert!(state.requested_charset(MoreLess::More).is_none());
    let state = state.change_bitdepth(MoreLess::More, vec![]);
    assert_eq!(state.nbits(), 6);
    assert_eq!(state.chars(), &wanted[..]);
    assert_eq!(state.filter().chars(), &reversed(&wanted)[..]);
    assert!(!state.redraw());

    let state = app(1, AsciiMode::Color, 2).drawn();
    assert!(state.requested_charset(MoreLess::Less).is_none());
    let state = state.change_bitdepth(MoreLess::Less, vec![]);
    assert_eq!(state.nbits(), 1);
    assert_eq!(state.chars(), &['$', ' '][..]);
    assert_eq!(state.font_size(), 2);
    assert!(!state.redraw());
    let wanted = state.requested_charset(MoreLess::More).unwrap();
    let state = state.change_bitdepth(MoreLess::More, rasters(&wanted, 2));
    assert_eq!(state.nbits(), 2);
    assert_eq!(state.chars(), &['$', 'w', 'r', ' '][..]);
}

#[test]
fn strips_drawn_one_by_one_and_stacked_are_the_processed_frame() {
    for mode in [AsciiMode::Grayscale, AsciiMode::Color, AsciiMode::Invert] {
        let filter = filter(2, 3, mode);
        let bytes: Vec<u8> = (0..2 * 5 * 32).map(|i| (i * 37 % 256) as u8).collect();
        let mut whole = Frame::new(bytes.clone(), 5, 32);
        filter.process(&mut whole);

        let frame = Frame::new(bytes.clone(), 5, 32);
        let (mut live, reference) = filter.strips(&frame);
        assert_eq!(live.len(), 16);
        assert_eq!(reference.len(), 16);
        for (k, strip) in reference.iter().enumerate() {
            assert_eq!(strip.as_bytes(), &bytes[k * 20..(k + 1) * 20]);
        }
        if mode == AsciiMode::Grayscale {
            assert!(live.iter().all(|s| s.as_bytes().iter().all(|b| *b == 127)));
        } else {
            assert_eq!(Frame::join(filter.strips(&frame).0).as_bytes(), &bytes[..]);
        }
        // Any order of the strips gives the same frame.
        for k in (0..16).rev() {
            filter.process_strip(&mut live[k], &reference[k]);
        }
        assert_eq!(Frame::join(live).as_bytes(), whole.as_bytes());
    }
}

#[test]
fn strips_drawn_on_worker_threads_give_the_processed_frame() {
    let filter = filter(3, 4, AsciiMode::Color);
    let bytes: Vec<u8> = (0..2 * 9 * 64).map(|i| (i * 91 % 256) as u8).collect();
    let mut whole = Frame::new(bytes.clone(), 9, 64);
    filter.process(&mut whole);

    let frame = Frame::new(bytes, 9, 64);
    let (mut live, reference) = filter.strips(&frame);
    live.par_iter_mut()
        .zip(reference)
        .for_each(|(strip, old_strip)| filter.process_strip(strip, &old_strip));
    assert_eq!(Frame::join(live).as_bytes(), whole.as_bytes());
}
