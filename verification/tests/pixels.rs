use asciime_filter::{Brightness, Frame, Yuyv};

fn ramp(width: u32, height: u32) -> Vec<u8> {
    (0..(2 * width * height) as usize).map(|i| (i * 7 % 251) as u8).collect()
}

#[test]
fn luma_of_a_pixel_is_the_byte_at_twice_its_number() {
    let bytes = ramp(4, 3);
    let pixels = Yuyv::new(bytes.clone(), 4, 3);
    assert_eq!(pixels.width(), 4);
    assert_eq!(pixels.height(), 3);
    for y in 0..3u32 {
        for x in 0..4u32 {
            let offset = (2 * (y * 4 + x)) as usize;
            assert_eq!(pixels.xy_to_idx(x, y), offset);
            assert_eq!(pixels.get_brightness(x, y), Brightness::new(bytes[offset]));
        }
    }
    assert_eq!(pixels.xy_to_idx(3, 2), 22);
}

#[test]
fn set_brightness_writes_one_luma_byte() {
    let bytes = ramp(3, 2);
    let mut pixels = Yuyv::new(bytes.clone(), 3, 2);
    pixels.set_brightness(2, 1, Brightness::new(200));
    let mut expected = bytes;
    expected[10] = 200;
    assert_eq!(pixels.as_bytes(), &expected[..]);
    assert_eq!(pixels.get_brightness(2, 1), Brightness::new(200));
}

#[test]
fn as_grayscale_sets_every_byte_to_127() {
    let mut pixels = Yuyv::new(ramp(3, 2), 3, 2);
    pixels.as_grayscale();
    assert_eq!(pixels.as_bytes(), &[127u8; 12][..]);
    assert_eq!((pixels.width(), pixels.height()), (3, 2));
    let mut frame = Frame::new(ramp(2, 2), 2, 2);
    frame.as_grayscale();
    assert_eq!(frame.as_bytes(), &[127u8; 8][..]);
}

#[test]
fn splitn_gives_strips_in_order_of_increasing_row() {
    let bytes = ramp(3, 8);
    let pixels = Yuyv::new(bytes.clone(), 3, 8);
    let strips = pixels.splitn(2);
    assert_eq!(strips.len(), 4);
    for (k, strip) in strips.iter().enumerate() {
        assert_eq!(strip.width(), 3);
        assert_eq!(strip.height(), 2);
        assert_eq!(strip.as_bytes(), &bytes[k * 12..(k + 1) * 12]);
    }
}

#[test]
fn splitn_by_zero_gives_the_buffer_itself() {
    let bytes = ramp(3, 5);
    let strips = Yuyv::new(bytes.clone(), 3, 5).splitn(0);
    assert_eq!(strips.len(), 1);
    assert_eq!(strips[0].height(), 5);
    assert_eq!(strips[0].as_bytes(), &bytes[..]);
}

#[test]
fn strips_joined_give_the_buffer_back() {
    for n in 0..=3u32 {
        let bytes = ramp(5, 16);
        let pixels = Yuyv::new(bytes.clone(), 5, 16);
        let strips = pixels.splitn(n);
        assert_eq!(strips.len(), 1usize << n);
        let total: usize = strips.iter().map(|s| s.as_bytes().len()).sum();
        assert_eq!(total, bytes.len());
        let joined = Yuyv::join(strips);
        assert_eq!(joined.width(), 5);
        assert_eq!(joined.height(), 16);
        assert_eq!(joined.into_bytes(), bytes);
    }
}

#[test]
fn splitn_of_an_empty_buffer_gives_empty_strips() {
    let strips = Yuyv::new(vec![], 0, 4).splitn(1);
    assert_eq!(strips.len(), 2);
    assert_eq!(strips[0].height(), 2);
    assert!(strips[1].as_bytes().is_empty());
    let strips = Yuyv::new(vec![], 7, 0).splitn(3);
    assert_eq!(strips.len(), 8);
}

#[test]
fn join_of_nothing_is_the_empty_buffer() {
    let joined = Yuyv::join(vec![]);
    assert_eq!((joined.width(), joined.height()), (0, 0));
    assert!(joined.as_bytes().is_empty());
}

#[test]
fn join_stacks_strips_of_different_heights() {
    let top = Yuyv::new(vec![1; 4], 2, 1);
    let bottom = Yuyv::new(vec![2; 12], 2, 3);
    let joined = Yuyv::join(vec![top, bottom]);
    assert_eq!((joined.width(), joined.height()), (2, 4));
    let mut expected = vec![1u8; 4];
    expected.extend(vec![2u8; 12]);
    assert_eq!(joined.as_bytes(), &expected[..]);
}

#[test]
fn frame_splits_and_joins_as_its_pixels_do() {
    let bytes = ramp(4, 4);
    let frame = Frame::new(bytes.clone(), 4, 4);
    assert_eq!((frame.width(), frame.height()), (4, 4));
    assert_eq!(frame.pixels().as_bytes(), &bytes[..]);
    let strips = frame.splitn(1);
    assert_eq!(strips.len(), 2);
    assert_eq!(strips[0].as_bytes(), &bytes[..16]);
    assert_eq!(strips[1].as_bytes(), &bytes[16..]);
    assert_eq!((strips[1].width(), strips[1].height()), (4, 2));
    let joined = Frame::join(strips);
    assert_eq!(joined.as_bytes(), &bytes[..]);
    assert_eq!(joined.clone().into_bytes(), bytes);
}

#[test]
fn frame_set_brightness_writes_one_luma_byte() {
    let mut frame = Frame::new(vec![0; 8], 2, 2);
    frame.set_brightness(1, 1, Brightness::new(9));
    assert_eq!(frame.as_bytes(), &[0, 0, 0, 0, 0, 0, 9, 0][..]);
}

fn collect(pixels: &Yuyv, width: u32, height: u32) -> Vec<(u32, u32, u8)> {
    let mut walk = pixels.iter_avg(width, height);
    let mut items = Vec::new();
    while let Some((x, y, b)) = walk.next() {
        items.push((x, y, b.value()));
    }
    assert!(walk.next().is_none());
    items
}

fn with_luma(width: u32, height: u32, luma: &[u8]) -> Yuyv {
    let mut bytes = Vec::new();
    for v in luma {
        bytes.push(*v);
        bytes.push(255);
    }
    Yuyv::new(bytes, width, height)
}

#[test]
fn blocks_come_in_row_major_order_with_their_means() {
    let pixels = with_luma(4, 2, &[10, 20, 1, 2, 30, 40, 3, 5]);
    assert_eq!(collect(&pixels, 2, 2), vec![(0, 0, 25), (2, 0, 2)]);
    assert_eq!(
        collect(&pixels, 2, 1),
        vec![(0, 0, 15), (2, 0, 1), (0, 1, 35), (2, 1, 4)]
    );
}

#[test]
fn mean_is_truncated() {
    let pixels = with_luma(2, 1, &[1, 2]);
    assert_eq!(collect(&pixels, 2, 1), vec![(0, 0, 1)]);
    let pixels = with_luma(3, 1, &[255, 255, 254]);
    assert_eq!(collect(&pixels, 3, 1), vec![(0, 0, 254)]);
}

#[test]
fn blocks_at_the_edges_are_clipped() {
    let luma: Vec<u8> = (0..15).collect();
    let pixels = with_luma(5, 3, &luma);
    assert_eq!(
        collect(&pixels, 2, 2),
        vec![
            (0, 0, (0 + 1 + 5 + 6) / 4),
            (2, 0, (2 + 3 + 7 + 8) / 4),
            (4, 0, (4 + 9) / 2),
            (0, 2, (10 + 11) / 2),
            (2, 2, (12 + 13) / 2),
            (4, 2, 14),
        ]
    );
}

#[test]
fn a_cell_larger_than_the_buffer_gives_one_block() {
    let pixels = with_luma(2, 2, &[4, 8, 12, 16]);
    assert_eq!(collect(&pixels, 100, 100), vec![(0, 0, 10)]);
    assert_eq!(collect(&pixels, u32::MAX, u32::MAX), vec![(0, 0, 10)]);
}

#[test]
fn mean_of_a_uniform_block_is_its_value() {
    for v in [0u8, 1, 127, 200, 255] {
        let pixels = with_luma(6, 4, &[v; 24]);
        for (w, h) in [(1, 1), (2, 2), (3, 2), (6, 4), (4, 3)] {
            assert!(collect(&pixels, w, h).iter().all(|item| item.2 == v));
        }
    }
}

#[test]
fn an_empty_buffer_has_no_block() {
    assert!(collect(&Yuyv::new(vec![], 0, 3), 2, 2).is_empty());
    assert!(collect(&Yuyv::new(vec![], 3, 0), 2, 2).is_empty());
}
