use awa::sprite::{
    Animator, AsepriteAtlas, AsepriteFrame, AsepriteMeta, AsepriteRect, AsepriteSize, AsepriteTag,
    SheetError, SpriteSheet,
};

fn frame(x: u32, y: u32, w: u32, h: u32, duration: u32) -> AsepriteFrame {
    AsepriteFrame {
        filename: format!("f{}_{}", x, y),
        frame: AsepriteRect { x, y, w, h },
        duration,
    }
}

fn tag(name: &str, from: usize, to: usize) -> AsepriteTag {
    AsepriteTag { name: name.to_string(), from, to }
}

fn atlas(frames: Vec<AsepriteFrame>, tags: Vec<AsepriteTag>) -> AsepriteAtlas {
    AsepriteAtlas {
        frames,
        meta: AsepriteMeta {
            image: "sheet.png".to_string(),
            frame_tags: tags,
            size: AsepriteSize { w: 4, h: 2 },
        },
    }
}

/// A 4 x 2 sheet whose pixel (x, y) is [10 * x + y, 1, 2, 3].
fn sheet_pixels() -> Vec<u8> {
    let mut px = Vec::new();
    for y in 0..2u8 {
        for x in 0..4u8 {
            px.extend_from_slice(&[10 * x + y, 1, 2, 3]);
        }
    }
    px
}

#[test]
fn get_tag_finds_ranges_and_later_tags_win() {
    let sheet = SpriteSheet::from_parts(
        sheet_pixels(),
        4,
        2,
        atlas(vec![], vec![tag("idle", 0, 3), tag("walk", 4, 7), tag("idle", 8, 9)]),
    );
    assert_eq!(sheet.get_tag("idle"), Some((8, 9)));
    assert_eq!(sheet.get_tag("walk"), Some((4, 7)));
    assert_eq!(sheet.get_tag("run"), None);
    assert_eq!(sheet.get_tag(""), None);
}

#[test]
fn blit_centres_the_frame() {
    let sheet = SpriteSheet::from_parts(sheet_pixels(), 4, 2, atlas(vec![frame(1, 0, 2, 2, 100)], vec![]));
    let mut dest = vec![0u8; 4 * 4 * 4];
    sheet.blit_frame(0, &mut dest, 4, 4);
    let px = |x: usize, y: usize| {
        let i = (y * 4 + x) * 4;
        [dest[i], dest[i + 1], dest[i + 2], dest[i + 3]]
    };
    assert_eq!(px(1, 1), [10, 1, 2, 3]);
    assert_eq!(px(2, 1), [20, 1, 2, 3]);
    assert_eq!(px(1, 2), [11, 1, 2, 3]);
    assert_eq!(px(2, 2), [21, 1, 2, 3]);
    assert_eq!(px(0, 0), [0, 0, 0, 0]);
    assert_eq!(px(3, 1), [0, 0, 0, 0]);
    assert_eq!(px(1, 3), [0, 0, 0, 0]);
}

#[test]
fn blit_clips_what_does_not_fit() {
    let sheet = SpriteSheet::from_parts(sheet_pixels(), 4, 2, atlas(vec![frame(1, 0, 2, 2, 100)], vec![]));
    let mut dest = vec![9u8; 4 + 2];
    sheet.blit_frame(0, &mut dest, 1, 1);
    assert_eq!(dest, vec![10, 1, 2, 3, 9, 9]);
}

#[test]
fn blit_twice_is_blit_once() {
    let sheet = SpriteSheet::from_parts(sheet_pixels(), 4, 2, atlas(vec![frame(0, 0, 3, 2, 100)], vec![]));
    let mut once = vec![5u8; 5 * 3 * 4];
    sheet.blit_frame(0, &mut once, 5, 3);
    let mut twice = once.clone();
    sheet.blit_frame(0, &mut twice, 5, 3);
    assert_eq!(once, twice);
}

#[test]
fn animator_starts_at_clip_start() {
    let a = Animator::new(3, 6);
    assert_eq!(a.current_frame, 3);
}

#[test]
fn animator_advances_and_wraps() {
    let frames = vec![frame(0, 0, 1, 1, 100), frame(1, 0, 1, 1, 50), frame(2, 0, 1, 1, 80)];
    let mut a = Animator::new(0, 1);
    a.update(60, &frames);
    assert_eq!(a.current_frame, 0);
    a.update(50, &frames); // 110 ms on frame 0
    assert_eq!(a.current_frame, 1);
    a.update(40, &frames); // 10 + 40 = 50 ms on frame 1: past the clip's end
    assert_eq!(a.current_frame, 0);
    a.update(99, &frames);
    assert_eq!(a.current_frame, 0);
    a.update(1, &frames);
    assert_eq!(a.current_frame, 1);
}

#[test]
fn animator_moves_one_frame_per_update_at_most() {
    let frames = vec![frame(0, 0, 1, 1, 10), frame(1, 0, 1, 1, 10), frame(2, 0, 1, 1, 10)];
    let mut a = Animator::new(0, 2);
    a.update(35, &frames);
    assert_eq!(a.current_frame, 1);
    a.update(0, &frames); // 25 ms left over
    assert_eq!(a.current_frame, 2);
    a.update(0, &frames); // 15 ms left over
    assert_eq!(a.current_frame, 0);
    a.update(0, &frames); // 5 ms left over
    assert_eq!(a.current_frame, 0);
}

#[test]
fn set_clip_restarts_only_on_a_new_clip() {
    let frames = vec![frame(0, 0, 1, 1, 10), frame(1, 0, 1, 1, 10), frame(2, 0, 1, 1, 10)];
    let mut a = Animator::new(0, 2);
    a.update(15, &frames);
    assert_eq!(a.current_frame, 1);
    a.set_clip(0, 2);
    assert_eq!(a.current_frame, 1);
    a.update(5, &frames); // 5 + 5 = 10 ms: the time was kept
    assert_eq!(a.current_frame, 2);
    a.set_clip(1, 2);
    assert_eq!(a.current_frame, 1);
    a.update(9, &frames); // the time was reset
    assert_eq!(a.current_frame, 1);
}

#[test]
fn clip_loops_after_its_length() {
    let frames: Vec<AsepriteFrame> = (0..5).map(|i| frame(i, 0, 1, 1, 1)).collect();
    let mut a = Animator::new(1, 3);
    a.update(1, &frames);
    a.update(1, &frames);
    a.update(1, &frames);
    assert_eq!(a.current_frame, 1);
}

fn encode_png(width: u32, height: u32, rgba: Vec<u8>) -> Vec<u8> {
    let img = image::RgbaImage::from_raw(width, height, rgba).unwrap();
    let mut out = std::io::Cursor::new(Vec::new());
    img.write_to(&mut out, image::ImageFormat::Png).unwrap();
    out.into_inner()
}

#[test]
fn from_png_decodes_the_sheet() {
    let rgba = vec![1, 2, 3, 255, 4, 5, 6, 128];
    let png = encode_png(2, 1, rgba.clone());
    let sheet = SpriteSheet::from_png(&png, atlas(vec![frame(0, 0, 2, 1, 10)], vec![tag("idle", 0, 0)])).unwrap();
    assert_eq!(sheet.width, 2);
    assert_eq!(sheet.height, 1);
    assert_eq!(sheet.pixels, rgba);
    assert_ne!(sheet.pixels, png);
    assert_eq!(sheet.get_tag("idle"), Some((0, 0)));
}

#[test]
fn from_png_refuses_what_is_no_image() {
    match SpriteSheet::from_png(&[1, 2, 3, 4], atlas(vec![], vec![])) {
        Err(SheetError::Image(_)) => {}
        Ok(_) => panic!("decoded garbage"),
    }
}

#[test]
fn blit_centres_a_frame_wider_than_the_destination() {
    let sheet = SpriteSheet::from_parts(sheet_pixels(), 4, 2, atlas(vec![frame(0, 0, 3, 1, 100)], vec![]));
    let mut dest = vec![0u8; 4];
    sheet.blit_frame(0, &mut dest, 1, 1);
    // the middle column of the three shows
    assert_eq!(dest, vec![10, 1, 2, 3]);
}

#[test]
fn blit_centres_a_frame_larger_than_the_destination_both_ways() {
    let sheet = SpriteSheet::from_parts(sheet_pixels(), 4, 2, atlas(vec![frame(0, 0, 4, 2, 100)], vec![]));
    let mut dest = vec![0u8; 2 * 1 * 4];
    sheet.blit_frame(0, &mut dest, 2, 1);
    assert_eq!(dest, vec![10, 1, 2, 3, 20, 1, 2, 3]);
}

#[test]
fn current_frame_getter_follows_the_animation() {
    let frames: Vec<AsepriteFrame> = (0..3).map(|i| frame(i, 0, 1, 1, 10)).collect();
    let mut a = Animator::new(1, 2);
    assert_eq!(a.current_frame(), 1);
    a.update(10, &frames);
    assert_eq!(a.current_frame(), 2);
    a.update(10, &frames);
    assert_eq!(a.current_frame(), 1);
    assert_eq!(a.current_frame(), a.current_frame);
}
