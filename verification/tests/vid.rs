use heretic::vid::{patch_fits, render, Vid};
use heretic::wad::{Lump, Wad};

/// A patch lump: header, column offsets, then each column's posts.
fn build_patch(w: u16, h: u16, left: i16, top: i16, columns: &[Vec<(u8, Vec<u8>)>]) -> Vec<u8> {
    let mut out = Vec::new();
    out.extend_from_slice(&w.to_le_bytes());
    out.extend_from_slice(&h.to_le_bytes());
    out.extend_from_slice(&left.to_le_bytes());
    out.extend_from_slice(&top.to_le_bytes());
    let table = out.len();
    out.resize(table + 4 * columns.len(), 0);
    for (c, posts) in columns.iter().enumerate() {
        let ofs = out.len() as u32;
        out[table + 4 * c..table + 4 * c + 4].copy_from_slice(&ofs.to_le_bytes());
        for (row, pixels) in posts {
            out.push(*row);
            out.push(pixels.len() as u8);
            out.push(0);
            out.extend_from_slice(pixels);
            out.push(0);
        }
        out.push(255);
    }
    out
}

fn wad_of(lumps: Vec<(&str, Vec<u8>)>) -> Wad {
    Wad {
        lumps: lumps
            .into_iter()
            .map(|(name, data)| Lump { name: name.to_string(), len: data.len(), pos: 0, data })
            .collect(),
    }
}

fn small_patch(left: i16, top: i16) -> Vec<u8> {
    build_patch(2, 3, left, top, &[vec![(0, vec![1, 2, 3])], vec![(1, vec![4])]])
}

#[test]
fn new_frame_is_black() {
    let vid = Vid::new();
    assert_eq!(vid.frame_buffer().len(), 320 * 200);
    assert!(vid.frame_buffer().iter().all(|p| *p == 0));
    assert_eq!(render(&vid), None);
}

#[test]
fn patch_pixels_land_on_their_rows_and_columns() {
    let mut vid = Vid::new();
    let patch = small_patch(0, 0);
    assert!(patch_fits(&patch, 10, 20));
    vid.draw_patch_raw(&patch, 10, 20);
    let fb = vid.frame_buffer();
    assert_eq!(fb[20 * 320 + 10], 1);
    assert_eq!(fb[21 * 320 + 10], 2);
    assert_eq!(fb[22 * 320 + 10], 3);
    assert_eq!(fb[21 * 320 + 11], 4);
    assert_eq!(fb[20 * 320 + 11], 0);
    assert_eq!(fb.iter().filter(|p| **p != 0).count(), 4);
}

#[test]
fn patch_offsets_move_the_origin() {
    let mut a = Vid::new();
    a.draw_patch_raw(&small_patch(0, 0), 10, 20);
    let mut b = Vid::new();
    b.draw_patch_raw(&small_patch(2, 3), 12, 23);
    assert_eq!(a.frame_buffer(), b.frame_buffer());
    let mut c = Vid::new();
    c.draw_patch_raw(&small_patch(-5, -7), 5, 13);
    assert_eq!(a.frame_buffer(), c.frame_buffer());
}

#[test]
fn origin_is_computed_in_signed_arithmetic() {
    // x as isize is -1; minus a left offset of -5 puts the patch at column 4.
    let patch = small_patch(-5, 0);
    assert!(patch_fits(&patch, usize::MAX, 0));
    let mut vid = Vid::new();
    vid.draw_patch_raw(&patch, usize::MAX, 0);
    assert_eq!(vid.frame_buffer()[4], 1);
    assert_eq!(vid.frame_buffer()[320 + 5], 4);
}

#[test]
fn later_posts_overwrite_earlier_ones() {
    let patch = build_patch(1, 4, 0, 0, &[vec![(0, vec![1, 1, 1]), (1, vec![9])]]);
    let mut vid = Vid::new();
    vid.draw_patch_raw(&patch, 0, 0);
    let fb = vid.frame_buffer();
    assert_eq!((fb[0], fb[320], fb[640]), (1, 9, 1));
}

#[test]
fn drawing_leaves_other_columns_alone() {
    let mut vid = Vid::new();
    vid.draw_patch_raw(&build_patch(1, 200, 0, 0, &[vec![(0, vec![7; 200])]]), 100, 0);
    let fb = vid.frame_buffer();
    for p in 0..64000 {
        assert_eq!(fb[p] != 0, p % 320 == 100);
    }
}

#[test]
fn patches_that_would_fail_are_recognised() {
    let patch = small_patch(0, 0);
    assert!(!patch_fits(&patch, 319, 0)); // too wide for the right edge
    assert!(!patch_fits(&patch, 0, 198)); // too tall for the bottom
    assert!(!patch_fits(&patch, 0, usize::MAX)); // above the top
    assert!(!patch_fits(&patch[..7], 0, 0)); // no header
    let mut unterminated = patch.clone();
    unterminated.pop();
    assert!(!patch_fits(&unterminated, 0, 0));
    // a post running below the screen
    let deep = build_patch(1, 1, 0, 0, &[vec![(250, vec![1])]]);
    assert!(!patch_fits(&deep, 0, 0));
    assert!(patch_fits(&build_patch(0, 0, 0, 0, &[]), 320, 200));
}

#[test]
fn raw_screen_replaces_the_frame() {
    let pic: Vec<u8> = (0..64000u32).map(|i| (i % 251) as u8).collect();
    let wad = wad_of(vec![("TITLE", pic.clone())]);
    let mut vid = Vid::new();
    vid.draw_raw_screen(&wad, "TITLE");
    assert_eq!(vid.frame_buffer(), &pic[..]);
    vid.draw_raw_screen(&wad, "MISSING");
    assert_eq!(vid.frame_buffer(), &pic[..]);
}

#[test]
fn draw_patch_by_name_uses_the_last_lump_of_that_name() {
    let wad = wad_of(vec![
        ("P", build_patch(1, 1, 0, 0, &[vec![(0, vec![5])]])),
        ("P", build_patch(1, 1, 0, 0, &[vec![(0, vec![6])]])),
    ]);
    let mut vid = Vid::new();
    vid.draw_patch(&wad, 3, 4, "P");
    assert_eq!(vid.frame_buffer()[4 * 320 + 3], 6);
    vid.draw_patch(&wad, 0, 0, "NONE");
    assert_eq!(vid.frame_buffer()[0], 0);
}

#[test]
fn palette_turns_the_frame_into_opaque_rgba() {
    let mut pal = Vec::new();
    for i in 0..256u32 {
        pal.extend_from_slice(&[i as u8, (i * 2) as u8, 255 - i as u8]);
    }
    let wad = wad_of(vec![("PLAYPAL", pal), ("P", build_patch(1, 1, 0, 0, &[vec![(0, vec![3])]]))]);
    let mut vid = Vid::new();
    vid.set_palette(&wad, "PLAYPAL");
    vid.draw_patch(&wad, 1, 0, "P");
    assert!(vid.can_render());
    let img = render(&vid).unwrap();
    assert_eq!(img.len(), 4 * 64000);
    assert_eq!(&img[0..4], &[0, 0, 255, 255]);
    assert_eq!(&img[4..8], &[3, 6, 252, 255]);
    assert!(img.chunks(4).all(|c| c[3] == 0xff));
}

#[test]
fn missing_palette_lump_keeps_the_old_palette() {
    let wad = wad_of(vec![("PLAYPAL", vec![10, 20, 30])]);
    let mut vid = Vid::new();
    vid.set_palette(&wad, "NOPE");
    assert_eq!(render(&vid), None);
    vid.set_palette(&wad, "PLAYPAL");
    let img = render(&vid).unwrap();
    assert_eq!(&img[0..4], &[10, 20, 30, 255]);
    vid.set_palette(&wad, "NOPE");
    assert_eq!(&render(&vid).unwrap()[0..4], &[10, 20, 30, 255]);
}

#[test]
fn short_palette_cannot_render_every_pixel() {
    let wad = wad_of(vec![("PLAYPAL", vec![1, 2, 3]), ("P", build_patch(1, 1, 0, 0, &[vec![(0, vec![1])]]))]);
    let mut vid = Vid::new();
    vid.set_palette(&wad, "PLAYPAL");
    assert!(vid.can_render());
    vid.draw_patch(&wad, 0, 0, "P");
    assert!(!vid.can_render());
}

#[test]
fn empty_palette_lump_gives_an_empty_palette() {
    let wad = wad_of(vec![("PLAYPAL", vec![])]);
    let mut vid = Vid::new();
    vid.set_palette(&wad, "PLAYPAL");
    assert!(!vid.can_render());
}

#[test]
fn drawing_a_patch_twice_is_drawing_it_once() {
    let patch = build_patch(2, 4, 1, 0, &[vec![(0, vec![1, 1, 1]), (1, vec![9])], vec![(2, vec![3, 4])]]);
    let mut once = Vid::new();
    once.draw_raw_screen(&wad_of(vec![("BG", (0..64000u32).map(|i| (i % 7) as u8).collect())]), "BG");
    let mut twice = Vid::new();
    twice.draw_raw_screen(&wad_of(vec![("BG", (0..64000u32).map(|i| (i % 7) as u8).collect())]), "BG");
    once.draw_patch_raw(&patch, 40, 50);
    twice.draw_patch_raw(&patch, 40, 50);
    twice.draw_patch_raw(&patch, 40, 50);
    assert_eq!(once.frame_buffer(), twice.frame_buffer());
}
