use osap_host::profile::{profile_sums, Sums};

/// An image `w` by `h` whose pixel (x, y) has every channel `v(x, y)`.
fn grey(w: u32, h: u32, v: impl Fn(u32, u32) -> u8) -> Vec<u8> {
    let mut out = Vec::new();
    for y in 0..h {
        for x in 0..w {
            let c = v(x, y);
            out.extend_from_slice(&[c, c, c, 255]);
        }
    }
    out
}

fn same(a: &Sums, b: &Sums) -> bool {
    a.min == b.min && a.max == b.max && a.dark == b.dark && a.sum == b.sum && a.ch == b.ch
}

#[test]
fn columns_and_rows_gather_their_pixels() {
    // 3 x 2: row 0 is 10, 20, 30; row 1 is 200, 100, 0.
    let img = grey(3, 2, |x, y| if y == 0 { 10 * (x as u8 + 1) } else { 200 - 100 * x as u8 });
    let (c, r) = profile_sums(3, 2, &img, 0, 0, 3, 2, true, true, 50).expect("inside");
    let c = c.expect("columns");
    let r = r.expect("rows");
    assert_eq!(c.min, vec![10, 20, 0]);
    assert_eq!(c.max, vec![200, 100, 30]);
    assert_eq!(c.dark, vec![1, 1, 2]);
    assert_eq!(c.sum, vec![210, 120, 30]);
    assert_eq!(c.ch[0], (210, 210, 210));
    assert_eq!(r.min, vec![10, 0]);
    assert_eq!(r.max, vec![30, 200]);
    assert_eq!(r.dark, vec![3, 1]);
    assert_eq!(r.sum, vec![60, 300]);
}

#[test]
fn luminance_weighs_the_channels() {
    // One pure red, one pure green, one pure blue pixel.
    let img = vec![255, 0, 0, 255, 0, 255, 0, 255, 0, 0, 255, 255];
    let (_, r) = profile_sums(3, 1, &img, 0, 0, 3, 1, false, true, 0).expect("inside");
    let r = r.expect("rows");
    assert_eq!(r.sum, vec![76 + 149 + 29]);
    assert_eq!(r.min, vec![29]);
    assert_eq!(r.max, vec![149]);
    assert_eq!(r.ch, vec![(255, 255, 255)]);
}

#[test]
fn a_sub_area_equals_the_cropped_image() {
    let big = grey(6, 5, |x, y| (x * 37 + y * 11) as u8);
    let small = grey(3, 2, |x, y| ((x + 2) * 37 + (y + 1) * 11) as u8);
    let (bc, br) = profile_sums(6, 5, &big, 2, 1, 3, 2, true, true, 128).expect("inside");
    let (sc, sr) = profile_sums(3, 2, &small, 0, 0, 3, 2, true, true, 128).expect("inside");
    assert!(same(&bc.unwrap(), &sc.unwrap()));
    assert!(same(&br.unwrap(), &sr.unwrap()));
}

#[test]
fn nothing_is_read_outside_or_past_a_short_buffer() {
    let img = grey(4, 4, |_, _| 9);
    assert!(profile_sums(4, 4, &img, 2, 2, 3, 1, true, true, 0).is_none(), "past the right edge");
    assert!(profile_sums(4, 4, &img, 0, 0, 0, 4, true, true, 0).is_none(), "empty");
    let short = img[..img.len() - 1].to_vec();
    assert!(profile_sums(4, 4, &short, 0, 0, 1, 1, true, true, 0).is_none(), "short buffer");
    let (c, r) = profile_sums(4, 4, &img, 0, 0, 4, 4, false, false, 0).expect("inside");
    assert!(c.is_none() && r.is_none());
}
