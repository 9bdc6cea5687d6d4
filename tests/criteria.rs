use pixelsort::pixel::{
    get_average, get_blue, get_green, get_hue, get_lightness, get_red, get_saturation, Criterion,
    Pixel,
};

fn px(r: u8, g: u8, b: u8) -> Pixel {
    Pixel::new(r, g, b)
}

#[test]
fn channel_criteria_return_the_channel() {
    let p = px(10, 20, 30);
    assert_eq!(get_red(&p), 10);
    assert_eq!(get_green(&p), 20);
    assert_eq!(get_blue(&p), 30);
}

#[test]
fn average_truncates() {
    assert_eq!(get_average(&px(1, 1, 2)), 1);
    assert_eq!(get_average(&px(255, 255, 255)), 255);
    assert_eq!(get_average(&px(255, 0, 0)), 85);
    assert_eq!(get_average(&px(0, 0, 0)), 0);
}

#[test]
fn hue_of_grey_is_zero() {
    assert_eq!(get_hue(&px(0, 0, 0)), 0);
    assert_eq!(get_hue(&px(128, 128, 128)), 0);
}

#[test]
fn hue_by_sextant() {
    // red is the maximum
    assert_eq!(get_hue(&px(255, 0, 0)), 0);
    assert_eq!(get_hue(&px(255, 255, 0)), 60);
    assert_eq!(get_hue(&px(255, 100, 0)), 23);
    assert_eq!(get_hue(&px(255, 128, 0)), 30);
    assert_eq!(get_hue(&px(255, 0, 100)), 336);
    assert_eq!(get_hue(&px(255, 0, 255)), 300);
    // green is the maximum
    assert_eq!(get_hue(&px(0, 255, 0)), 120);
    assert_eq!(get_hue(&px(0, 255, 255)), 180);
    assert_eq!(get_hue(&px(100, 255, 0)), 96);
    assert_eq!(get_hue(&px(0, 255, 100)), 143);
    // blue is the maximum
    assert_eq!(get_hue(&px(0, 0, 255)), 240);
    assert_eq!(get_hue(&px(100, 0, 255)), 263);
    assert_eq!(get_hue(&px(0, 100, 255)), 216);
}

#[test]
fn saturation_values() {
    assert_eq!(get_saturation(&px(7, 7, 7)), 0);
    assert_eq!(get_saturation(&px(255, 0, 0)), 1);
    assert_eq!(get_saturation(&px(100, 0, 0)), 1);
    assert_eq!(get_saturation(&px(255, 200, 200)), 1);
    assert_eq!(get_saturation(&px(100, 50, 50)), 0);
}

#[test]
fn lightness_values() {
    assert_eq!(get_lightness(&px(255, 255, 255)), 0);
    assert_eq!(get_lightness(&px(255, 254, 254)), 0);
    assert_eq!(get_lightness(&px(10, 200, 30)), 0);
}

#[test]
fn criterion_key_dispatches() {
    let p = px(30, 60, 90);
    assert_eq!(Criterion::Red.key(&p), 30);
    assert_eq!(Criterion::Green.key(&p), 60);
    assert_eq!(Criterion::Blue.key(&p), 90);
    assert_eq!(Criterion::Average.key(&p), 60);
    assert_eq!(Criterion::Hue.key(&p), 210);
    assert_eq!(Criterion::Saturation.key(&p), 0);
    assert_eq!(Criterion::Lightness.key(&p), 0);
}

#[test]
fn criterion_names_and_order() {
    let names: Vec<&str> = Criterion::all().iter().map(|c| c.name()).collect();
    assert_eq!(
        names,
        vec!["Red", "Green", "Blue", "Average", "Hue", "Saturation", "Lightness"]
    );
}

#[test]
fn keys_stay_in_range() {
    let mut v: u32 = 0;
    while v < 256 * 256 * 256 {
        let p = px((v >> 16) as u8, (v >> 8) as u8, v as u8);
        for c in Criterion::all() {
            let k = c.key(&p);
            if c == Criterion::Hue {
                assert!(k < 360, "{:?} {:?} {}", c, p, k);
            } else {
                assert!(k <= 255, "{:?} {:?} {}", c, p, k);
            }
        }
        v += 97;
    }
}
