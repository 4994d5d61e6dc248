use drawer::color::{
    rgb, rgb_blue, rgb_green, rgb_red, rgba, rgba_alpha, rgba_blue, rgba_from_rgb, rgba_green,
    rgba_merge, rgba_red,
};

#[test]
fn pack_and_unpack() {
    let c = rgb(0x12, 0x34, 0x56);
    assert_eq!(c, 0x123456);
    assert_eq!((rgb_red(c), rgb_green(c), rgb_blue(c)), (0x12, 0x34, 0x56));
    let d = rgba(0x12, 0x34, 0x56, 0x78);
    assert_eq!(d, 0x12345678);
    assert_eq!((rgba_red(d), rgba_green(d), rgba_blue(d), rgba_alpha(d)), (0x12, 0x34, 0x56, 0x78));
}

#[test]
fn promote_keeps_channels() {
    assert_eq!(rgba_from_rgb(0xabcdef, 0x40), 0xabcdef40);
}

#[test]
fn half_red_over_black() {
    let c = rgba_merge(rgb(0, 0, 0), rgba(255, 0, 0, 128));
    assert_eq!(c, rgb(128, 0, 0));
    assert!(rgb_red(c) >= 127 && rgb_red(c) <= 128);
}

#[test]
fn merge_extremes() {
    let bg = rgb(10, 20, 30);
    assert_eq!(rgba_merge(bg, rgba(200, 100, 50, 255)), rgb(200, 100, 50));
    assert_eq!(rgba_merge(bg, rgba(200, 100, 50, 0)), bg);
    assert_eq!(rgba_merge(rgb(255, 255, 255), rgba(0, 0, 0, 51)), rgb(204, 204, 204));
}
