use mosaicify::features::{
    crop, distance_exec, feature_map, features_of_pixel, floor_sqrt_exec, ColorSpace, FeatureMap,
};
use mosaicify::lab::to_lab;
use mosaicify::raster::Image;

fn image(width: u32, height: u32, pixels: Vec<u8>) -> Image {
    Image { width, height, pixels }
}

#[test]
fn rgb_features_are_channels_in_hundredths() {
    assert_eq!(features_of_pixel(ColorSpace::Rgb, 1, 2, 255), vec![100, 200, 25500]);
}

#[test]
fn gray_features_weight_the_channels() {
    assert_eq!(features_of_pixel(ColorSpace::Gray, 255, 0, 0), vec![7650]);
    assert_eq!(features_of_pixel(ColorSpace::Gray, 0, 255, 0), vec![15045]);
    assert_eq!(features_of_pixel(ColorSpace::Gray, 0, 0, 255), vec![2805]);
    assert_eq!(features_of_pixel(ColorSpace::Gray, 10, 20, 30), vec![300 + 1180 + 330]);
}

#[test]
fn lab_white_has_doubled_lightness_200() {
    assert_eq!(to_lab(255, 255, 255), vec![20000, 0, -1]);
}

#[test]
fn lab_black_has_lightness_near_zero() {
    assert_eq!(to_lab(0, 0, 0), vec![0, 0, 0]);
}

#[test]
fn lab_primaries() {
    assert_eq!(to_lab(255, 0, 0), vec![10646, 8012, 6723]);
    assert_eq!(to_lab(0, 255, 0), vec![17547, -8619, 8318]);
    assert_eq!(to_lab(0, 0, 255), vec![6460, 7921, -10787]);
    assert_eq!(to_lab(128, 128, 128), vec![10717, 0, -1]);
    assert_eq!(features_of_pixel(ColorSpace::Lab, 5, 5, 5), vec![273, 0, 0]);
}

#[test]
fn floor_sqrt_rounds_down() {
    assert_eq!(floor_sqrt_exec(0), 0);
    assert_eq!(floor_sqrt_exec(99), 9);
    assert_eq!(floor_sqrt_exec(100), 10);
    assert_eq!(floor_sqrt_exec(1_000_000), 1000);
}

#[test]
fn distance_sums_per_pixel_norms() {
    let a = FeatureMap { width: 2, height: 1, arity: 3, values: vec![0, 0, 0, 10, 10, 10] };
    let b = FeatureMap { width: 2, height: 1, arity: 3, values: vec![3, 4, 0, 10, 10, 20] };
    // 5 for the first pixel, 10 for the second.
    assert_eq!(distance_exec(&a, &b), 15);
}

#[test]
fn distance_rounds_each_norm_to_nearest() {
    let a = FeatureMap { width: 2, height: 1, arity: 3, values: vec![0, 0, 0, 0, 0, 0] };
    let b = FeatureMap { width: 2, height: 1, arity: 3, values: vec![1, 1, 0, 1, 1, 1] };
    // sqrt(2) rounds to 1 and sqrt(3) to 2.
    assert_eq!(distance_exec(&a, &b), 3);
}

#[test]
fn distance_to_self_is_zero_in_every_space() {
    let img = image(2, 2, vec![255, 0, 0, 0, 255, 0, 0, 0, 255, 12, 200, 77]);
    for cs in [ColorSpace::Rgb, ColorSpace::Lab, ColorSpace::Gray] {
        let fm = feature_map(&img, cs);
        assert_eq!(distance_exec(&fm, &fm), 0);
    }
}

#[test]
fn feature_map_has_image_shape() {
    let img = image(3, 2, vec![7; 18]);
    let fm = feature_map(&img, ColorSpace::Gray);
    assert_eq!((fm.width, fm.height, fm.arity), (3, 2, 1));
    assert_eq!(fm.values, vec![700; 6]);
    let fm = feature_map(&img, ColorSpace::Rgb);
    assert_eq!(fm.arity, 3);
    assert_eq!(fm.values.len(), 18);
}

#[test]
fn crop_takes_the_block() {
    let fm = FeatureMap { width: 3, height: 2, arity: 1, values: vec![1, 2, 3, 4, 5, 6] };
    let block = crop(&fm, 1, 0, 2, 2);
    assert_eq!((block.width, block.height), (2, 2));
    assert_eq!(block.values, vec![2, 3, 5, 6]);
}
