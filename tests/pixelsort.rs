use pixelsort::buffer::ImageData;
use pixelsort::color::{calculate_hsl, HslComponent, Pixel, Rgb8};
use pixelsort::error::SortError;
use pixelsort::filter::{check_eligibility, Filter};
use pixelsort::grid::{id_to_position, next_id, position_to_id, start_id, Direction};
use pixelsort::pipeline::sort_image;
use pixelsort::ratio::Ratio;
use pixelsort::sorter::sort_span;
use pixelsort::spans::{extract_spans, Span};
use pixelsort::writer::write_span;

fn same(a: Ratio, num: i64, den: i64) -> bool {
    a.num * den == num * a.den
}

fn luminosity_filter(bottom: (i64, i64), top: (i64, i64)) -> Filter {
    Filter {
        kind: HslComponent::Luminosity,
        bottom: Ratio::new(bottom.0, bottom.1),
        top: Ratio::new(top.0, top.1),
    }
}

fn image_of(width: usize, height: usize, colours: &[(u8, u8, u8)]) -> ImageData {
    let mut bytes = Vec::new();
    for &(r, g, b) in colours {
        bytes.push(r);
        bytes.push(g);
        bytes.push(b);
    }
    ImageData::from_rgb(width, height, &bytes).unwrap()
}

fn colours_of(image: &ImageData) -> Vec<(u8, u8, u8)> {
    image.data.iter().map(|p| (p.rgb.r, p.rgb.g, p.rgb.b)).collect()
}

fn walk(width: usize, height: usize, direction: Direction) -> Vec<usize> {
    let mut ids = Vec::new();
    let mut cur = start_id(width, height, direction);
    while let Some(id) = cur {
        ids.push(id);
        cur = next_id(id, width, height, direction).unwrap();
    }
    ids
}

#[test]
fn achromatic_pixel_has_zero_hue_and_saturation() {
    let p = Pixel::new(128, 128, 128);
    assert!(same(p.hsl.saturation, 0, 1));
    assert!(same(p.hsl.hue, 0, 1));
    assert!(same(p.hsl.luminosity, 128, 255));
}

#[test]
fn black_and_white_are_achromatic() {
    let black = calculate_hsl(Rgb8 { r: 0, g: 0, b: 0 });
    assert!(same(black.saturation, 0, 1));
    assert!(same(black.luminosity, 0, 1));
    let white = calculate_hsl(Rgb8 { r: 255, g: 255, b: 255 });
    assert!(same(white.saturation, 0, 1));
    assert!(same(white.hue, 0, 1));
    assert!(same(white.luminosity, 1, 1));
}

#[test]
fn primary_colours_have_their_hues() {
    let red = calculate_hsl(Rgb8 { r: 255, g: 0, b: 0 });
    assert!(same(red.hue, 0, 1));
    assert!(same(red.saturation, 1, 1));
    assert!(same(red.luminosity, 1, 2));
    let green = calculate_hsl(Rgb8 { r: 0, g: 255, b: 0 });
    assert!(same(green.hue, 120, 1));
    let blue = calculate_hsl(Rgb8 { r: 0, g: 0, b: 255 });
    assert!(same(blue.hue, 240, 1));
}

#[test]
fn negative_hue_wraps_into_range() {
    // 60 * (0 - 128) / 255 + 360
    let c = calculate_hsl(Rgb8 { r: 255, g: 0, b: 128 });
    assert!(same(c.hue, 84120, 255));
}

#[test]
fn saturation_follows_the_formula() {
    // max 200, min 50: L = 250 / 510, S = 150 / (255 - 5) = 0.6
    let c = calculate_hsl(Rgb8 { r: 200, g: 100, b: 50 });
    assert!(same(c.saturation, 3, 5));
    assert!(same(c.luminosity, 250, 510));
    // max + min above 255: S = (220 - 100) / (510 - 320) = 120 / 190
    let d = calculate_hsl(Rgb8 { r: 100, g: 220, b: 150 });
    assert!(same(d.saturation, 120, 190));
    // green is the largest channel: 60 * (2 + (150 - 100) / 120) = 145
    assert!(same(d.hue, 145, 1));
}

#[test]
fn ratios_compare_by_value() {
    assert!(Ratio::new(1, 2).le(&Ratio::new(2, 4)));
    assert!(Ratio::new(2, 4).le(&Ratio::new(1, 2)));
    assert!(Ratio::new(1, 3).le(&Ratio::new(1, 2)));
    assert!(!Ratio::new(1, 2).le(&Ratio::new(1, 3)));
    assert!(Ratio::new(-1, 2).le(&Ratio::new(0, 1)));
}

#[test]
fn walk_right_on_three_by_three() {
    assert_eq!(walk(3, 3, Direction::Right), vec![0, 1, 2, 3, 4, 5, 6, 7, 8]);
}

#[test]
fn walk_left_on_three_by_three() {
    assert_eq!(walk(3, 3, Direction::Left), vec![8, 7, 6, 5, 4, 3, 2, 1, 0]);
}

#[test]
fn walk_down_on_three_by_three() {
    assert_eq!(walk(3, 3, Direction::Down), vec![0, 3, 6, 1, 4, 7, 2, 5, 8]);
}

#[test]
fn walk_up_on_three_by_three() {
    assert_eq!(walk(3, 3, Direction::Up), vec![8, 5, 2, 7, 4, 1, 6, 3, 0]);
}

#[test]
fn walk_down_on_a_wide_grid() {
    assert_eq!(walk(3, 2, Direction::Down), vec![0, 3, 1, 4, 2, 5]);
    assert_eq!(walk(3, 2, Direction::Up), vec![5, 2, 4, 1, 3, 0]);
}

#[test]
fn next_id_rejects_ids_outside_the_image() {
    assert_eq!(next_id(9, 3, 3, Direction::Right), Err(SortError::OutOfRange));
    assert_eq!(next_id(100, 3, 3, Direction::Up), Err(SortError::OutOfRange));
    assert_eq!(next_id(8, 3, 3, Direction::Right), Ok(None));
    assert_eq!(next_id(0, 3, 3, Direction::Up), Ok(None));
}

#[test]
fn empty_image_has_no_walk() {
    assert_eq!(start_id(0, 5, Direction::Right), None);
    assert_eq!(start_id(4, 3, Direction::Left), Some(11));
}

#[test]
fn positions_and_ids_correspond() {
    assert_eq!(position_to_id(2, 1, 4, 3), 6);
    assert_eq!(id_to_position(6, 4), (2, 1));
    assert_eq!(id_to_position(11, 4), (3, 2));
}

#[test]
fn hue_selection_is_unsupported() {
    let f = Filter { kind: HslComponent::Hue, bottom: Ratio::new(0, 1), top: Ratio::new(1, 1) };
    assert_eq!(f.validate(), Err(SortError::UnsupportedMetric));
    assert_eq!(check_eligibility(&Pixel::new(1, 2, 3), &f), Err(SortError::UnsupportedMetric));
    let mut image = image_of(2, 1, &[(10, 10, 10), (20, 20, 20)]);
    assert_eq!(sort_image(&mut image, &f, Direction::Right), Err(SortError::UnsupportedMetric));
    assert_eq!(colours_of(&image), vec![(10, 10, 10), (20, 20, 20)]);
}

#[test]
fn inverted_or_malformed_range_is_rejected() {
    let f = luminosity_filter((1, 2), (1, 4));
    assert_eq!(f.validate(), Err(SortError::InvalidRange));
    let g = luminosity_filter((0, 0), (1, 1));
    assert_eq!(g.validate(), Err(SortError::InvalidRange));
    let mut image = image_of(2, 1, &[(200, 200, 200), (20, 20, 20)]);
    assert_eq!(extract_spans(&image, &f, Direction::Right).err(), Some(SortError::InvalidRange));
    assert_eq!(sort_image(&mut image, &f, Direction::Right), Err(SortError::InvalidRange));
    assert_eq!(colours_of(&image), vec![(200, 200, 200), (20, 20, 20)]);
}

#[test]
fn eligibility_is_inclusive() {
    let f = luminosity_filter((1, 5), (1, 2));
    assert_eq!(check_eligibility(&Pixel::new(51, 51, 51), &f), Ok(true));
    assert_eq!(check_eligibility(&Pixel::new(255, 0, 0), &f), Ok(true));
    assert_eq!(check_eligibility(&Pixel::new(50, 50, 50), &f), Ok(false));
    let s = Filter { kind: HslComponent::Saturation, bottom: Ratio::new(1, 2), top: Ratio::new(1, 1) };
    assert_eq!(check_eligibility(&Pixel::new(255, 0, 0), &s), Ok(true));
    assert_eq!(check_eligibility(&Pixel::new(9, 9, 9), &s), Ok(false));
}

#[test]
fn four_pixel_row_is_sorted_by_luminosity() {
    // luminosities 0.2, 0.9, 0.3, 0.1
    let mut image = image_of(4, 1, &[(51, 51, 51), (255, 204, 204), (153, 0, 0), (51, 0, 0)]);
    let f = luminosity_filter((0, 1), (1, 1));
    let spans = extract_spans(&image, &f, Direction::Right).unwrap();
    assert_eq!(spans.len(), 1);
    assert_eq!(spans[0].origin, 0);
    assert_eq!(spans[0].pixels.len(), 4);
    assert_eq!(sort_image(&mut image, &f, Direction::Right), Ok(()));
    assert_eq!(colours_of(&image), vec![(51, 0, 0), (51, 51, 51), (153, 0, 0), (255, 204, 204)]);
    let lum: Vec<bool> = image
        .data
        .iter()
        .zip([(1, 10), (2, 10), (3, 10), (9, 10)])
        .map(|(p, (n, d))| same(p.hsl.luminosity, n, d))
        .collect();
    assert_eq!(lum, vec![true, true, true, true]);
}

#[test]
fn walking_left_sorts_towards_the_left_edge_last() {
    let mut image = image_of(4, 1, &[(51, 51, 51), (255, 204, 204), (153, 0, 0), (51, 0, 0)]);
    let f = luminosity_filter((0, 1), (1, 1));
    assert_eq!(sort_image(&mut image, &f, Direction::Left), Ok(()));
    assert_eq!(colours_of(&image), vec![(255, 204, 204), (153, 0, 0), (51, 51, 51), (51, 0, 0)]);
}

#[test]
fn unreachable_range_changes_nothing() {
    let colours = [(51, 51, 51), (255, 204, 204), (153, 0, 0), (51, 0, 0)];
    let mut image = image_of(2, 2, &colours);
    let f = luminosity_filter((2, 1), (3, 1));
    assert_eq!(extract_spans(&image, &f, Direction::Right).unwrap().len(), 0);
    assert_eq!(sort_image(&mut image, &f, Direction::Down), Ok(()));
    assert_eq!(colours_of(&image), colours.to_vec());
}

#[test]
fn isolated_selected_pixel_is_left_alone() {
    // only the middle pixel is dark enough to be selected
    let colours = [(250, 250, 250), (10, 10, 10), (240, 240, 240), (5, 5, 5)];
    let mut image = image_of(4, 1, &colours);
    let f = luminosity_filter((0, 1), (1, 10));
    let spans = extract_spans(&image, &f, Direction::Right).unwrap();
    assert_eq!(spans.len(), 0);
    assert_eq!(sort_image(&mut image, &f, Direction::Right), Ok(()));
    assert_eq!(colours_of(&image), colours.to_vec());
}

#[test]
fn runs_break_at_the_start_of_each_row() {
    let colours = [(90, 90, 90), (30, 30, 30), (60, 60, 60), (80, 80, 80), (20, 20, 20), (50, 50, 50)];
    let mut image = image_of(3, 2, &colours);
    let f = luminosity_filter((0, 1), (1, 1));
    let spans = extract_spans(&image, &f, Direction::Right).unwrap();
    assert_eq!(spans.iter().map(|s| (s.origin, s.pixels.len())).collect::<Vec<_>>(), vec![(0, 3), (3, 3)]);
    assert_eq!(sort_image(&mut image, &f, Direction::Right), Ok(()));
    assert_eq!(
        colours_of(&image),
        vec![(30, 30, 30), (60, 60, 60), (90, 90, 90), (20, 20, 20), (50, 50, 50), (80, 80, 80)]
    );
}

#[test]
fn runs_break_at_the_start_of_each_column() {
    // column 0 is 90, 80; column 1 is 30, 20; column 2 is 60, 50
    let colours = [(90, 90, 90), (30, 30, 30), (60, 60, 60), (80, 80, 80), (20, 20, 20), (50, 50, 50)];
    let mut image = image_of(3, 2, &colours);
    let f = luminosity_filter((0, 1), (1, 1));
    let spans = extract_spans(&image, &f, Direction::Down).unwrap();
    assert_eq!(
        spans.iter().map(|s| (s.origin, s.pixels.len())).collect::<Vec<_>>(),
        vec![(0, 2), (1, 2), (2, 2)]
    );
    assert_eq!(sort_image(&mut image, &f, Direction::Down), Ok(()));
    assert_eq!(
        colours_of(&image),
        vec![(80, 80, 80), (20, 20, 20), (50, 50, 50), (90, 90, 90), (30, 30, 30), (60, 60, 60)]
    );
    let mut up = image_of(3, 2, &colours);
    assert_eq!(sort_image(&mut up, &f, Direction::Up), Ok(()));
    assert_eq!(colours_of(&up), colours.to_vec());
}

#[test]
fn span_origin_is_where_the_run_starts() {
    let colours = [(250, 250, 250), (10, 10, 10), (30, 30, 30), (20, 20, 20), (240, 240, 240)];
    let image = image_of(5, 1, &colours);
    let f = luminosity_filter((0, 1), (1, 2));
    let spans = extract_spans(&image, &f, Direction::Right).unwrap();
    assert_eq!(spans.len(), 1);
    assert_eq!(spans[0].origin, 1);
    let left = extract_spans(&image, &f, Direction::Left).unwrap();
    assert_eq!(left.len(), 1);
    assert_eq!(left[0].origin, 3);
    let order: Vec<u8> = left[0].pixels.iter().map(|p| p.rgb.r).collect();
    assert_eq!(order, vec![20, 30, 10]);
}

#[test]
fn sorting_twice_gives_the_same_image() {
    // the first two pixels share their luminosity but not their colour
    let colours = [(10, 20, 30), (30, 20, 10), (5, 5, 5), (200, 0, 0), (40, 40, 40), (0, 0, 90)];
    let f = luminosity_filter((0, 1), (1, 1));
    for direction in [Direction::Right, Direction::Left, Direction::Down, Direction::Up] {
        let mut image = image_of(3, 2, &colours);
        assert_eq!(sort_image(&mut image, &f, direction), Ok(()));
        let once = colours_of(&image);
        assert_eq!(sort_image(&mut image, &f, direction), Ok(()));
        assert_eq!(colours_of(&image), once);
    }
}

#[test]
fn span_of_equal_metrics_keeps_its_values() {
    let pixels = vec![Pixel::new(10, 20, 30), Pixel::new(30, 20, 10), Pixel::new(20, 20, 20)];
    let mut span = Span { origin: 4, pixels: pixels.clone() };
    sort_span(&mut span, HslComponent::Luminosity);
    assert_eq!(span.origin, 4);
    assert_eq!(span.pixels.len(), 3);
    for p in &span.pixels {
        assert!(same(p.hsl.luminosity, 40, 510));
        assert!(pixels.contains(p));
    }
    for p in &pixels {
        assert!(span.pixels.contains(p));
    }
}

#[test]
fn span_is_sorted_by_the_requested_metric() {
    let grey = Pixel::new(100, 100, 100);
    let red = Pixel::new(255, 0, 0);
    let pale = Pixel::new(200, 150, 150);
    let mut by_lum = Span { origin: 0, pixels: vec![pale, grey, red] };
    sort_span(&mut by_lum, HslComponent::Luminosity);
    assert_eq!(by_lum.pixels, vec![grey, red, pale]);
    let mut by_sat = Span { origin: 0, pixels: vec![red, pale, grey] };
    sort_span(&mut by_sat, HslComponent::Saturation);
    assert_eq!(by_sat.pixels, vec![grey, pale, red]);
    let mut by_hue = Span { origin: 0, pixels: vec![Pixel::new(0, 0, 255), Pixel::new(0, 255, 0), red] };
    sort_span(&mut by_hue, HslComponent::Hue);
    assert_eq!(by_hue.pixels, vec![red, Pixel::new(0, 255, 0), Pixel::new(0, 0, 255)]);
}

#[test]
fn writing_a_span_follows_the_walk() {
    let mut image = image_of(2, 2, &[(1, 1, 1), (2, 2, 2), (3, 3, 3), (4, 4, 4)]);
    let span = Span { origin: 1, pixels: vec![Pixel::new(9, 9, 9), Pixel::new(8, 8, 8)] };
    assert_eq!(write_span(&mut image, &span, Direction::Down), Ok(()));
    assert_eq!(colours_of(&image), vec![(1, 1, 1), (9, 9, 9), (3, 3, 3), (8, 8, 8)]);
}

#[test]
fn writing_stops_at_the_end_of_the_walk() {
    let mut image = image_of(2, 2, &[(1, 1, 1), (2, 2, 2), (3, 3, 3), (4, 4, 4)]);
    let span = Span { origin: 3, pixels: vec![Pixel::new(9, 9, 9), Pixel::new(8, 8, 8)] };
    assert_eq!(write_span(&mut image, &span, Direction::Right), Ok(()));
    assert_eq!(colours_of(&image), vec![(1, 1, 1), (2, 2, 2), (3, 3, 3), (9, 9, 9)]);
}

#[test]
fn writing_outside_the_image_fails() {
    let mut image = image_of(2, 1, &[(1, 1, 1), (2, 2, 2)]);
    let span = Span { origin: 2, pixels: vec![Pixel::new(9, 9, 9)] };
    assert_eq!(write_span(&mut image, &span, Direction::Right), Err(SortError::OutOfRange));
    assert_eq!(colours_of(&image), vec![(1, 1, 1), (2, 2, 2)]);
}

#[test]
fn rgb_buffer_must_match_the_size() {
    assert!(ImageData::from_rgb(2, 2, &vec![0; 11]).is_none());
    assert!(ImageData::from_rgb(usize::MAX, 2, &vec![0; 3]).is_none());
    let image = ImageData::from_rgb(2, 1, &vec![1, 2, 3, 4, 5, 6]).unwrap();
    assert_eq!(image.width, 2);
    assert_eq!(image.height, 1);
    assert_eq!(image.data[1].rgb, Rgb8 { r: 4, g: 5, b: 6 });
    assert!(same(image.data[1].hsl.luminosity, 10, 510));
    assert_eq!(image.to_rgb(), vec![1, 2, 3, 4, 5, 6]);
}
