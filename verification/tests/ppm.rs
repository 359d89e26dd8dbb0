use raycaster::ppm::{render, write_header, RenderError, Rgb};
use raycaster::raster::Raster;

fn line_of(r: i32, g: i32, b: i32) -> String {
    let mut out: Vec<u8> = Vec::new();
    Rgb::new(r, g, b).write_color(&mut out);
    String::from_utf8(out).unwrap()
}

fn image_of(raster: &Raster, pixels: &Vec<Rgb>) -> String {
    let mut out: Vec<u8> = Vec::new();
    assert_eq!(render(raster, pixels, &mut out), Ok(()));
    String::from_utf8(out).unwrap()
}

fn shades(count: u64) -> Vec<Rgb> {
    let mut pixels: Vec<Rgb> = Vec::new();
    let mut k: u64 = 0;
    while k < count {
        pixels.push(Rgb::new((k % 256) as i32, ((k / 3) % 256) as i32, ((k * 7) % 256) as i32));
        k += 1;
    }
    pixels
}

#[test]
fn new_keeps_the_three_values() {
    let colour = Rgb::new(1, 2, 3);
    assert_eq!(colour.r, 1);
    assert_eq!(colour.g, 2);
    assert_eq!(colour.b, 3);
    assert_eq!(colour, Rgb { r: 1, g: 2, b: 3 });
}

#[test]
fn a_colour_is_one_line_of_three_numbers() {
    assert_eq!(line_of(255, 0, 12), "255 0 12\n");
    assert_eq!(line_of(0, 0, 0), "0 0 0\n");
    assert_eq!(line_of(127, 178, 255), "127 178 255\n");
}

#[test]
fn values_out_of_range_are_written_as_they_are() {
    assert_eq!(line_of(256, -1, 1000), "256 -1 1000\n");
    assert_eq!(line_of(i32::MIN, i32::MAX, 0), "-2147483648 2147483647 0\n");
}

#[test]
fn write_color_appends() {
    let mut out: Vec<u8> = b"P3\n".to_vec();
    Rgb::new(1, 2, 3).write_color(&mut out);
    Rgb::new(4, 5, 6).write_color(&mut out);
    assert_eq!(out, b"P3\n1 2 3\n4 5 6\n".to_vec());
}

#[test]
fn header_names_format_size_and_largest_value() {
    let mut out: Vec<u8> = Vec::new();
    write_header(&Raster::new(200, 100), &mut out);
    assert_eq!(out, b"P3\n200 100\n255\n".to_vec());
}

#[test]
fn header_of_a_raster_without_width() {
    let mut out: Vec<u8> = Vec::new();
    write_header(&Raster::new(0, 0), &mut out);
    assert_eq!(out, b"P3\n0 1\n255\n".to_vec());
}

#[test]
fn header_appends() {
    let mut out: Vec<u8> = b"# ".to_vec();
    write_header(&Raster::new(3, 2), &mut out);
    assert_eq!(out, b"# P3\n3 2\n255\n".to_vec());
}

#[test]
fn a_small_image_in_full() {
    let pixels = vec![
        Rgb::new(255, 0, 0),
        Rgb::new(0, 255, 0),
        Rgb::new(0, 0, 255),
        Rgb::new(127, 178, 255),
    ];
    assert_eq!(
        image_of(&Raster::new(2, 2), &pixels),
        "P3\n2 2\n255\n255 0 0\n0 255 0\n0 0 255\n127 178 255\n"
    );
}

#[test]
fn an_image_without_pixels_is_its_header() {
    assert_eq!(image_of(&Raster::new(0, 5), &Vec::new()), "P3\n0 5\n255\n");
}

#[test]
fn too_few_values_are_refused_and_nothing_is_written() {
    let mut out: Vec<u8> = b"kept".to_vec();
    let pixels = shades(5);
    assert_eq!(render(&Raster::new(3, 2), &pixels, &mut out), Err(RenderError::PixelCount));
    assert_eq!(out, b"kept".to_vec());
}

#[test]
fn too_many_values_are_refused_and_nothing_is_written() {
    let mut out: Vec<u8> = Vec::new();
    let pixels = shades(7);
    assert_eq!(render(&Raster::new(3, 2), &pixels, &mut out), Err(RenderError::PixelCount));
    assert_eq!(out, Vec::<u8>::new());
}

#[test]
fn render_appends() {
    let mut out: Vec<u8> = b"# ".to_vec();
    assert_eq!(render(&Raster::new(1, 1), &vec![Rgb::new(9, 8, 7)], &mut out), Ok(()));
    assert_eq!(out, b"# P3\n1 1\n255\n9 8 7\n".to_vec());
}

#[test]
fn three_lines_and_one_for_each_pixel() {
    let raster = Raster::new(200, 100);
    let text = image_of(&raster, &shades(raster.len()));
    assert!(text.ends_with('\n'));
    assert_eq!(text.lines().count(), 3 + 200 * 100);
}

#[test]
fn each_pixel_line_holds_three_numbers_in_range() {
    let raster = Raster::new(40, 20);
    let pixels = shades(raster.len());
    let text = image_of(&raster, &pixels);
    let lines: Vec<&str> = text.lines().collect();
    assert_eq!(lines[0], "P3");
    assert_eq!(lines[1], "40 20");
    assert_eq!(lines[2], "255");
    for (k, line) in lines[3..].iter().enumerate() {
        let fields: Vec<&str> = line.split(' ').collect();
        assert_eq!(fields.len(), 3);
        let values: Vec<i32> = fields.iter().map(|f| f.parse::<i32>().unwrap()).collect();
        for v in values.iter() {
            assert!(0 <= *v && *v <= 255);
        }
        assert_eq!(Rgb::new(values[0], values[1], values[2]), pixels[k]);
    }
}

#[test]
fn pixels_are_written_in_visiting_order() {
    let raster = Raster::new(3, 2);
    let mut pixels: Vec<Rgb> = Vec::new();
    let mut cursor = raster.first();
    while let Some(pixel) = cursor {
        pixels.push(Rgb::new(pixel.col, pixel.row, 0));
        cursor = raster.next(pixel);
    }
    assert_eq!(
        image_of(&raster, &pixels),
        "P3\n3 2\n255\n0 0 0\n1 0 0\n2 0 0\n0 1 0\n1 1 0\n2 1 0\n"
    );
}

#[test]
fn streaming_line_by_line_gives_the_same_text() {
    let raster = Raster::new(5, 4);
    let pixels = shades(raster.len());
    let mut streamed: Vec<u8> = Vec::new();
    write_header(&raster, &mut streamed);
    for colour in pixels.iter() {
        colour.write_color(&mut streamed);
    }
    assert_eq!(String::from_utf8(streamed).unwrap(), image_of(&raster, &pixels));
}

#[test]
fn rendering_twice_gives_the_same_bytes() {
    let raster = Raster::new(16, 9);
    let pixels = shades(raster.len());
    assert_eq!(image_of(&raster, &pixels), image_of(&raster, &pixels));
}
