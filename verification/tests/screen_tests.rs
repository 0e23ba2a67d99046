use nebula_core::screen::{Blit, BlitSource, Pixel, Screen};

const BLACK: Pixel = Pixel { blue: 0, green: 0, red: 0 };

#[test]
fn pixel_new_takes_red_green_blue() {
    let pixel = Pixel::new(1, 2, 3);
    assert_eq!(pixel.red, 1);
    assert_eq!(pixel.green, 2);
    assert_eq!(pixel.blue, 3);
}

#[test]
fn new_screen_is_black() {
    let screen = Screen::new(6, 4);
    assert_eq!(screen.width, 6);
    assert_eq!(screen.height, 4);
    assert_eq!(screen.buffer.width(), 6);
    assert_eq!(screen.buffer.height(), 4);
    for y in 0..4 {
        for x in 0..6 {
            assert_eq!(screen.pixel(x, y), Some(&BLACK));
        }
    }
    assert_eq!(screen.pixel(6, 0), None);
}

#[test]
fn screen_resize_keeps_dimensions_in_step() {
    let mut screen = Screen::new(4, 4);
    let white = Pixel::new(255, 255, 255);
    screen.fill(white);
    screen.resize(6, 2);
    assert_eq!((screen.width, screen.height), (6, 2));
    assert_eq!((screen.buffer.width(), screen.buffer.height()), (6, 2));
    assert_eq!(screen.as_ref().len(), 12);
    for y in 0..2 {
        for x in 0..6 {
            assert_eq!(*screen.pixel(x, y).unwrap(), if x < 4 { white } else { BLACK });
        }
    }
}

#[test]
fn blit_covers_the_whole_screen() {
    let screen = Screen::new(8, 5);
    assert_eq!(screen.blit(), Blit { src: BlitSource::Full, dest: (0, 0), dims: (8, 5) });
}

#[test]
fn blit_pixel_covers_one_cell() {
    let screen = Screen::new(8, 5);
    assert_eq!(
        screen.blit_pixel((3, 4)),
        Blit {
            src: BlitSource::SubRectangle { coords: (3, 4), px_stride: 8 },
            dest: (3, 4),
            dims: (1, 1),
        }
    );
}

#[test]
fn blit_region_covers_the_rectangle() {
    let mut screen = Screen::new(8, 5);
    assert_eq!(
        screen.blit_region((1, 2), (3, 2)),
        Blit {
            src: BlitSource::SubRectangle { coords: (1, 2), px_stride: 8 },
            dest: (1, 2),
            dims: (3, 2),
        }
    );
    assert_eq!(screen.as_ref(), &[BLACK; 40]);
}

#[test]
fn draw_rect_colors_exactly_the_rectangle() {
    let mut screen = Screen::new(10, 10);
    let color = Pixel::new(10, 20, 30);
    let blit = screen.draw_rect((2, 2), (3, 3), color);
    assert_eq!(
        blit,
        Blit {
            src: BlitSource::SubRectangle { coords: (2, 2), px_stride: 10 },
            dest: (2, 2),
            dims: (3, 3),
        }
    );
    let mut colored = 0;
    for y in 0..10 {
        for x in 0..10 {
            let inside = (2..5).contains(&x) && (2..5).contains(&y);
            assert_eq!(*screen.pixel(x, y).unwrap(), if inside { color } else { BLACK });
            if inside {
                colored += 1;
            }
        }
    }
    assert_eq!(colored, 9);
    assert_eq!((screen.width, screen.height), (10, 10));
}

#[test]
fn draw_rect_of_no_extent_changes_nothing() {
    let mut screen = Screen::new(4, 4);
    screen.draw_rect((1, 1), (0, 2), Pixel::new(9, 9, 9));
    screen.draw_rect((1, 1), (2, 0), Pixel::new(9, 9, 9));
    assert_eq!(screen.as_ref(), &[BLACK; 16]);
}

#[test]
fn draw_char_writes_gray_pixels() {
    let mut screen = Screen::new(5, 4);
    let blit = screen.draw_char(vec![10, 20, 30, 40, 50, 60], (1, 1), (3, 2));
    assert_eq!(
        blit,
        Blit {
            src: BlitSource::SubRectangle { coords: (1, 1), px_stride: 5 },
            dest: (1, 1),
            dims: (3, 2),
        }
    );
    let gray = |v: u8| Pixel { blue: v, green: v, red: v };
    for y in 0..4 {
        for x in 0..5 {
            let expected = match (x, y) {
                (1, 1) => gray(10),
                (2, 1) => gray(20),
                (3, 1) => gray(30),
                (1, 2) => gray(40),
                (2, 2) => gray(50),
                (3, 2) => gray(60),
                _ => BLACK,
            };
            assert_eq!(*screen.pixel(x, y).unwrap(), expected);
        }
    }
}

#[test]
fn draw_char_drops_samples_past_the_edge() {
    let mut screen = Screen::new(4, 3);
    // A 3x3 glyph at (2, 1): its last column and its last row lie outside.
    let bitmap = vec![1, 2, 3, 4, 5, 6, 7, 8, 9];
    screen.draw_char(bitmap, (2, 1), (3, 3));
    let gray = |v: u8| Pixel { blue: v, green: v, red: v };
    for y in 0..3 {
        for x in 0..4 {
            let expected = match (x, y) {
                (2, 1) => gray(1),
                (3, 1) => gray(2),
                (2, 2) => gray(4),
                (3, 2) => gray(5),
                _ => BLACK,
            };
            assert_eq!(*screen.pixel(x, y).unwrap(), expected);
        }
    }
    assert_eq!((screen.width, screen.height), (4, 3));
    assert_eq!(screen.as_ref().len(), 12);
}

#[test]
fn draw_char_wholly_outside_changes_nothing() {
    let mut screen = Screen::new(3, 3);
    screen.draw_char(vec![200; 4], (3, 0), (2, 2));
    screen.draw_char(vec![200; 4], (0, 3), (2, 2));
    screen.draw_char(vec![200; 4], (usize::MAX, usize::MAX), (2, 2));
    assert_eq!(screen.as_ref(), &[BLACK; 9]);
}

#[test]
fn draw_char_goes_by_the_samples_it_is_given() {
    let mut screen = Screen::new(3, 3);
    // Fewer samples than the extent declares: only those are drawn.
    screen.draw_char(vec![7, 8, 9], (0, 0), (2, 2));
    let gray = |v: u8| Pixel { blue: v, green: v, red: v };
    assert_eq!(*screen.pixel(0, 0).unwrap(), gray(7));
    assert_eq!(*screen.pixel(1, 0).unwrap(), gray(8));
    assert_eq!(*screen.pixel(0, 1).unwrap(), gray(9));
    assert_eq!(*screen.pixel(1, 1).unwrap(), BLACK);
    // More samples than the extent declares: the rows go on below it.
    let mut screen = Screen::new(3, 3);
    screen.draw_char(vec![1, 2, 3, 4, 5, 6], (0, 0), (2, 2));
    assert_eq!(*screen.pixel(0, 2).unwrap(), gray(5));
    assert_eq!(*screen.pixel(1, 2).unwrap(), gray(6));
    assert_eq!(*screen.pixel(2, 2).unwrap(), BLACK);
    // No samples at all.
    let mut screen = Screen::new(3, 3);
    screen.draw_char(Vec::new(), (0, 0), (0, 0));
    assert_eq!(screen.as_ref(), &[BLACK; 9]);
}

#[test]
fn screen_gives_access_to_its_buffer() {
    let mut screen = Screen::new(3, 3);
    *screen.pixel_mut(1, 1).unwrap() = Pixel::new(255, 0, 0);
    assert_eq!(screen.pixel(1, 1).unwrap().red, 255);
    assert_eq!(screen.buffer.pixel(1, 1).unwrap().red, 255);
    let mut region = screen.region_mut((0, 0), (1, 2));
    assert_eq!(region.next(), Some((0, 0)));
    assert_eq!(region.next(), Some((0, 1)));
    assert_eq!(region.next(), None);
}
