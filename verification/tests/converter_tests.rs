use ascii_codec::converter::ascii_pixel::AsciiPixel;
use ascii_codec::converter::Converter;

#[test]
fn the_darkest_and_the_lightest_take_the_ends_of_the_set() {
    let chars = [' ', '.', ':', '-', '=', '+', '*', '#', '%', '@'];
    assert_eq!(Converter::intensity_to_char(0, &chars), ' ');
    assert_eq!(Converter::intensity_to_char(255, &chars), '@');
}

#[test]
fn an_intensity_takes_its_share_of_the_set_rounded_down() {
    let chars = [' ', '.', ':', '-', '=', '+', '*', '#', '%', '@'];
    // 128 * 9 / 255 = 4, 28 * 9 / 255 = 0, 29 * 9 / 255 = 1, 254 * 9 / 255 = 8
    assert_eq!(Converter::intensity_to_char(128, &chars), '=');
    assert_eq!(Converter::intensity_to_char(28, &chars), ' ');
    assert_eq!(Converter::intensity_to_char(29, &chars), '.');
    assert_eq!(Converter::intensity_to_char(254, &chars), '%');
}

#[test]
fn a_set_of_one_character_gives_that_character() {
    for intensity in [0u8, 1, 100, 255] {
        assert_eq!(Converter::intensity_to_char(intensity, &['#']), '#');
    }
}

#[test]
fn a_lighter_intensity_never_takes_an_earlier_character() {
    let chars: Vec<char> = "0123456".chars().collect();
    let mut last = '0';
    for intensity in 0..=255u8 {
        let ch = Converter::intensity_to_char(intensity, &chars);
        assert!(ch >= last);
        last = ch;
    }
    assert_eq!(last, '6');
}

#[test]
fn the_grid_asks_the_getter_for_every_place() {
    let chars = ['a', 'b', 'c'];
    let grid = Converter::build_ascii_grid(3, 2, &chars, |x, y| {
        let intensity = (x * 100 + y * 50) as u8;
        (intensity, if y == 1 { Some([x as u8, y as u8, 9]) } else { None })
    });
    // intensities: row 0: 0, 100, 200; row 1: 50, 150, 250; place = intensity * 2 / 255
    assert_eq!(
        grid,
        vec![
            vec![
                AsciiPixel { ch: 'a', rgb: None },
                AsciiPixel { ch: 'a', rgb: None },
                AsciiPixel { ch: 'b', rgb: None },
            ],
            vec![
                AsciiPixel { ch: 'a', rgb: Some([0, 1, 9]) },
                AsciiPixel { ch: 'b', rgb: Some([1, 1, 9]) },
                AsciiPixel { ch: 'b', rgb: Some([2, 1, 9]) },
            ],
        ]
    );
}

#[test]
fn a_grid_without_rows_or_columns() {
    let chars = ['a'];
    let none = Converter::build_ascii_grid(4, 0, &chars, |_, _| (0, None));
    assert!(none.is_empty());
    let thin = Converter::build_ascii_grid(0, 3, &chars, |_, _| (0, None));
    assert_eq!(thin, vec![vec![], vec![], vec![]]);
}

#[test]
fn a_grid_without_places_needs_no_character() {
    let none = Converter::build_ascii_grid(4, 0, &[], |_, _| (0, None));
    assert!(none.is_empty());
    let thin = Converter::build_ascii_grid(0, 2, &[], |_, _| (0, None));
    assert_eq!(thin, vec![vec![], vec![]]);
    let nothing = Converter::build_ascii_grid(0, 0, &[], |_, _| (0, None));
    assert!(nothing.is_empty());
}
