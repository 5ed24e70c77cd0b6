use exercises::screen::Screen;

#[test]
fn construct() {
    let s = Screen::new(vec![0_u8; 100], 32);
    assert!(s.check_invariants());
    assert_eq!(s.width(), 32);
    assert_eq!(s.height(), 25);
}

#[test]
fn width_height() {
    let s = Screen::new(vec![0_u8; 6 * 24 / 8], 24);
    assert_eq!(s.width(), 24);
    assert_eq!(s.height(), 6);
}

#[test]
fn blank_begin() {
    let s = Screen::new(vec![0_u8; 32 * 24 / 8], 32);
    for x in 0..32 {
        for y in 0..24 {
            assert_eq!(*s.get(x, y).unwrap(), false);
        }
    }
}

#[test]
fn read_write() {
    let mut s = Screen::new(vec![0_u8; 3 * 16 / 8], 16);
    s.get_mut(5, 2).unwrap().set(true);
    for x in 0..16 {
        for y in 0..3 {
            assert_eq!(s.get(x, y).unwrap(), x == 5 && y == 2);
        }
    }
}

#[test]
fn display() {
    let mut s = Screen::new(vec![0_u8; 8 * 8 / 8], 8);
    s.get_mut(0, 0).unwrap().set(true);
    s.get_mut(1, 0).unwrap().set(true);
    s.get_mut(5, 0).unwrap().set(true);
    s.get_mut(7, 0).unwrap().set(true);
    s.get_mut(4, 6).unwrap().set(true);
    let expected = "+--------+
|##   # #|
|        |
|        |
|        |
|        |
|        |
|    #   |
|        |
+--------+";
    assert_eq!(s.render(), expected);
    println!("{}", s.render());
}

#[test]
fn draw_horizontal_full() {
    let mut s = Screen::new(vec![0_u8; 10 * 24 / 8], 24);
    s.draw_horizontal(0, 23, 6);
    let expected = "+------------------------+
|                        |
|                        |
|                        |
|                        |
|                        |
|                        |
|########################|
|                        |
|                        |
|                        |
+------------------------+";
    assert_eq!(s.render(), expected);
}

#[test]
fn draw_horizontal_left() {
    let mut s = Screen::new(vec![0_u8; 10 * 24 / 8], 24);
    s.draw_horizontal(0, 14, 6);
    let expected = "+------------------------+
|                        |
|                        |
|                        |
|                        |
|                        |
|                        |
|###############         |
|                        |
|                        |
|                        |
+------------------------+";
    assert_eq!(s.render(), expected);
}

#[test]
fn draw_horizontal_right() {
    let mut s = Screen::new(vec![0_u8; 10 * 24 / 8], 24);
    s.draw_horizontal(20, 23, 6);
    let expected = "+------------------------+
|                        |
|                        |
|                        |
|                        |
|                        |
|                        |
|                    ####|
|                        |
|                        |
|                        |
+------------------------+";
    assert_eq!(s.render(), expected);
}

#[test]
fn draw_horizontal_middle() {
    let mut s = Screen::new(vec![0_u8; 10 * 24 / 8], 24);
    s.draw_horizontal(10, 18, 6);
    let expected = "+------------------------+
|                        |
|                        |
|                        |
|                        |
|                        |
|                        |
|          #########     |
|                        |
|                        |
|                        |
+------------------------+";
    assert_eq!(s.render(), expected);
}

#[test]
fn access_too_right() {
    let s = Screen::new(vec![0_u8; 16 * 16 / 8], 16);
    assert_eq!(s.get(16, 4), None);
}

#[test]
fn access_too_down() {
    let s = Screen::new(vec![0_u8; 9 * 16 / 8], 16);
    assert_eq!(s.get(5, 9), None);
}

#[test]
fn writing_beyond_the_screen_is_refused() {
    let mut s = Screen::new(vec![0_u8; 2], 8);
    assert!(s.get_mut(8, 0).is_none());
    assert!(s.get_mut(0, 2).is_none());
    assert!(s.get_mut(7, 1).is_some());
    assert!(s.get(usize::MAX, usize::MAX).is_none());
    assert_eq!(s.width_bytes(), 1);
}

#[test]
fn pixels_are_packed_low_bit_first() {
    let s = Screen::new(vec![0b_0000_0001, 0b_1000_0000, 0b_0000_0110, 0], 16);
    assert_eq!(s.height(), 2);
    let expected = "+----------------+
|#              #|
| ##             |
+----------------+";
    assert_eq!(s.render(), expected);
    assert_eq!(s.get(0, 0).unwrap(), true);
    assert_eq!(s.get(15, 0).unwrap(), true);
    assert_eq!(s.get(1, 1).unwrap(), true);
    assert_eq!(s.get(3, 1).unwrap(), false);
}

#[test]
fn draw_horizontal_with_ends_swapped_draws_nothing() {
    let mut s = Screen::new(vec![0_u8; 2], 8);
    s.draw_horizontal(5, 2, 1);
    s.draw_horizontal(3, 3, 0);
    let expected = "+--------+
|   #    |
|        |
+--------+";
    assert_eq!(s.render(), expected);
}

#[test]
fn a_screen_without_rows_is_all_frame() {
    let s = Screen::new(Vec::new(), 8);
    assert_eq!(s.height(), 0);
    assert_eq!(s.render(), "+--------+\n+--------+");
}
