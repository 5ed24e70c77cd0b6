use exercises::reservoir::{keep, pick_one, pick_with};
use rand::prelude::thread_rng;

#[test]
fn keep_replaces_on_zero_only() {
    assert_eq!(keep(None, 'a', 0), Some('a'));
    assert_eq!(keep(Some('a'), 'b', 0), Some('b'));
    assert_eq!(keep(Some('a'), 'b', 1), Some('a'));
    assert_eq!(keep(Some('a'), 'b', 7), Some('a'));
    assert_eq!(keep(None, 'b', 3), None);
}

#[test]
fn pick_with_holds_the_last_zero_draw() {
    let items = vec!['a', 'b', 'c', 'd', 'e'];
    assert_eq!(pick_with(items.clone(), &vec![0, 0, 1, 0, 3]), Some('d'));
    assert_eq!(pick_with(items.clone(), &vec![0, 1, 2, 3, 4]), Some('a'));
    assert_eq!(pick_with(items.clone(), &vec![0, 1, 1, 1, 0]), Some('e'));
    assert_eq!(pick_with(items.clone(), &vec![0, 0, 0, 1, 1]), Some('c'));
    assert_eq!(pick_with(items, &vec![1, 1, 1, 1, 1]), None);
    assert_eq!(pick_with(Vec::<char>::new(), &vec![]), None);
}

#[test]
fn pick_one_of_nothing_is_nothing() {
    let mut rng = thread_rng();
    assert_eq!(pick_one(Vec::<u8>::new().into_iter(), &mut rng), None);
    assert_eq!(pick_one(0..0, &mut rng), None);
}

#[test]
fn pick_one_of_one_is_that_one() {
    let mut rng = thread_rng();
    for _ in 0..50 {
        assert_eq!(pick_one(vec!["only"].into_iter(), &mut rng), Some("only"));
    }
}

#[test]
fn pick_one_returns_an_element() {
    let mut rng = thread_rng();
    for _ in 0..200 {
        let picked = pick_one([3, 1, 4, 1, 5, 9, 2, 6].iter(), &mut rng).unwrap();
        assert!([3, 1, 4, 5, 9, 2, 6].contains(picked));
    }
}

#[test]
fn pick_one_selects_every_element_about_equally_often() {
    let mut rng = thread_rng();
    let mut seen = [0_u32; 8];
    for _ in 0..16_000 {
        let picked: usize = pick_one(0..8, &mut rng).unwrap();
        seen[picked] += 1;
    }
    for count in seen {
        assert!((1_600..2_400).contains(&count), "{:?}", seen);
    }
}
