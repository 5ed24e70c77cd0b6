use exercises::bitref::{BitMut, BitRef};

#[test]
fn make_bitref() {
    let source: u8 = 0b_0011_0100;
    assert_eq!(*BitRef::new(&source, 0), false);
    assert_eq!(*BitRef::new(&source, 1), false);
    assert_eq!(*BitRef::new(&source, 2), true);
    assert_eq!(*BitRef::new(&source, 3), false);
    assert_eq!(*BitRef::new(&source, 4), true);
    assert_eq!(*BitRef::new(&source, 5), true);
    assert_eq!(*BitRef::new(&source, 6), false);
    assert_eq!(*BitRef::new(&source, 7), false);
}

#[test]
fn mult_bitref() {
    let source: u8 = 48;
    let mut refs = Vec::new();
    for i in 0..16 {
        refs.push(BitRef::new(&source, i % 8));
    }
    assert_eq!(refs.len(), 16);
    assert_eq!(refs[4], true);
    assert_eq!(refs[12], refs[4]);
    assert_eq!(refs[0], false);
}

#[test]
fn bitmut() {
    let mut source: u8 = 0b_0000_1111;
    {
        let mut b = BitMut::new(&mut source, 0);
        b.set(false);
    }
    assert_eq!(source, 0b_0000_1110);
    for i in 1..8 {
        let mut b = BitMut::new(&mut source, i);
        let flipped = !*b;
        b.set(flipped);
    }
    assert_eq!(source, 0b_1111_0000);
}

#[test]
fn unchecked_constructors_read_the_same_bit() {
    let mut source: u8 = 0b_1000_0001;
    assert_eq!(*BitRef::new_unchecked(&source, 7), true);
    assert_eq!(*BitRef::new_unchecked(&source, 6), false);
    let mut bit = BitMut::new_unchecked(&mut source, 0);
    assert!(bit.get());
    assert!(bit == true);
    bit.set(false);
    assert!(!bit.get());
    assert_eq!(source, 0b_1000_0000);
}

#[test]
fn writing_a_bit_leaves_the_others() {
    for start in [0_u8, 0b_1010_1010, 0b_1111_1111] {
        for idx in 0..8 {
            let mut byte = start;
            BitMut::new(&mut byte, idx).set(true);
            assert_eq!(byte, start | (1 << idx));
            let mut byte = start;
            BitMut::new(&mut byte, idx).set(false);
            assert_eq!(byte, start & !(1 << idx));
        }
    }
}
