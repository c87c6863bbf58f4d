use masquerade::logic::{Error, Logic, LogicVec, LogicVec1};

#[test]
fn test() {
    let mut lv = LogicVec1::default();
    lv.set(5, Logic::Zero);
    lv.set(7, Logic::One);
    lv.set(0, Logic::Zero);
    lv.set(0, Logic::One);
    lv.set(6, Logic::One);
    lv.set(8, Logic::X);
    for i in 0..8 {
        println!("{}: {:?}", i, lv.get(i));
    }
    println!("{:?}", lv);
    assert_eq!(lv.get(5), Logic::Zero);
    assert_eq!(lv.get(5), Logic::Zero);
    assert_eq!(lv.get(7), Logic::One);
    assert_eq!(lv.get(7), Logic::One);
    assert_eq!(lv.get(8), Logic::X);
    assert_eq!(lv.get(8), Logic::X);
    assert_eq!(lv.get(0), Logic::One);
    assert_eq!(lv.get(6), Logic::One);
    assert_eq!(lv.get(6), Logic::One);
    assert_eq!(lv.get(1), Logic::default());
    assert_eq!(lv.get(100), Logic::default());
    assert_eq!(lv.get(1000), Logic::default());
}

#[test]
fn test_lv2() {
    let mut lv = LogicVec::default();
    lv.set(5, Logic::Zero);
    lv.set(7, Logic::One);
    lv.set(0, Logic::Zero);
    lv.set(0, Logic::One);
    lv.set(6, Logic::One);
    lv.set(8, Logic::X);
    for i in 0..8 {
        println!("{}: {:?}", i, lv.get(i));
    }
    println!("{:?}", lv);
    assert_eq!(lv.get(5), Logic::Zero);
    assert_eq!(lv.get(5), Logic::Zero);
    assert_eq!(lv.get(7), Logic::One);
    assert_eq!(lv.get(7), Logic::One);
    assert_eq!(lv.get(8), Logic::X);
    assert_eq!(lv.get(8), Logic::X);
    assert_eq!(lv.get(0), Logic::One);
    assert_eq!(lv.get(6), Logic::One);
    assert_eq!(lv.get(6), Logic::One);
    assert_eq!(lv.get(1), Logic::default());
    assert_eq!(lv.get(100), Logic::default());
    assert_eq!(lv.get(1000), Logic::default());
}

#[test]
fn test_lv2_from_num() {
    let lv = LogicVec::from(0xaa3);
    assert_eq!(lv.get(0), Logic::One);
    assert_eq!(lv.get(2), Logic::Zero);
    assert_eq!(lv.get(3), Logic::Zero);
    assert_eq!(lv.get(4), Logic::Zero);
    assert_eq!(lv.get(5), Logic::One);
    println!("{:?}", lv);
}

#[test]
fn test_lv2_from_str() -> Result<(), Error> {
    let orig = "100101110zZxX010";
    let lv = LogicVec::from_str(orig)?;
    let s = lv.to_string();
    assert_eq!(orig.to_lowercase(), s.to_lowercase());
    assert_eq!(lv.get(0), Logic::Zero);
    assert_eq!(lv.get(1), Logic::One);
    assert_eq!(lv.get(2), Logic::Zero);
    assert_eq!(lv.get(3), Logic::X);
    assert_eq!(lv.get(4), Logic::X);
    assert_eq!(lv.get(5), Logic::Z);
    assert_eq!(lv.get(6), Logic::Z);
    assert_eq!(lv.get(7), Logic::Zero);
    assert_eq!(lv.get(8), Logic::One);
    assert_eq!(lv.get(9), Logic::One);
    assert_eq!(lv.get(10), Logic::One);
    assert_eq!(lv.get(11), Logic::Zero);
    assert_eq!(lv.get(12), Logic::One);
    assert_eq!(lv.get(13), Logic::Zero);
    assert_eq!(lv.get(14), Logic::Zero);
    assert_eq!(lv.get(15), Logic::One);
    println!("{}", lv.to_string());
    Ok(())
}

#[test]
fn logic_values_convert() {
    let all = [Logic::Z, Logic::X, Logic::Zero, Logic::One];
    for (k, v) in all.iter().enumerate() {
        assert_eq!(v.code(), k as u8);
        assert_eq!(Logic::from_code(k as u8), *v);
        assert_eq!(Logic::from_bits(v.is_level(), v.is_high()), *v);
        assert!(matches!(Logic::from_char(v.to_char()), Ok(w) if w == *v));
    }
    assert_eq!(Logic::from_code(4), Logic::Z);
    assert_eq!(Logic::from_code(255), Logic::Z);
    assert!(matches!(Logic::Zero.to_bool(), Ok(false)));
    assert!(matches!(Logic::One.to_bool(), Ok(true)));
    assert!(matches!(Logic::X.to_bool(), Err(Error::NotZeroOne(Logic::X))));
    assert!(matches!(Logic::Z.to_bool(), Err(Error::NotZeroOne(Logic::Z))));
    assert!(matches!(Logic::from_char('Z'), Ok(Logic::Z)));
    assert!(matches!(Logic::from_char('X'), Ok(Logic::X)));
    assert!(matches!(Logic::from_char('2'), Err(Error::LogicParseError('2'))));
    assert!(matches!(Logic::from_char(' '), Err(Error::LogicParseError(' '))));
}

#[test]
fn logic_vectors_grow_and_keep_order() {
    let mut lv = LogicVec::with_capacity(4);
    assert_eq!(lv.len(), 0);
    assert_eq!(lv.get(0), Logic::Z);
    lv.push(Logic::One);
    lv.push(Logic::X);
    lv.set(4, Logic::Zero);
    assert_eq!(lv.len(), 5);
    assert_eq!(lv.iter(), vec![Logic::One, Logic::X, Logic::Z, Logic::Z, Logic::Zero]);
    assert_eq!(lv.get_as(4), 2);
    assert_eq!(lv.get_as(5), 0);
    assert_eq!(lv.to_string(), "0zzx1");
    assert!(lv.capacity() >= lv.len());
    lv.shrink_to_fit();
    assert_eq!(lv.iter(), vec![Logic::One, Logic::X, Logic::Z, Logic::Z, Logic::Zero]);
    assert!(lv.capacity() >= 5);
    assert!(LogicVec::new().capacity() >= LogicVec::new().len());
    let copy = LogicVec::from_iter(&lv.iter());
    assert_eq!(copy.to_string(), "0zzx1");
    assert!(matches!(LogicVec::from_str("01a0b1"), Err(Error::LogicParseError('b'))));
    assert_eq!(LogicVec::from_str("").unwrap().len(), 0);
    let n = LogicVec::from(5);
    assert_eq!(n.len(), usize::BITS as usize);
    assert_eq!(n.get(0), Logic::One);
    assert_eq!(n.get(1), Logic::Zero);
    assert_eq!(n.get(2), Logic::One);
    assert_eq!(n.get(usize::BITS as usize - 1), Logic::Zero);
    assert_eq!(LogicVec::from(usize::MAX).get(usize::BITS as usize - 1), Logic::One);

    let mut one = LogicVec1::with_capacity(2);
    one.push(Logic::One);
    assert_eq!(one.len(), 4);
    assert_eq!((0..5).map(|i| one.get(i)).collect::<Vec<Logic>>(), vec![
        Logic::One,
        Logic::Z,
        Logic::Z,
        Logic::Z,
        Logic::Z
    ]);
    one.set(1, Logic::X);
    one.set(5, Logic::Zero);
    assert_eq!(one.len(), 6);
    assert_eq!(one.get_as(1), 1);
    assert_eq!(one.get_as(5), 2);
    assert_eq!(one.get_as(6), 0);
    assert!(one.capacity() >= one.len());
    one.shrink_to_fit();
    assert_eq!(one.get(5), Logic::Zero);
    assert!(one.capacity() >= 6);
    assert_eq!(LogicVec1::values_in(0), 0);
    assert_eq!(LogicVec1::values_in(1), 0);
    assert_eq!(LogicVec1::values_in(12), 6);
    assert_eq!(LogicVec1::values_in(13), 6);
    assert_eq!(LogicVec1::values_in(usize::MAX), usize::MAX / 2);
}
