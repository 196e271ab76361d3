use cytogon::rule::{Rule2, Rule3, RuleBitset2, RuleBitset3};

#[test]
fn rulebitset2() {
    let r0 = RuleBitset2::from_bits(0x01F0u16);
    assert_eq!(r0, RuleBitset2::from_bits(0x01F0u16));
    assert_eq!(r0.to_bits(), 0x01F0u16);
    assert_eq!(r0.to_array()[0..4], [false; 4]);
    assert_eq!(r0.to_array()[4..=8], [true; 5]);
    assert_eq!(RuleBitset2::from_array(r0.to_array()), r0);

    let r1 = RuleBitset2::from_range(1u8, 4u8);
    assert_eq!(r1, RuleBitset2::from_bits(0xEu16));
    assert_eq!(r1.to_bits(), 0xEu16);
    assert_eq!(r1.to_array()[0], false);
    assert_eq!(r1.to_array()[1..4], [true; 3]);
    assert_eq!(r1.to_array()[4..], [false; 5]);
    assert_eq!(RuleBitset2::from_array(r1.to_array()), r1);

    let r2 = RuleBitset2::from_range_inclusive(2u8, 7u8);
    assert_eq!(r2, RuleBitset2::from_bits(0xFCu16));
    assert_eq!(r2.to_bits(), 0xFCu16);
    assert_eq!(r2.to_array()[0..2], [false; 2]);
    assert_eq!(r2.to_array()[2..=7], [true; 6]);
    assert_eq!(r2.to_array()[8], false);
    assert_eq!(RuleBitset2::from_array(r2.to_array()), r2);

    let r12 = r1 | r2;
    assert_eq!(r12, RuleBitset2::from_bits(0xFEu16));
    assert_eq!(r12.to_bits(), 0xFEu16);
    assert_eq!(r12.to_array()[0], false);
    assert_eq!(r12.to_array()[1..=7], [true; 7]);
    assert_eq!(r12.to_array()[8], false);
    assert_eq!(RuleBitset2::from_array(r12.to_array()), r12);
}

#[test]
fn rule2_smooth() {
    // S5-8/B4-8/2/M
    let rule = Rule2 {
        birth: RuleBitset2::from_range_inclusive(5u8, 8u8),
        survive: RuleBitset2::from_range_inclusive(4u8, 8u8),
    };
    assert_eq!(Rule2::smooth(), rule);
}

#[test]
fn rulebitset3() {
    let r0 = RuleBitset3::from_bits(0xFF00u32);
    assert_eq!(r0, RuleBitset3::from_bits(0xFF00u32));
    assert_eq!(r0.to_bits(), 0xFF00u32);
    assert_eq!(r0.to_array()[0..8], [false; 8]);
    assert_eq!(r0.to_array()[8..16], [true; 8]);
    assert_eq!(r0.to_array()[16..], [false; 11]);
    assert_eq!(RuleBitset3::from_array(r0.to_array()), r0);

    let r1 = RuleBitset3::from_range(3u8, 7u8);
    assert_eq!(r1, RuleBitset3::from_bits(0x78u32));
    assert_eq!(r1.to_bits(), 0x78u32);
    assert_eq!(r1.to_array()[0..3], [false; 3]);
    assert_eq!(r1.to_array()[3..7], [true; 4]);
    assert_eq!(r1.to_array()[7..], [false; 20]);
    assert_eq!(RuleBitset3::from_array(r1.to_array()), r1);

    let r2 = RuleBitset3::from_range_inclusive(23u8, 26u8);
    assert_eq!(r2, RuleBitset3::from_bits(0x780_0000u32));
    assert_eq!(r2.to_bits(), 0x780_0000u32);
    assert_eq!(r2.to_array()[0..23], [false; 23]);
    assert_eq!(r2.to_array()[23..], [true; 4]);
    assert_eq!(RuleBitset3::from_array(r2.to_array()), r2);

    let r12 = r1 | r2;
    assert_eq!(r12, RuleBitset3::from_bits(0x780_0078u32));
    assert_eq!(r12.to_bits(), 0x780_0078u32);
    assert_eq!(r12.to_array()[0..3], [false; 3]);
    assert_eq!(r12.to_array()[3..7], [true; 4]);
    assert_eq!(r12.to_array()[7..23], [false; 16]);
    assert_eq!(r12.to_array()[23..], [true; 4]);
    assert_eq!(RuleBitset3::from_array(r12.to_array()), r12);
}

#[test]
fn rule3_smooth() {
    // 13-26/13-14,17-19/2/M
    let rule = Rule3 {
        birth: RuleBitset3::from_range_inclusive(13u8, 14u8)
            | RuleBitset3::from_range_inclusive(17u8, 19u8),
        survive: RuleBitset3::from_range_inclusive(13u8, 26u8),
    };
    assert_eq!(Rule3::smooth(), rule);
}

#[test]
fn rulebitset2_checked_from_bits() {
    assert!(RuleBitset2::checked_from_bits(0xFFFFu16).is_none());
    assert!(RuleBitset2::checked_from_bits(0x0200u16).is_none());
    assert_eq!(
        RuleBitset2::checked_from_bits(0x01FFu16).map(|r| r.to_bits()),
        Some(0x01FFu16)
    );
    assert!(!RuleBitset2::is_valid_bits(0xFFFFu16));
    assert!(RuleBitset2::is_valid_bits(0));
}

#[test]
fn rulebitset3_checked_from_bits() {
    assert!(RuleBitset3::checked_from_bits(0xFFFF_FFFFu32).is_none());
    assert!(RuleBitset3::checked_from_bits(0x0800_0000u32).is_none());
    assert_eq!(
        RuleBitset3::checked_from_bits(0x07FF_FFFFu32).map(|r| r.to_bits()),
        Some(0x07FF_FFFFu32)
    );
}

#[test]
fn rule_or_is_union_of_arrays() {
    let r1 = RuleBitset3::from_range(0, 5);
    let r2 = RuleBitset3::from_range_inclusive(3, 20);
    let both = r1.or_with(r2).to_array();
    for i in 0..27 {
        assert_eq!(both[i], r1.to_array()[i] || r2.to_array()[i]);
    }
    let s1 = RuleBitset2::from_slice(&[true, false, true]);
    let s2 = RuleBitset2::from_range(8, 9);
    let both2 = (s1 | s2).to_array();
    for i in 0..9 {
        assert_eq!(both2[i], s1.to_array()[i] || s2.to_array()[i]);
    }
    assert_eq!((s1 | s2).to_bits(), 0x105);
}

#[test]
fn rule_ranges_and_slices() {
    assert_eq!(RuleBitset2::from_range(0, 9).to_bits(), 0x1FF);
    assert_eq!(RuleBitset2::from_range(4, 4).to_bits(), 0);
    assert_eq!(RuleBitset2::from_range(7, 3).to_bits(), 0);
    assert_eq!(RuleBitset3::from_range(0, 27).to_bits(), 0x7FF_FFFF);
    assert_eq!(RuleBitset3::from_range_inclusive(26, 26).to_bits(), 0x400_0000);
    assert_eq!(RuleBitset2::from_slice(&[]).to_bits(), 0);
    assert_eq!(RuleBitset2::from_slice(&[false, true, true]).to_bits(), 0x6);
    assert_eq!(RuleBitset3::from_slice(&[true; 27]).to_bits(), 0x7FF_FFFF);
    assert!(RuleBitset2::from_range(2, 5).applies(4));
    assert!(!RuleBitset2::from_range(2, 5).applies(5));
    assert!(!RuleBitset2::from_range(0, 9).applies(9));
}

#[test]
fn rule_next_state() {
    let rule = Rule3::smooth();
    assert!(rule.next(true, 13));
    assert!(!rule.next(true, 12));
    assert!(rule.next(false, 14));
    assert!(!rule.next(false, 15));
    assert!(rule.next(false, 19));
    assert!(!rule.next(false, 20));
    assert!(rule.next(true, 26));
    let rule2 = Rule2::new(RuleBitset2::from_range(3, 4), RuleBitset2::from_range(2, 4));
    assert!(rule2.next(false, 3));
    assert!(!rule2.next(false, 2));
    assert!(rule2.next(true, 2));
    assert!(!rule2.next(true, 4));
    assert_eq!(Rule2::smooth().birth.to_bits(), 0x1E0);
    assert_eq!(Rule2::smooth().survive.to_bits(), 0x1F0);
    assert_eq!(Rule3::smooth().birth.to_bits(), 0xE_6000);
    assert_eq!(Rule3::smooth().survive.to_bits(), 0x7FF_E000);
}
