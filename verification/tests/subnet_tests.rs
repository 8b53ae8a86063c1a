use ipv4_classify::Subnet;

#[test]
fn subnet_root() {
    let root = Subnet::root();
    assert_eq!(0, root.bits);
    assert_eq!(0, root.mask_len);
    assert_eq!(0, root.mask);
}

#[test]
fn subnet_new() {
    let s = Subnet::new(1, 2, 3, 4, 32).unwrap();
    assert_eq!(0x01_02_03_04, s.bits);
    assert_eq!(0xFF_FF_FF_FF, s.mask);
    assert_eq!(32, s.mask_len);

    let s = Subnet::new(10, 2, 3, 4, 24).unwrap();
    assert_eq!(0x0A_02_03_00, s.bits);
    assert_eq!(0xFF_FF_FF_00, s.mask);
    assert_eq!(24, s.mask_len);
}

#[test]
#[should_panic]
fn subnet_new_too_long_mask() {
    Subnet::new(1, 2, 3, 4, 35).unwrap();
}

#[test]
fn subnet_from_str() {
    let s = Subnet::from_str("1.2.3.4/24").unwrap();
    assert_eq!(24, s.mask_len);
    assert_eq!(0xFF_FF_FF_00, s.mask);
    assert_eq!(0x01_02_03_00, s.bits);
}

#[test]
#[should_panic]
fn subnet_from_str_wrong_mask() {
    let s = Subnet::from_str("1.2.3.4/35").unwrap();
    let _ = s;
}

#[test]
fn subnet_from_str_ip() {
    let s = Subnet::from_str("1.2.3.7").unwrap();
    assert_eq!(32, s.mask_len);
    assert_eq!(0xFF_FF_FF_FF, s.mask);
    assert_eq!(0x01_02_03_07, s.bits);
}

#[test]
fn subnet_from_str_too_many_slash() {
    assert_eq!(
        "there are more than 1 / in the address",
        Subnet::from_str("1/2.3/7").err().unwrap().message()
    );
}

#[test]
fn subnet_from_str_too_big_mask() {
    assert_eq!(
        "can't parse netmask from 1.2.3.7/300",
        Subnet::from_str("1.2.3.7/300").err().unwrap().message()
    );
}

#[test]
fn subnet_from_str_wrong_octets_cnt() {
    assert_eq!(
        "address 1.2.3.7.8 doesn't have 4 dot-separated octets",
        Subnet::from_str("1.2.3.7.8").err().unwrap().message()
    );
}

#[test]
fn subnet_from_str_too_big_octet() {
    assert_eq!(
        "unable to parse \"1.2.3.257\": ParseIntError { kind: PosOverflow }",
        Subnet::from_str("1.2.3.257").err().unwrap().message()
    );
}

#[test]
fn subnet_common_of_2_addrs() {
    let s1 = Subnet::new(10, 1, 2, 3, 32).unwrap();
    let s2 = Subnet::new(10, 1, 2, 4, 32).unwrap();
    let result = Subnet::new(10, 1, 2, 0, 29).unwrap();
    assert_eq!(result, Subnet::common_of(&s1, &s2, None).unwrap());
}

#[test]
fn subnet_common_of_2_subnets() {
    let s1 = Subnet::new(10, 1, 2, 255, 24).unwrap();
    let s2 = Subnet::new(10, 1, 2, 240, 26).unwrap();
    let result = Subnet::new(10, 1, 2, 0, 24).unwrap();
    assert_eq!(result, Subnet::common_of(&s1, &s2, None).unwrap());
}

#[test]
fn subnet_common_of_2_subnets_extending_prefix() {
    let s1 = Subnet::new(10, 128, 0, 0, 24).unwrap();
    let s2 = Subnet::new(10, 0, 2, 0, 24).unwrap();
    let result = Subnet::new(10, 0, 0, 0, 8).unwrap();
    assert_eq!(result, Subnet::common_of(&s1, &s2, None).unwrap());
}

#[test]
fn subnet_common_of_2_subnets_extending_subnet_outside_limit() {
    let s1 = Subnet::new(10, 128, 0, 0, 24).unwrap();
    let s2 = Subnet::new(10, 0, 2, 0, 24).unwrap();
    assert_eq!(None, Subnet::common_of(&s1, &s2, Some(16)));
}

#[test]
fn subnet_contains_itself() {
    let s = Subnet::new(10, 1, 2, 0, 24).unwrap();
    assert!(s.contains(&s));
    let root = Subnet::root();
    assert!(root.contains(&root));
    assert!(root.contains(&s));
    assert!(!s.contains(&root));
}

#[test]
fn subnet_contains_narrower_only() {
    let wide = Subnet::new(10, 0, 0, 0, 8).unwrap();
    let narrow = Subnet::new(10, 1, 2, 3, 32).unwrap();
    assert!(wide.contains(&narrow));
    assert!(!narrow.contains(&wide));
    let other = Subnet::new(11, 1, 2, 3, 32).unwrap();
    assert!(!wide.contains(&other));
}

#[test]
fn subnet_common_of_self_is_identity() {
    let s = Subnet::new(192, 168, 7, 0, 24).unwrap();
    assert_eq!(Some(s), Subnet::common_of(&s, &s, None));
}

#[test]
fn subnet_common_of_is_symmetric() {
    let a = Subnet::new(10, 1, 2, 3, 32).unwrap();
    let b = Subnet::new(10, 99, 2, 4, 32).unwrap();
    assert_eq!(
        Subnet::common_of(&a, &b, None),
        Subnet::common_of(&b, &a, None)
    );
    assert_eq!(
        Subnet::common_of(&a, &b, Some(4)),
        Subnet::common_of(&b, &a, Some(4))
    );
}

#[test]
fn subnet_renders_as_dotted_quad_with_mask() {
    let s = Subnet::new(10, 1, 2, 0, 24).unwrap();
    assert_eq!("10.1.2.0/24", s.to_text());
    assert_eq!("10.1.2.0", s.to_addr_text());
    let root = Subnet::root();
    assert_eq!("0.0.0.0/0", root.to_text());
    let full = Subnet::new(255, 255, 255, 255, 32).unwrap();
    assert_eq!("255.255.255.255/32", full.to_text());
}

#[test]
fn subnet_new_clears_bits_below_mask() {
    let s = Subnet::new(1, 2, 3, 4, 24).unwrap();
    assert_eq!(0x01_02_03_00, s.bits);
    let u = Subnet::new(255, 255, 255, 255, 0).unwrap();
    assert_eq!(0, u.bits);
    assert_eq!(0, u.mask);
    assert_eq!(0, u.mask_len);
}

#[test]
fn subnet_from_str_empty_octet() {
    assert_eq!(
        "unable to parse \"1.2..4\": ParseIntError { kind: Empty }",
        Subnet::from_str("1.2..4").err().unwrap().message()
    );
}

#[test]
fn subnet_from_str_bad_digit() {
    assert_eq!(
        "unable to parse \"1.2.3.x\": ParseIntError { kind: InvalidDigit }",
        Subnet::from_str("1.2.3.x").err().unwrap().message()
    );
}

#[test]
fn subnet_from_str_mask_just_over_limit() {
    assert_eq!(
        "mask len is > 32",
        Subnet::from_str("1.2.3.4/33").err().unwrap().message()
    );
}

#[test]
fn subnet_from_str_accepts_plus_sign_like_std() {
    let s = Subnet::from_str("1.2.3.+7/+24").unwrap();
    assert_eq!(24, s.mask_len);
    assert_eq!(0x01_02_03_00, s.bits);
}
