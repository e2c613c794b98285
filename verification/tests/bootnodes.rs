use trin::bootnodes::{
    angelfood_bootnodes, default_bootnodes, split_at_commas, str_eq, Bootnode, Bootnodes,
    BootnodesError, Network, ANGELFOOD_TRIN_1_ENR, FLUFFY_2_ENR, TRIN_AMS3_1_ENR,
};
use trin::enr::Enr;

const ENR_A: &str = "enr:-IS4QBISSFfBzsBrjq61iSIxPMfp5ShBTW6KQUglzH_tj8_SJaehXdlnZI-NAkTGeoclwnTB-pU544BQA44BiDZ2rkMBgmlkgnY0gmlwhKEjVaWJc2VjcDI1NmsxoQOSGugH1jSdiE_fRK1FIBe9oLxaWH8D_7xXSnaOVBe-SYN1ZHCCIyg";
const ENR_B: &str = "enr:-IS4QPUT9hwV4YfNTxazR2ltch4qKzvX_HwxQBw8gUN3q1MDfNyaD1EHc1wQZRTUzQQD-RVYx3h4nA1Sqk0Wx9DwzNABgmlkgnY0gmlwhM69ZOyJc2VjcDI1NmsxoQLaI-m2CDIjpwcnUf1ESspvOctJLpIrLA8AZ4zbo_1bFIN1ZHCCIyg";
const ENR_C: &str = "enr:-IS4QB77AROcGX-TSkY-U-SaZJ5ma9ICQj6ETO3FqUdCnTZeJ0mDrdCKUqd5AQ0jrHa7m9-mOLvFFKMV_-tBD8uDYZUBgmlkgnY0gmlwhJ_fCDaJc2VjcDI1NmsxoQN9rahqamBOJfj4u6yssJQJ1-EZoyAw-7HIgp1FwNUdnoN1ZHCCIyg";

#[test]
fn test_bootnodes_default_with_default_bootnodes() {
    let bootnodes = Bootnodes::default();
    assert_eq!(bootnodes, Bootnodes::Default);
    let enrs: Vec<Enr> = bootnodes.to_enrs(Network::Mainnet);
    assert_eq!(enrs.len(), 11);
}

#[test]
fn test_bootnodes_default_with_explicit_default_bootnodes() {
    let bootnodes = Bootnodes::from_str("default").unwrap();
    assert_eq!(bootnodes, Bootnodes::Default);
    let enrs: Vec<Enr> = bootnodes.to_enrs(Network::Mainnet);
    assert_eq!(enrs.len(), 11);
}

#[test]
fn test_bootnodes_default_with_no_bootnodes() {
    let bootnodes = Bootnodes::from_str("none").unwrap();
    assert_eq!(bootnodes, Bootnodes::Empty);
    let enrs: Vec<Enr> = bootnodes.to_enrs(Network::Mainnet);
    assert_eq!(enrs.len(), 0);
}

#[test]
fn test_bootnodes_invalid_enr() {
    let r = Bootnodes::from_str("invalid");
    assert_eq!(r, Err(BootnodesError::InvalidBootnodeArgument));
}

#[test]
fn test_bootnodes_invalid_enr_after_valid_one() {
    let text = format!("{},invalid", ENR_A);
    let r = Bootnodes::from_str(&text);
    assert_eq!(r, Err(BootnodesError::InvalidBootnodeArgument));
}

#[test]
fn test_bootnodes_valid_enrs() {
    let cases = vec![
        (ENR_A.to_string(), 1usize),
        (format!("{},{}", ENR_A, ENR_B), 2),
        (format!("{},{},{}", ENR_A, ENR_B, ENR_C), 3),
    ];
    for (text, expected_length) in cases {
        let bootnodes = Bootnodes::from_str(&text).unwrap();
        match &bootnodes {
            Bootnodes::Custom(list) => {
                assert_eq!(list.len(), expected_length);
                for b in list {
                    assert_eq!(b.alias, "custom");
                }
            }
            other => panic!("expected custom bootnodes, got {:?}", other),
        }
        assert_eq!(bootnodes.to_enrs(Network::Mainnet).len(), expected_length);
        assert_eq!(bootnodes.to_enrs(Network::Angelfood).len(), expected_length);
    }
}

#[test]
fn test_bootnodes_empty_piece_is_invalid() {
    let text = format!("{},", ENR_A);
    assert_eq!(Bootnodes::from_str(&text), Err(BootnodesError::InvalidBootnodeArgument));
    assert_eq!(Bootnodes::from_str(""), Err(BootnodesError::InvalidBootnodeArgument));
}

#[test]
fn test_known_record_keeps_its_alias() {
    let bootnodes = Bootnodes::from_str(TRIN_AMS3_1_ENR).unwrap();
    match bootnodes {
        Bootnodes::Custom(list) => {
            assert_eq!(list.len(), 1);
            assert_eq!(list[0].alias, "trin-ams3-1");
        }
        other => panic!("expected custom bootnodes, got {:?}", other),
    }
    let angelfood = Bootnode::from(Enr::from_text(ANGELFOOD_TRIN_1_ENR).unwrap());
    assert_eq!(angelfood.alias, "angelfood-trin-1");
    let fluffy = Bootnode::from(Enr::from_text(FLUFFY_2_ENR).unwrap());
    assert_eq!(fluffy.alias, "fluffy-2");
}

#[test]
fn test_unknown_record_is_custom() {
    let b = Bootnode::from(Enr::from_text(ENR_B).unwrap());
    assert_eq!(b.alias, "custom");
    assert_eq!(b.enr, Enr::from_text(ENR_B).unwrap());
}

#[test]
fn test_default_and_angelfood_lists() {
    let mainnet = default_bootnodes();
    assert_eq!(mainnet.len(), 11);
    let aliases: Vec<&str> = mainnet.iter().map(|b| b.alias.as_str()).collect();
    assert_eq!(
        aliases,
        vec![
            "trin-ams3-1",
            "trin-nyc1-1",
            "trin-sgp1-1",
            "fluffy-1",
            "fluffy-2",
            "fluffy-3",
            "fluffy-4",
            "ultralight-1",
            "ultralight-2",
            "ultralight-3",
            "ultralight-4",
        ]
    );
    let angelfood = angelfood_bootnodes();
    assert_eq!(angelfood.len(), 1);
    assert_eq!(angelfood[0].alias, "angelfood-trin-1");
    assert_eq!(Bootnodes::Default.to_enrs(Network::Angelfood).len(), 1);
    assert_eq!(
        Bootnodes::Default.to_enrs(Network::Angelfood)[0],
        Enr::from_text(ANGELFOOD_TRIN_1_ENR).unwrap()
    );
}

#[test]
fn test_bootnodes_error_text() {
    assert_eq!(
        BootnodesError::InvalidBootnodeArgument.to_string(),
        "Invalid bootnode argument"
    );
}

#[test]
fn test_split_at_commas_pieces() {
    assert_eq!(split_at_commas("a,bc,,d"), vec!["a", "bc", "", "d"]);
    assert_eq!(split_at_commas("abc"), vec!["abc"]);
    assert_eq!(split_at_commas(""), vec![""]);
    assert_eq!(split_at_commas(","), vec!["", ""]);
}

#[test]
fn test_str_eq_compares_texts() {
    assert!(str_eq("default", "default"));
    assert!(!str_eq("default", "defaults"));
    assert!(!str_eq("none", "nona"));
}
