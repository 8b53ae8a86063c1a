use ipv4_classify::{AddressTree, Config, Subnet};

fn addr(text: &str) -> Subnet {
    Subnet::from_str(text).unwrap()
}

#[test]
fn single_address_reports_root_group() {
    let mut tree = AddressTree::new();
    tree.push(addr("10.1.2.3")).unwrap();
    let groups = tree.get_subnets_map();
    assert_eq!(1, groups.len());
    assert_eq!("0.0.0.0/0", groups[0].0);
    assert_eq!(vec!["10.1.2.3".to_string()], groups[0].1);
}

#[test]
fn adjacent_addresses_share_a_discovered_subnet() {
    let mut tree = AddressTree::new();
    tree.push(addr("10.1.2.3")).unwrap();
    tree.push(addr("10.1.2.4")).unwrap();
    let groups = tree.get_subnets_map();
    assert_eq!(1, groups.len());
    assert_eq!("10.1.2.0/29", groups[0].0);
    assert_eq!(
        vec!["10.1.2.3".to_string(), "10.1.2.4".to_string()],
        groups[0].1
    );
}

#[test]
fn distant_addresses_merge_under_their_common_supernet() {
    let mut tree = AddressTree::new();
    tree.push(addr("10.128.0.5")).unwrap();
    tree.push(addr("10.0.2.9")).unwrap();
    let groups = tree.get_subnets_map();
    assert_eq!(1, groups.len());
    assert_eq!("10.0.0.0/8", groups[0].0);
    assert_eq!(
        vec!["10.128.0.5".to_string(), "10.0.2.9".to_string()],
        groups[0].1
    );
}

#[test]
fn lone_address_beside_a_subnet_reports_the_root() {
    let mut tree = AddressTree::new();
    tree.push(addr("10.1.2.3")).unwrap();
    tree.push(addr("10.1.2.4")).unwrap();
    tree.push(addr("200.7.7.7")).unwrap();
    let groups = tree.get_subnets_map();
    assert_eq!(1, groups.len());
    assert_eq!("0.0.0.0/0", groups[0].0);
    assert_eq!(
        vec![
            "10.1.2.3".to_string(),
            "10.1.2.4".to_string(),
            "200.7.7.7".to_string()
        ],
        groups[0].1
    );
}

#[test]
fn two_distant_pairs_become_separate_groups() {
    let mut tree = AddressTree::new();
    tree.push(addr("10.1.2.3")).unwrap();
    tree.push(addr("10.1.2.4")).unwrap();
    tree.push(addr("200.7.7.7")).unwrap();
    tree.push(addr("200.7.7.8")).unwrap();
    let groups = tree.get_subnets_map();
    assert_eq!(2, groups.len());
    assert_eq!("10.1.2.0/29", groups[0].0);
    assert_eq!(
        vec!["10.1.2.3".to_string(), "10.1.2.4".to_string()],
        groups[0].1
    );
    assert_eq!("200.7.7.0/28", groups[1].0);
    assert_eq!(
        vec!["200.7.7.7".to_string(), "200.7.7.8".to_string()],
        groups[1].1
    );
}

#[test]
fn aggregate_twice_yields_the_same_mapping() {
    let mut tree = AddressTree::new();
    tree.push(addr("10.1.2.3")).unwrap();
    tree.push(addr("10.1.2.4")).unwrap();
    tree.push(addr("192.168.0.1")).unwrap();
    let first = tree.get_subnets_map();
    let second = tree.get_subnets_map();
    assert_eq!(first, second);
}

#[test]
fn duplicate_address_is_reported_once() {
    let mut tree = AddressTree::new();
    tree.push(addr("10.1.2.3")).unwrap();
    tree.push(addr("10.1.2.3")).unwrap();
    let groups = tree.get_subnets_map();
    assert_eq!(1, groups.len());
    assert_eq!("0.0.0.0/0", groups[0].0);
    assert_eq!(vec!["10.1.2.3".to_string()], groups[0].1);
}

#[test]
fn push_outside_the_node_hands_the_address_back() {
    let ten = Subnet::new(10, 0, 0, 0, 8).unwrap();
    let mut node = AddressTree {
        subnet: ten,
        children: None,
    };
    let outside = addr("11.0.0.1");
    assert_eq!(Err(outside), node.push(outside));
    let inside = addr("10.3.4.5");
    assert_eq!(Ok(()), node.push(inside));
}

#[test]
fn push_all_inserts_from_the_back_of_the_list() {
    let mut tree = AddressTree::new();
    tree.push_all(vec![addr("10.1.2.3"), addr("10.1.2.4")]).unwrap();
    let groups = tree.get_subnets_map();
    assert_eq!(1, groups.len());
    assert_eq!("10.1.2.0/29", groups[0].0);
    assert_eq!(
        vec!["10.1.2.4".to_string(), "10.1.2.3".to_string()],
        groups[0].1
    );
}

#[test]
fn every_address_appears_exactly_once_across_groups() {
    let mut tree = AddressTree::new();
    let inputs = [
        "10.1.2.3",
        "10.1.2.4",
        "10.200.0.1",
        "172.16.9.9",
        "172.16.9.10",
        "8.8.8.8",
    ];
    for a in inputs.iter() {
        tree.push(addr(a)).unwrap();
    }
    let groups = tree.get_subnets_map();
    let mut seen: Vec<String> = vec![];
    for (_, members) in groups.iter() {
        for m in members.iter() {
            seen.push(m.clone());
        }
    }
    seen.sort();
    let mut expected: Vec<String> = inputs.iter().map(|s| s.to_string()).collect();
    expected.sort();
    assert_eq!(expected, seen);
}

#[test]
fn config_has_files() {
    let none = Config::from_parts(vec![], None);
    assert!(!none.has_files());
    let some = Config::from_parts(vec!["a.txt".to_string()], None);
    assert!(some.has_files());
    assert_eq!(vec!["a.txt".to_string()], some.file_names);
}

#[test]
fn config_url_of_builds_the_lookup_address() {
    let config = Config::from_parts(vec![], Some("abc123".to_string()));
    let s = Subnet::new(10, 1, 2, 0, 24).unwrap();
    assert_eq!(
        "https://ipinfo.io/10.1.2.0/24?token=abc123",
        config.url_of(&s)
    );
}

#[test]
fn tree_renders_nested_nodes() {
    let mut tree = AddressTree::new();
    tree.push(addr("10.1.2.3")).unwrap();
    tree.push(addr("10.1.2.4")).unwrap();
    assert_eq!(
        "0.0.0.0/0=>[10.1.2.0/29=>[10.1.2.3/32;10.1.2.4/32;];];",
        tree.to_text()
    );
}
