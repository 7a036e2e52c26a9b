use cidr_chef::cidr::tree::IpTree;
use cidr_chef::cidr::Cidr;

fn texts(v: &[Cidr]) -> Vec<String> {
    v.iter().map(|c| c.to_string()).collect()
}

#[test]
fn test_simple() {
    {
        let mut t = IpTree::<()>::new();
        t.add(&Cidr::parse("192.168.0.0/24").unwrap());
        assert!(t.sub(&Cidr::parse("192.168.0.0/24").unwrap()));
        assert!(t.is_empty());
    }
    {
        let mut t = IpTree::<()>::new();
        t.add(&Cidr::parse("0.0.0.0/0").unwrap());
        assert!(t.sub(&Cidr::parse("192.168.0.0/24").unwrap()));
        t.add(&Cidr::parse("192.168.0.0/24").unwrap());
        let lst = t.extract4();
        assert_eq!(lst.len(), 1);
        assert_eq!(lst[0].to_string(), "0.0.0.0/0");
    }
}

#[test]
fn adding_twice_changes_nothing() {
    let x = Cidr::parse("10.1.0.0/16").unwrap();
    let mut once = IpTree::<()>::new();
    once.add(&Cidr::parse("10.0.0.0/16").unwrap());
    once.add(&x);
    let mut twice = IpTree::<()>::new();
    twice.add(&Cidr::parse("10.0.0.0/16").unwrap());
    twice.add(&x);
    twice.add(&x);
    assert_eq!(once.extract4(), twice.extract4());
    assert_eq!(texts(&twice.extract4()), vec!["10.0.0.0/15"]);
}

#[test]
fn fresh_tree_is_empty() {
    let t = IpTree::<()>::new();
    assert!(t.is_empty());
    assert!(t.extract4().is_empty());
    assert!(t.extract6().is_empty());
}

#[test]
fn whole_space_round_trip() {
    let mut t = IpTree::<()>::new();
    t.add(&Cidr::parse("0.0.0.0/0").unwrap());
    assert_eq!(texts(&t.extract4()), vec!["0.0.0.0/0"]);
    let mut t6 = IpTree::<()>::new();
    t6.add(&Cidr::parse("::/0").unwrap());
    assert_eq!(texts(&t6.extract6()), vec!["0:0:0:0:0:0:0:0/0"]);
}

#[test]
fn recombination() {
    let mut t = IpTree::<()>::new();
    t.add(&Cidr::parse("0.0.0.0/0").unwrap());
    t.sub(&Cidr::parse("192.168.0.0/24").unwrap());
    t.add(&Cidr::parse("192.168.0.0/24").unwrap());
    assert_eq!(texts(&t.extract4()), vec!["0.0.0.0/0"]);
}

#[test]
fn complement_decomposition() {
    let mut t = IpTree::<()>::new();
    t.add(&Cidr::parse("0.0.0.0/0").unwrap());
    assert!(t.sub(&Cidr::parse("192.168.0.0/24").unwrap()));
    let out = t.extract4();
    assert_eq!(out.len(), 24);
    let mut bits: Vec<usize> = out.iter().map(|c| c.bits).collect();
    bits.sort();
    assert_eq!(bits, (1..=24).collect::<Vec<usize>>());
    let hole: u128 = 0xc0a8_0000;
    let mut covered: u128 = 0;
    for c in &out {
        let size: u128 = 1u128 << (32 - c.bits);
        assert_eq!(c.address % size, 0);
        let overlaps = c.address < hole + 256 && hole < c.address + size;
        assert!(!overlaps);
        covered += size;
    }
    assert_eq!(covered, (1u128 << 32) - 256);
    assert_eq!(out[0].to_string(), "0.0.0.0/1");
    assert_eq!(out[23].to_string(), "224.0.0.0/3");
}

#[test]
fn disjoint_subtraction_reports_false() {
    let mut t = IpTree::<()>::new();
    assert!(!t.sub(&Cidr::parse("10.0.0.0/8").unwrap()));
    assert!(t.is_empty());
}

#[test]
fn partial_subtraction_reports_false() {
    let mut t = IpTree::<()>::new();
    t.add(&Cidr::parse("10.0.0.0/9").unwrap());
    assert!(!t.sub(&Cidr::parse("10.0.0.0/8").unwrap()));
    assert!(t.is_empty());
    let mut u = IpTree::<()>::new();
    u.add(&Cidr::parse("10.0.0.0/9").unwrap());
    assert!(u.sub(&Cidr::parse("10.0.0.0/10").unwrap()));
    assert_eq!(texts(&u.extract4()), vec!["10.64.0.0/10"]);
}

#[test]
fn ascending_order() {
    let mut t = IpTree::<()>::new();
    for s in ["200.0.0.0/8", "10.0.0.0/8", "172.16.0.0/12", "192.168.1.0/24", "11.0.0.0/8", "1.2.3.4/32"] {
        t.add(&Cidr::parse(s).unwrap());
    }
    let out = t.extract4();
    assert_eq!(
        texts(&out),
        vec!["1.2.3.4/32", "10.0.0.0/7", "172.16.0.0/12", "192.168.1.0/24", "200.0.0.0/8"]
    );
    for w in out.windows(2) {
        assert!(w[0].address < w[1].address);
    }
}

#[test]
fn ipv6_subtraction() {
    let mut t = IpTree::<()>::new();
    t.add(&Cidr::parse("2001:db8::/32").unwrap());
    assert!(t.sub(&Cidr::parse("2001:db8:8000::/33").unwrap()));
    assert_eq!(texts(&t.extract6()), vec!["2001:db8:0:0:0:0:0:0/33"]);
}
