use cidr_chef::calc::apply_command;
use cidr_chef::cidr::tree::IpTree;
use cidr_chef::cidr::ParseError;

fn texts(v: Vec<cidr_chef::cidr::Cidr>) -> Vec<String> {
    v.iter().map(|c| c.to_string()).collect()
}

#[test]
fn families_stay_apart() {
    let mut tree4 = IpTree::<()>::new();
    let mut tree6 = IpTree::<()>::new();
    assert_eq!(apply_command(&mut tree4, &mut tree6, "+10.0.0.0/8"), Ok(true));
    assert_eq!(apply_command(&mut tree4, &mut tree6, "::/0"), Ok(true));
    assert_eq!(apply_command(&mut tree4, &mut tree6, "-::/1"), Ok(true));
    assert_eq!(texts(tree4.extract4()), vec!["10.0.0.0/8"]);
    assert_eq!(texts(tree6.extract6()), vec!["8000:0:0:0:0:0:0:0/1"]);
    assert_eq!(apply_command(&mut tree4, &mut tree6, "-10.0.0.0/8"), Ok(true));
    assert!(tree4.is_empty());
    assert!(!tree6.is_empty());
}

#[test]
fn commands_report_containment_and_errors() {
    let mut tree4 = IpTree::<()>::new();
    let mut tree6 = IpTree::<()>::new();
    assert_eq!(apply_command(&mut tree4, &mut tree6, "-10.0.0.0/8"), Ok(false));
    assert_eq!(apply_command(&mut tree4, &mut tree6, "+bogus"), Err(ParseError::FailedToDetectIpVersion));
    assert_eq!(apply_command(&mut tree4, &mut tree6, "1.2.3.4/40"), Err(ParseError::FailedToParseInt));
    assert!(tree4.is_empty());
    assert!(tree6.is_empty());
}
