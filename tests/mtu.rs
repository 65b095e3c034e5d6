use slipstream::compute_mtu;
use slipstream::mtu::compute_mtu_capped;

#[test]
fn mtu_for_test_com() {
    assert_eq!(compute_mtu("test.com".len()).unwrap(), 145);
}

#[test]
fn mtu_for_empty_length() {
    assert_eq!(compute_mtu(0).unwrap(), 150);
}

#[test]
fn mtu_domain_too_long() {
    assert_eq!(compute_mtu(240).unwrap_err().message(), "Domain name is too long for DNS transport");
    assert_eq!(compute_mtu(1000).unwrap_err().message(), "Domain name is too long for DNS transport");
}

#[test]
fn mtu_zero() {
    assert_eq!(compute_mtu(239).unwrap_err().message(), "MTU computed to zero; check domain length");
    assert_eq!(compute_mtu(238).unwrap(), 1);
}

#[test]
fn mtu_with_platform_cap() {
    assert_eq!(compute_mtu_capped(0, Some(100)).unwrap(), 100);
    assert_eq!(compute_mtu_capped(0, Some(512)).unwrap(), 150);
    assert_eq!(
        compute_mtu_capped(0, Some(0)).unwrap_err().message(),
        "MTU computed to zero; check domain length"
    );
}
