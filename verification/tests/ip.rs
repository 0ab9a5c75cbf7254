use localsend_relay::ip::{forwarded_ip_text, get_ip_group, IpAddress};

#[test]
fn test_get_ip_group() {
    assert_eq!(get_ip_group(IpAddress::V4([1, 2, 3, 4])), "1.2.3.4");
    assert_eq!(get_ip_group(IpAddress::V6([1, 2, 3, 4, 5, 6, 7, 8])), "1:2:3:4");
    assert_eq!(
        get_ip_group(IpAddress::V6([0xa, 0xb, 0xc, 0xd, 0xe, 0xf, 0, 1])),
        "a:b:c:d"
    );
}

#[test]
fn ip_group_multi_digit_values() {
    assert_eq!(get_ip_group(IpAddress::V4([192, 168, 0, 10])), "192.168.0.10");
    assert_eq!(get_ip_group(IpAddress::V4([0, 0, 0, 0])), "0.0.0.0");
    assert_eq!(
        get_ip_group(IpAddress::V6([0x2001, 0xdb8, 0, 0xffff, 1, 2, 3, 4])),
        "2001:db8:0:ffff"
    );
}

#[test]
fn ip_group_same_prefix_same_group() {
    let a = get_ip_group(IpAddress::V6([0x2001, 0xdb8, 1, 2, 9, 9, 9, 9]));
    let b = get_ip_group(IpAddress::V6([0x2001, 0xdb8, 1, 2, 0, 0, 0, 1]));
    let c = get_ip_group(IpAddress::V6([0x2001, 0xdb8, 1, 3, 9, 9, 9, 9]));
    assert_eq!(a, b);
    assert_ne!(a, c);
}

#[test]
fn forwarded_header_takes_last_hop_trimmed() {
    assert_eq!(forwarded_ip_text("1.1.1.1, 2.2.2.2"), "2.2.2.2");
    assert_eq!(forwarded_ip_text("  10.0.0.1  "), "10.0.0.1");
    assert_eq!(forwarded_ip_text("a,b,\t c \n"), "c");
    assert_eq!(forwarded_ip_text("1.2.3.4,"), "");
    assert_eq!(forwarded_ip_text(""), "");
    assert_eq!(forwarded_ip_text("fe80::1"), "fe80::1");
}
