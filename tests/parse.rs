use boring_sdn::{
    cidr_to_netmask, parse_ipv4, parse_mtu, split_ip_cidr, split_ip_port, tun_mode_default,
    tun_name_default, Command, Config, Endpoint, ParseError,
};

#[test]
fn test_cidr() {
    let cidr = 12;
    let ip = cidr_to_netmask(cidr);
    println!("cidr: {cidr}, mask: {ip}");
    assert_eq!(ip, 0xfff0_0000);
}

#[test]
fn netmask_edges() {
    assert_eq!(cidr_to_netmask(0), 0);
    assert_eq!(cidr_to_netmask(24), 0xffff_ff00);
    assert_eq!(cidr_to_netmask(32), 0xffff_ffff);
}

#[test]
fn dotted_quads() {
    assert_eq!(parse_ipv4(b"10.0.0.1"), Some(0x0a00_0001));
    assert_eq!(parse_ipv4(b"255.255.255.255"), Some(0xffff_ffff));
    assert_eq!(parse_ipv4(b"0.0.0.0"), Some(0));
    assert_eq!(parse_ipv4(b"256.0.0.1"), None);
    assert_eq!(parse_ipv4(b"10.0.0"), None);
    assert_eq!(parse_ipv4(b"10.0.0.1.2"), None);
    assert_eq!(parse_ipv4(b"10.01.0.1"), None);
    assert_eq!(parse_ipv4(b"10..0.1"), None);
    assert_eq!(parse_ipv4(b""), None);
    assert_eq!(parse_ipv4(b"10.+1.0.1"), None);
}

#[test]
fn ip_with_prefix() {
    assert_eq!(split_ip_cidr("10.1.2.3/24"), Ok((0x0a01_0203, 0xffff_ff00)));
    assert_eq!(split_ip_cidr("10.1.2.3"), Ok((0x0a01_0203, 0xffff_ffff)));
    assert_eq!(split_ip_cidr("10.1.2.3/33"), Err(ParseError::BadPrefix));
    assert_eq!(split_ip_cidr("10.1.2.3/"), Err(ParseError::BadPrefix));
    assert_eq!(split_ip_cidr("10.1.2.3/+24"), Ok((0x0a01_0203, 0xffff_ff00)));
    assert_eq!(split_ip_cidr("10.1.2.3/+"), Err(ParseError::BadPrefix));
    assert_eq!(split_ip_cidr("+10.1.2.3/8"), Err(ParseError::BadAddress));
    assert_eq!(split_ip_cidr("10.1.2/8"), Err(ParseError::BadAddress));
}

#[test]
fn ip_with_port() {
    assert_eq!(split_ip_port("192.168.1.2:8080"), Ok(Endpoint::v4(0xc0a8_0102, 8080)));
    assert_eq!(split_ip_port("55001"), Ok(Endpoint::v4(0, 55001)));
    assert_eq!(split_ip_port("1.2.3.4:65536"), Err(ParseError::BadPort));
    assert_eq!(split_ip_port("x"), Err(ParseError::BadPort));
    assert_eq!(split_ip_port("1.2.3.4:+80"), Ok(Endpoint::v4(0x0102_0304, 80)));
    assert_eq!(split_ip_port("+55001"), Ok(Endpoint::v4(0, 55001)));
    assert_eq!(split_ip_port("1.2.3:80"), Err(ParseError::BadAddress));
}

#[test]
fn mtu_values() {
    assert_eq!(parse_mtu("1400"), Ok(1400));
    assert_eq!(parse_mtu("-1"), Ok(-1));
    assert_eq!(parse_mtu("2147483648"), Err(ParseError::BadMtu));
    assert_eq!(parse_mtu("+1400"), Ok(1400));
    assert_eq!(parse_mtu("-2147483648"), Ok(i32::MIN));
    assert_eq!(parse_mtu("-2147483649"), Err(ParseError::BadMtu));
    assert_eq!(parse_mtu("-"), Err(ParseError::BadMtu));
    assert_eq!(parse_mtu("+-1"), Err(ParseError::BadMtu));
}

#[test]
fn defaults() {
    assert_eq!(tun_mode_default(), "tun");
    assert_eq!(tun_name_default(), "");
    let c = Command::new();
    assert_eq!(c.tun_name, "");
    assert_eq!(c.tun_mode, "tun");
    assert_eq!(c.tun_ip_cidr, None);
    assert_eq!(c.listen, Endpoint::v4(0, 55001));
    assert_eq!(c.mtu, 1400);
}

#[test]
fn config_file_options() {
    let config = Config {
        tun_name: String::from("tun7"),
        tun_ip_cidr: Some(String::from("10.8.0.1/16")),
        tun_mode: String::from("tap"),
        listen: String::from("127.0.0.1:6000"),
        mtu: None,
    };
    let c = Command::new().apply_config(&config).unwrap();
    assert_eq!(c.tun_name, "tun7");
    assert_eq!(c.tun_mode, "tap");
    assert_eq!(c.tun_ip_cidr, Some((0x0a08_0001, 0xffff_0000)));
    assert_eq!(c.listen, Endpoint::v4(0x7f00_0001, 6000));
    assert_eq!(c.mtu, 1400);
}

#[test]
fn config_file_errors() {
    let config = Config {
        tun_name: String::new(),
        tun_ip_cidr: None,
        tun_mode: String::from("tun"),
        listen: String::from("1.2.3.4:http"),
        mtu: Some(9000),
    };
    assert_eq!(Command::new().apply_config(&config).err(), Some(ParseError::BadPort));
}

#[test]
fn command_line_options() {
    let c = Command::new()
        .apply_args(
            Some(String::from("tun3")),
            None,
            Some(String::from("bridge")),
            Some(String::from("7000")),
            Some(String::from("1300")),
        )
        .unwrap();
    assert_eq!(c.tun_name, "tun3");
    assert_eq!(c.tun_mode, "tun");
    assert_eq!(c.listen, Endpoint::v4(0, 7000));
    assert_eq!(c.mtu, 1300);
    let c = Command::new()
        .apply_args(None, None, Some(String::from("tap")), None, None)
        .unwrap();
    assert_eq!(c.tun_mode, "tap");
    let e = Command::new().apply_args(None, None, None, None, Some(String::from("big")));
    assert_eq!(e.err(), Some(ParseError::BadMtu));
}
