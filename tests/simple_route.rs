use boring_sdn::{route_from_local, route_from_remote, Endpoint};

#[test]
fn it_works() {
    let result = boring_sdn::add(2, 2);
    assert_eq!(result, 4);
}

#[test]
fn local_packets_go_to_the_fixed_peer() {
    let packet = [0x45u8, 0, 0, 20];
    assert_eq!(route_from_local(&packet), Endpoint::v4(0x0ad3_3705, 55001));
}

#[test]
fn remote_packets_are_not_relayed() {
    assert_eq!(route_from_remote(&[1u8, 2, 3]), None);
}
