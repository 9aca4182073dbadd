use osmose::client::OsmoseClient;
use osmose::identifier::Identifier;
use osmose::wire::decode_request;

#[test]
fn unreachable_authority_means_deny() {
    assert!(!OsmoseClient::verdict(None));
}

#[test]
fn verdict_follows_the_reply() {
    assert!(OsmoseClient::verdict(Some(&[0])));
    assert!(!OsmoseClient::verdict(Some(&[1])));
    assert!(!OsmoseClient::verdict(Some(&[2])));
    assert!(!OsmoseClient::verdict(Some(&[3])));
    assert!(!OsmoseClient::verdict(Some(&[])));
    assert!(!OsmoseClient::verdict(Some(&[0, 0])));
    assert!(!OsmoseClient::verdict(Some(&[9])));
}

#[test]
fn default_client() {
    let client = OsmoseClient::new(31337);
    assert_eq!(client.get_server_address(), "127.0.0.1:9061");
    assert_eq!(client.get_self_id().get_name(), "");
    assert_eq!(client.get_self_id().get_id(), 31337);
    let other = OsmoseClient::from_address("192.168.0.1:12345", 5);
    assert_eq!(other.get_server_address(), "192.168.0.1:12345");
    assert_eq!(other.get_self_id().get_id(), 5);
}

#[test]
fn request_frame_names_the_client_as_destination() {
    let mut client = OsmoseClient::new(1);
    client.set_self_id(Identifier::from_given("server", 5678));
    assert_eq!(client.get_self_id().get_name(), "server");
    let frame = client
        .request_frame(&Identifier::from_given("10.0.0.1:4000", 111), b"Hello!")
        .unwrap();
    let req = decode_request(&frame).unwrap();
    assert_eq!(req.source.get_name(), "10.0.0.1:4000");
    assert_eq!(req.source.get_id(), 111);
    assert_eq!(req.destination.get_name(), "server");
    assert_eq!(req.destination.get_id(), 5678);
    assert_eq!(req.payload, b"Hello!".to_vec());
}
