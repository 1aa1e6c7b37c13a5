use dtorrent::query_params::QueryParams;
use dtorrent::url_encoder::{decode, encode};
use dtorrent::url_parser::{ConnectionProtocol, TrackerUrl, TrackerUrlError};

#[test]
fn test_encode_empty_string_returns_empty_string() {
    assert_eq!("", encode(""));
}

#[test]
fn test_encode_info_hash() {
    let info_hash = "2c6b6858d61da9543d4231a71db4b1c9264b0685";
    let expected_info_hash = "%2c%6b%68%58%d6%1d%a9%54%3d%42%31%a7%1d%b4%b1%c9%26%4b%06%85";

    assert_eq!(expected_info_hash, encode(info_hash));
}

#[test]
fn test_hex_decoder() {
    let infohash = "%124Vx%9A%BC%DE%F1%23Eg%89%AB%CD%EF%124Vx%9A";
    let infohash_bytes = decode(infohash);
    assert_eq!(infohash_bytes, "123456789abcdef123456789abcdef123456789a");
}

#[test]
fn test_query_params_build() {
    let info_hash = "2c6b6858d61da9543d4231a71db4b1c9264b0685".to_string();
    let client_port = 6969;
    let length = 100;
    let peer_id = "test_peer_id".to_string();
    let query_params = QueryParams::new(info_hash.clone(), client_port, length, peer_id.clone());

    assert_eq!(
        query_params.build(),
        format!(
            "?info_hash={}&peer_id={}&port={}&uploaded=0&downloaded=0&left={}&event=started",
            encode(info_hash.as_str()),
            peer_id,
            client_port,
            length
        )
    );
}

#[test]
fn test_https_no_port() {
    let url = String::from("https://www.example.org/ann");
    let parsed_tracker_url = TrackerUrl::parse(&url).unwrap();

    assert_eq!(ConnectionProtocol::Https, parsed_tracker_url.protocol);
    assert_eq!("www.example.org", parsed_tracker_url.host);
    assert_eq!(443, parsed_tracker_url.port);
    assert_eq!("ann", parsed_tracker_url.endpoint);
}

#[test]
fn test_http_no_port() {
    let url = String::from("http://www.example.org/ann");
    let parsed_tracker_url = TrackerUrl::parse(&url).unwrap();

    assert_eq!(ConnectionProtocol::Http, parsed_tracker_url.protocol);
    assert_eq!("www.example.org", parsed_tracker_url.host);
    assert_eq!(80, parsed_tracker_url.port);
    assert_eq!("ann", parsed_tracker_url.endpoint);
}

#[test]
fn test_http_with_port() {
    let url = String::from("http://www.example.org:1337/ann");
    let parsed_tracker_url = TrackerUrl::parse(&url).unwrap();

    assert_eq!(ConnectionProtocol::Http, parsed_tracker_url.protocol);
    assert_eq!("www.example.org", parsed_tracker_url.host);
    assert_eq!(1337, parsed_tracker_url.port);
    assert_eq!("ann", parsed_tracker_url.endpoint);
}

#[test]
fn test_https_with_port() {
    let url = String::from("https://www.example.org:1337/ann");
    let parsed_tracker_url = TrackerUrl::parse(&url).unwrap();

    assert_eq!(ConnectionProtocol::Https, parsed_tracker_url.protocol);
    assert_eq!("www.example.org", parsed_tracker_url.host);
    assert_eq!(1337, parsed_tracker_url.port);
    assert_eq!("ann", parsed_tracker_url.endpoint);
}

#[test]
fn test_invalid_protocol() {
    let url = String::from("udp://www.example.org:1337/ann");

    assert_eq!(
        TrackerUrl::parse(&url),
        Err(TrackerUrlError::UnsupportedConnectionProtocol)
    );
}

#[test]
fn test_invalid_port() {
    let url = String::from("https://www.example.org:12a/ann");
    assert_eq!(
        TrackerUrl::parse(&url),
        Err(TrackerUrlError::InvalidPortNumber)
    );
}

#[test]
fn test_missing_path() {
    let url = String::from("https://www.example.org:123");
    assert_eq!(
        TrackerUrl::parse(&url),
        Err(TrackerUrlError::InvalidTrackerURL)
    );
}
