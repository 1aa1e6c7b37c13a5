use dtorrent::http::{Http, HttpMethod, get_param};

#[test]
fn test_parse_valid_request() {
    let buffer = "GET /announce?info_hash=%b1%11%81%3c%e6%0f%42%91%97%34%82%3d%f5%ec%20%bd%1e%04%e7%f7&peer_id=DTorrent:02284204893&port=6969&uploaded=0&downloaded=0&left=396361728&event=started HTTP/1.1\r\nHost: bttracker.debian.org\r\nUser-Agent: LDTorrent/0.1\r\n\r\n".as_bytes();
    let http = Http::parse(buffer).unwrap();
    let params = vec![
        (
            "info_hash",
            "%b1%11%81%3c%e6%0f%42%91%97%34%82%3d%f5%ec%20%bd%1e%04%e7%f7",
        ),
        ("peer_id", "DTorrent:02284204893"),
        ("port", "6969"),
        ("uploaded", "0"),
        ("downloaded", "0"),
        ("left", "396361728"),
        ("event", "started"),
    ];

    assert_eq!(http.method, HttpMethod::from_str("GET").unwrap());
    assert_eq!(http.endpoint, "/announce");
    assert_eq!(http.params.len(), params.len());
    for (key, value) in params {
        assert_eq!(get_param(&http.params, key).unwrap(), value);
    }
}

#[test]
fn test_parse_request_without_record_cannot_be_parsed() {
    let buffer = "/announce?info_hash=%b1%11%81%3c%e6%0f%42%91%97%34%82%3d%f5%ec%20%bd%1e%04%e7%f7&peer_id=DTorrent:02284204893&port=6969&uploaded=0&downloaded=0&left=396361728&event=started HTTP/1.1\r\nHost: bttracker.debian.org\r\nUser-Agent: LDTorrent/0.1\r\n\r\n".as_bytes();
    assert!(Http::parse(buffer).is_err());
}

#[test]
fn test_parse_request_without_query_cannot_be_parsed() {
    let buffer = "GET\r\nHost: bttracker.debian.org\r\nUser-Agent: LDTorrent/0.1\r\n\r\n".as_bytes();
    assert!(Http::parse(buffer).is_err());
}
