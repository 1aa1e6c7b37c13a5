use dtorrent::bencode::{Bencode, BencodeError};

#[test]
fn test_decode_empty_data() {
    let data: &[u8; 0] = &[];
    assert_eq!(Bencode::decode(data), Err(BencodeError::InvalidBencode));
}

#[test]
fn test_decode_string() {
    let data = b"4:spam";

    assert_eq!(
        Bencode::decode(data).unwrap(),
        Bencode::BString(b"spam".to_vec())
    );
}

#[test]
fn test_decode_empty_string() {
    let data = b"0:";
    assert_eq!(
        Bencode::decode(data).unwrap(),
        Bencode::BString(b"".to_vec())
    );
}

#[test]
fn test_decode_positive_integer() {
    let data = b"i3e";
    assert_eq!(Bencode::decode(data).unwrap(), Bencode::BNumber(3));
}

#[test]
fn test_decode_negative_integer() {
    let data = b"i-3e";
    assert_eq!(Bencode::decode(data).unwrap(), Bencode::BNumber(-3));
}

#[test]
fn test_decode_list() {
    let data = b"l4:spam4:eggse";
    assert_eq!(
        Bencode::decode(data).unwrap(),
        Bencode::BList(vec![
            Bencode::BString(b"spam".to_vec()),
            Bencode::BString(b"eggs".to_vec()),
        ])
    );
}

#[test]
fn test_decode_empty_list() {
    let data = b"le";
    assert_eq!(Bencode::decode(data).unwrap(), Bencode::BList(vec![]));
}

#[test]
fn test_decode_nested_list() {
    let data = b"ll3:fooee";
    assert_eq!(
        Bencode::decode(data).unwrap(),
        Bencode::BList(vec![Bencode::BList(vec![Bencode::BString(
            b"foo".to_vec()
        )])])
    );
}

#[test]
fn test_decode_nested_with_2_lists() {
    let data = b"ll3:fooel3:baree";

    assert_eq!(
        Bencode::decode(data).unwrap(),
        Bencode::BList(vec![
            Bencode::BList(vec![Bencode::BString(b"foo".to_vec())]),
            Bencode::BList(vec![Bencode::BString(b"bar".to_vec())])
        ])
    );
}

#[test]
fn test_decode_dict() {
    let data = b"d3:cow3:moo4:spam4:eggse";
    let dict = vec![
        (b"cow".to_vec(), Bencode::BString(b"moo".to_vec())),
        (b"spam".to_vec(), Bencode::BString(b"eggs".to_vec())),
    ];

    assert_eq!(Bencode::decode(data).unwrap(), Bencode::BDict(dict));
}

#[test]
fn test_decode_dict_with_list() {
    let data = b"d4:spaml1:a1:bee";
    let dict = vec![(
        b"spam".to_vec(),
        Bencode::BList(vec![
            Bencode::BString(b"a".to_vec()),
            Bencode::BString(b"b".to_vec()),
        ]),
    )];

    assert_eq!(Bencode::decode(data).unwrap(), Bencode::BDict(dict));
}

#[test]
fn test_decode_longer_dict() {
    let data =
        b"d9:publisher3:bob17:publisher-webpage15:www.example.com18:publisher.location4:homee";
    let dict = vec![
        (b"publisher".to_vec(), Bencode::BString(b"bob".to_vec())),
        (
            b"publisher-webpage".to_vec(),
            Bencode::BString(b"www.example.com".to_vec()),
        ),
        (
            b"publisher.location".to_vec(),
            Bencode::BString(b"home".to_vec()),
        ),
    ];

    assert_eq!(Bencode::decode(data).unwrap(), Bencode::BDict(dict));
}

#[test]
fn test_decode_empty_dict() {
    let data = b"de";
    let dict = vec![];

    assert_eq!(Bencode::decode(data).unwrap(), Bencode::BDict(dict));
}

#[test]
fn test_decode_dict_with_number_and_string() {
    let data = b"d3:fooi42e3:bar5:thinge";
    let dict = vec![
        (b"bar".to_vec(), Bencode::BString(b"thing".to_vec())),
        (b"foo".to_vec(), Bencode::BNumber(42)),
    ];

    assert_eq!(Bencode::decode(data).unwrap(), Bencode::BDict(dict));
}

#[test]
fn test_encode_string() {
    let data = String::from("spam");
    assert_eq!(Bencode::encode(&data), b"4:spam");
}

#[test]
fn test_encode_empty_string() {
    let data = String::from("");
    assert_eq!(Bencode::encode(&data), b"0:");
}

#[test]
fn test_encode_positive_integer() {
    let data = 3;
    assert_eq!(Bencode::encode(&data), b"i3e");
}

#[test]
fn test_encode_negative_integer() {
    let data = -3;
    assert_eq!(Bencode::encode(&data), b"i-3e");
}

#[test]
fn test_encode_vec_of_bytes() {
    let data = b"spam".to_vec();
    assert_eq!(Bencode::encode(&data), b"4:spam");
}

#[test]
fn test_encode_vec_of_strings() {
    let data = vec![String::from("spam"), String::from("eggs")];
    assert_eq!(Bencode::encode(&data), b"l4:spam4:eggse");
}

#[test]
fn test_encode_vec_of_integers() {
    let data = vec![1, 2, 3];
    assert_eq!(Bencode::encode(&data), b"li1ei2ei3ee");
}

#[test]
fn test_encode_nested_list() {
    let data = vec![vec![String::from("spam"), String::from("eggs")]];
    assert_eq!(Bencode::encode(&data), b"ll4:spam4:eggsee");
}

#[test]
fn test_encode_empty_list() {
    let data: Vec<String> = vec![];
    assert_eq!(Bencode::encode(&data), b"le");
}

#[test]
fn test_encode_sorted_dict_round_trips() {
    // a dictionary whose keys are already sorted encodes to the exact
    // input bytes, and decoding them gives the dictionary back
    let data = b"d3:cow3:moo4:spam4:eggse";
    let decoded = Bencode::decode(data).unwrap();
    assert_eq!(Bencode::encode(&decoded), data.to_vec());
}

#[test]
fn test_round_trip_mixed_value() {
    let data = b"d4:infod6:lengthi42e4:name2:hie1:xli1ei-2eee";
    let decoded = Bencode::decode(data).unwrap();
    assert_eq!(Bencode::encode(&decoded), data.to_vec());
}

#[test]
fn test_decode_rejects_truncated_number() {
    let data = b"i42";
    assert_eq!(
        Bencode::decode(data),
        Err(BencodeError::InvalidBencodeNumber)
    );
}

#[test]
fn test_decode_rejects_short_string() {
    let data = b"5:abc";
    assert_eq!(
        Bencode::decode(data),
        Err(BencodeError::InvalidBencodeString)
    );
}

#[test]
fn test_decode_rejects_unclosed_list() {
    let data = b"li1e";
    assert_eq!(Bencode::decode(data), Err(BencodeError::InvalidBencodeList));
}

#[test]
fn test_decode_rejects_non_string_dict_key() {
    let data = b"di1ei2ee";
    assert_eq!(Bencode::decode(data), Err(BencodeError::InvalidBencodeDict));
}

#[test]
fn test_decode_sorts_unsorted_dict_keys() {
    let data = b"d4:spam4:eggs3:cow3:mooe";
    let dict = vec![
        (b"cow".to_vec(), Bencode::BString(b"moo".to_vec())),
        (b"spam".to_vec(), Bencode::BString(b"eggs".to_vec())),
    ];
    assert_eq!(Bencode::decode(data).unwrap(), Bencode::BDict(dict));
}
