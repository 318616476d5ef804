use dht_rs::bencode::{Dict, Object};

fn parse_and_cmp(bytes: &[u8], expected: Object) {
    if let Some((obj, left)) = Object::decode(bytes) {
        assert_eq!(obj, expected);
        assert!(left.is_empty());
    } else {
        panic!("decode error!");
    }
}

fn assert_encode_decode_roundtrip(original_obj: &Object, expected_encoded: &[u8]) {
    let encoded_bytes = original_obj.encode();
    assert_eq!(encoded_bytes, expected_encoded, "not eq: {:?}", original_obj);

    match Object::decode(&encoded_bytes) {
        Some((decoded_obj, left)) => {
            assert_eq!(&decoded_obj, original_obj, "not eq: {:?}", encoded_bytes);
            assert!(left.is_empty());
        }
        None => {
            panic!("can not decode: {:?}", encoded_bytes);
        }
    }
}

#[test]
fn test_decode_int() {
    parse_and_cmp(b"i0e", Object::Int(0));
    parse_and_cmp(b"i42e", Object::Int(42));
    parse_and_cmp(b"i-42e", Object::Int(-42));
    parse_and_cmp(b"i1234567890e", Object::Int(1234567890));
    parse_and_cmp(b"i9223372036854775807e", Object::Int(i64::MAX));
    parse_and_cmp(b"i-9223372036854775808e", Object::Int(i64::MIN));
}

#[test]
fn test_decode_string() {
    parse_and_cmp(b"4:spam", Object::String(b"spam".to_vec()));
    parse_and_cmp(b"0:", Object::String(b"".to_vec()));
    parse_and_cmp(b"10:0123456789", Object::String(b"0123456789".to_vec()));
    parse_and_cmp(b"3:a b", Object::String(b"a b".to_vec()));
}

#[test]
fn test_decode_list() {
    let list = Object::List(vec![Object::Int(1), Object::Int(2)]);
    let bytes = b"li1ei2ee";
    parse_and_cmp(bytes, list);
}

#[test]
fn test_encode_int() {
    assert_encode_decode_roundtrip(&Object::Int(123), b"i123e");
    assert_encode_decode_roundtrip(&Object::Int(0), b"i0e");
    assert_encode_decode_roundtrip(&Object::Int(-45), b"i-45e");
}

#[test]
fn test_encode_string() {
    assert_encode_decode_roundtrip(&Object::String(b"spam".to_vec()), b"4:spam");
    assert_encode_decode_roundtrip(&Object::String(b"".to_vec()), b"0:");
}

#[test]
fn test_encode_list() {
    assert_encode_decode_roundtrip(&Object::List(Vec::new()), b"le");
    let list = Object::List(vec![Object::Int(1), Object::String(b"two".to_vec())]);
    assert_encode_decode_roundtrip(&list, b"li1e3:twoe");
}

#[test]
fn test_encode_dict() {
    assert_encode_decode_roundtrip(&Object::Dict(Dict::new()), b"de");
    let mut dict = Dict::new();
    dict.insert(b"key1".to_vec(), Object::Int(100));
    dict.insert(b"alpha".to_vec(), Object::String(b"val".to_vec())); // "alpha" < "key1"
    assert_encode_decode_roundtrip(&Object::Dict(dict), b"d5:alpha3:val4:key1i100ee");
}

#[test]
fn test_encode_nested_structure() {
    let mut inner_dict = Dict::new();
    inner_dict.insert(b"c".to_vec(), Object::Int(3));

    let obj = Object::List(vec![
        Object::Int(1),
        Object::Dict(inner_dict),
        Object::String(b"end".to_vec()),
    ]);
    // l i1e d 1:c i3e e 3:end e
    assert_encode_decode_roundtrip(&obj, b"li1ed1:ci3ee3:ende");
}

#[test]
fn broken_input_is_refused() {
    let inputs: [&[u8]; 10] = [
        b"", b"i42", b"ie", b"i4-2e", b"5:spam", b"l", b"li1e", b"d1:a", b"di1ei2ee", b"x",
    ];
    for input in inputs {
        assert!(Object::decode(input).is_none(), "{:?}", input);
    }
    assert!(Object::decode(b"i9223372036854775808e").is_none());
}

#[test]
fn decoding_leaves_the_rest() {
    let (object, left) = Object::decode(b"4:spamleft").unwrap();
    assert_eq!(object, Object::String(b"spam".to_vec()));
    assert_eq!(left, b"left");
    assert!(Object::parse(b"4:spamleft").is_none());
    assert_eq!(Object::parse(b"4:spam"), Some(Object::String(b"spam".to_vec())));
}

#[test]
fn dict_keeps_the_last_value_of_a_key() {
    let mut dict = Dict::new();
    dict.insert(b"b".to_vec(), Object::Int(1));
    dict.insert(b"a".to_vec(), Object::Int(2));
    dict.insert(b"b".to_vec(), Object::Int(3));
    assert_eq!(dict.len(), 2);
    assert_eq!(dict.key_at(0), b"a");
    assert_eq!(dict.value_at(1), &Object::Int(3));
    assert_eq!(dict.get(b"b"), Some(&Object::Int(3)));
    assert_eq!(dict.get(b"c"), None);
    assert_eq!(Object::Dict(dict).encode(), b"d1:ai2e1:bi3ee");
    let pairs = vec![
        (b"z".to_vec(), Object::Int(1)),
        (b"y".to_vec(), Object::Int(2)),
        (b"z".to_vec(), Object::Int(9)),
    ];
    assert_eq!(Object::Dict(Dict::from_pairs(pairs)).encode(), b"d1:yi2e1:zi9ee");
}

#[test]
fn fields_of_objects() {
    let object = Object::parse(b"d2:abi7e2:cd3:xyz1:lli1eee").unwrap();
    assert_eq!(object.int_field("ab"), Some(7));
    assert_eq!(object.int_field("cd"), None);
    assert_eq!(object.str_field("cd").unwrap(), b"xyz");
    assert_eq!(object.list_field("l").unwrap().len(), 1);
    assert!(object.field("zz").is_none());
    assert!(object.id_field("cd").is_none());
    assert_eq!(object.as_int(), None);
    assert!(object.as_dict().is_some());
    assert!(Object::from(5i64).get(b"ab").is_none());
    assert_eq!(Object::from(b"xyz".to_vec()).as_string().unwrap(), b"xyz");
}
