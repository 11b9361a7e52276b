use horreum::command::{
    find_value, get_key, get_key_value, key_from_pairs, key_value_from_pairs, Command, Method,
};
use horreum::error::Error;
use horreum::parse::parse_request;
use std::collections::HashMap;

#[test]
fn command_get() {
    assert_eq!(
        Command::Get {
            key: b"abc".to_vec(),
        },
        Command::new(&Method::Get, Some("key=abc")).unwrap()
    );
}

#[test]
fn command_put() {
    assert_eq!(
        Command::Put {
            key: b"abc".to_vec(),
            value: b"def".to_vec(),
        },
        Command::new(&Method::Put, Some("key=abc&value=def")).unwrap()
    );
}

#[test]
fn command_delete() {
    assert_eq!(
        Command::Delete {
            key: b"abc".to_vec(),
        },
        Command::new(&Method::Delete, Some("key=abc")).unwrap()
    );
}

#[test]
fn invalid_method() {
    assert_eq!(
        Err(Error::InvalidMethod),
        Command::new(&Method::Post, Some("key=a&value=b"))
    );
}

#[test]
#[should_panic]
fn test_get_key_with_empty_query() {
    get_key(None).unwrap();
}

#[test]
fn test_get_key() {
    let query = Some("key=abc");
    assert_eq!(b"abc".to_vec(), get_key(query).unwrap());
}

#[test]
#[should_panic]
fn test_get_key_value_with_empty_query() {
    get_key_value(None).unwrap();
}

#[test]
#[should_panic]
fn test_get_key_value_only_with_key() {
    let query = Some("key=abc");
    get_key_value(query).unwrap();
}

#[test]
#[should_panic]
fn test_get_key_value_only_with_value() {
    let query = Some("value=def");
    get_key_value(query).unwrap();
}

#[test]
fn test_get_key_value() {
    let query = Some("key=abc&value=def");
    assert_eq!(
        (b"abc".to_vec(), b"def".to_vec()),
        get_key_value(query).unwrap()
    );
}

#[test]
fn query_errors() {
    assert_eq!(Err(Error::EmptyQuery), get_key(None));
    assert_eq!(Err(Error::LacksKey), get_key(Some("value=def")));
    assert_eq!(Err(Error::EmptyQuery), get_key_value(None));
    assert_eq!(Err(Error::LacksKey), get_key_value(Some("value=def")));
    assert_eq!(Err(Error::LacksValue), get_key_value(Some("key=abc")));
    assert_eq!(Err(Error::EmptyQuery), get_key_value(Some("other=1")));
    assert_eq!(Err(Error::LacksValue), get_key_value(Some("key=abc&value=")));
    assert_eq!(Err(Error::EmptyQuery), Command::new(&Method::Get, None));
    assert_eq!(Err(Error::InvalidMethod), Command::new(&Method::Other, None));
}

#[test]
fn query_first_key_wins_and_is_decoded() {
    assert_eq!(b"a b".to_vec(), get_key(Some("?key=a%20b&key=c")).unwrap());
    assert_eq!(
        (b"k".to_vec(), "日".as_bytes().to_vec()),
        get_key_value(Some("value=%E6%97%A5&key=k")).unwrap()
    );
}

#[test]
fn error_messages() {
    assert_eq!("Key not specified", Error::LacksKey.message());
    assert_eq!("Invalid HTTP method", Error::InvalidMethod.message());
}

#[test]
fn test_retrieve_query() {
    let expected: HashMap<String, String> = Vec::from([("key".to_string(), "abc".to_string())])
        .into_iter()
        .collect();
    let actual: HashMap<String, String> = parse_request("/?key=abc").into_iter().collect();
    assert_eq!(expected, actual);
}

#[test]
fn test_retrieve_multiple_queries() {
    let expected: HashMap<String, String> = Vec::from([
        ("key".to_string(), "abc".to_string()),
        ("value".to_string(), "def".to_string()),
    ])
    .into_iter()
    .collect();
    let actual: HashMap<String, String> =
        parse_request("/?key=abc&value=def").into_iter().collect();
    assert_eq!(expected, actual);
}

#[test]
fn request_without_query_has_no_pairs() {
    assert!(parse_request("/index.html").is_empty());
    assert_eq!(
        vec![("a".to_string(), "1".to_string())],
        parse_request("/path?a=1")
    );
}

fn pairs(list: &[(&str, &str)]) -> Vec<(String, String)> {
    list.iter()
        .map(|(n, v)| (n.to_string(), v.to_string()))
        .collect()
}

#[test]
fn pairs_give_key_and_value() {
    let given = pairs(&[("value", "v1"), ("key", "k1"), ("key", "k2")]);
    assert_eq!(Some(b"k1".to_vec()), find_value(&given, "key"));
    assert_eq!(None, find_value(&given, "other"));
    assert_eq!(Ok(b"k1".to_vec()), key_from_pairs(&given));
    assert_eq!(
        Ok((b"k1".to_vec(), b"v1".to_vec())),
        key_value_from_pairs(&given)
    );
    assert_eq!(Err(Error::LacksKey), key_from_pairs(&pairs(&[("value", "v")])));
    assert_eq!(
        Err(Error::LacksValue),
        key_value_from_pairs(&pairs(&[("key", "k"), ("value", "")]))
    );
    assert_eq!(Err(Error::EmptyQuery), key_value_from_pairs(&pairs(&[])));
}
