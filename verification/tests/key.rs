use advent_lib::key::Key;
use advent_lib::parsing::ErrorKind;

fn parse(input: &str) -> Result<Key, ErrorKind> {
    Key::parse(input.as_bytes()).map(|(_, key)| key)
}

#[test]
fn back_and_forth() {
    for test_string in [&"aaa"[..], &"zzz"[..], &"hello"[..], &"world"[..]] {
        let key = parse(test_string).unwrap();
        assert_eq!(test_string, key.to_string())
    }
}

#[test]
fn stop_parsing_on_other_characters() {
    let input = b"abc7*";
    let (consumed, key) = Key::parse(input).unwrap();
    assert_eq!((&input[consumed..], key), (&b"*"[..], Key::fixed(b"abc7")));
}

#[test]
fn parse_maximum_of_12_characters() {
    let input = b"abcdefghijklmno";
    let (consumed, key) = Key::parse(input).unwrap();
    assert_eq!((&input[consumed..], key), (&b"mno"[..], Key::fixed(b"abcdefghijkl")));
}

#[test]
fn predictable_raw_keys() {
    assert_eq!(parse("a").unwrap(), Key::from(0));
    assert_eq!(parse("ab").unwrap(), Key::from(37));
    assert_eq!(parse("columns").unwrap(), Key::from(7458492186));
}

#[test]
fn const_keys_should_match() {
    assert_eq!(parse("text").unwrap(), Key::fixed(b"text"));
}

#[test]
fn keys_need_a_character() {
    assert_eq!(parse("*abc"), Err(ErrorKind::TakeWhileMN));
    assert_eq!(Key::fixed(b"Hello"), Key::fixed(b"hello"));
    assert_eq!(Key::fixed(b"abc").last_char(), b'c');
}
