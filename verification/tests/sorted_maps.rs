use tarmac::sorted::SortedMap;
use tarmac::text::{chars_of, push_decimal, push_text, same_text, string_of};

fn keys(map: &SortedMap<u32>) -> Vec<String> {
    map.entries.iter().map(|e| e.0.clone()).collect()
}

#[test]
fn inserting_keeps_the_keys_in_order() {
    let mut map: SortedMap<u32> = SortedMap::new();
    assert_eq!(map.len(), 0);
    assert_eq!(map.insert("m".to_string(), 1), None);
    assert_eq!(map.insert("a".to_string(), 2), None);
    assert_eq!(map.insert("z".to_string(), 3), None);
    assert_eq!(map.insert("ab".to_string(), 4), None);
    assert_eq!(map.insert("".to_string(), 5), None);
    assert_eq!(keys(&map), vec!["", "a", "ab", "m", "z"]);
    assert_eq!(map.len(), 5);
    assert_eq!(map.key_at(2), "ab");
    assert_eq!(map.value_at(2), &4);
}

#[test]
fn inserting_under_a_key_twice_replaces_the_value() {
    let mut map: SortedMap<u32> = SortedMap::new();
    assert_eq!(map.insert("a".to_string(), 1), None);
    assert_eq!(map.insert("b".to_string(), 2), None);
    assert_eq!(map.insert("a".to_string(), 3), Some(1));
    assert_eq!(keys(&map), vec!["a", "b"]);
    assert_eq!(map.get("a"), Some(&3));
    assert_eq!(map.get("b"), Some(&2));
    assert_eq!(map.get("c"), None);
    assert_eq!(map.get(""), None);
}

#[test]
fn search_gives_the_place_of_a_key() {
    let mut map: SortedMap<u32> = SortedMap::new();
    map.insert("b".to_string(), 1);
    map.insert("d".to_string(), 2);
    assert_eq!(map.search(&chars_of("a")), (0, false));
    assert_eq!(map.search(&chars_of("b")), (0, true));
    assert_eq!(map.search(&chars_of("c")), (1, false));
    assert_eq!(map.search(&chars_of("d")), (1, true));
    assert_eq!(map.search(&chars_of("e")), (2, false));
}

#[test]
fn replacing_at_a_position_keeps_the_key() {
    let mut map: SortedMap<u32> = SortedMap::new();
    map.insert("a".to_string(), 1);
    map.insert("b".to_string(), 2);
    assert_eq!(map.replace_at(1, 9), 2);
    assert_eq!(keys(&map), vec!["a", "b"]);
    assert_eq!(map.get("b"), Some(&9));
    assert_eq!(map.get("a"), Some(&1));
}

#[test]
fn texts_convert_to_characters_and_back() {
    assert_eq!(chars_of("h\u{e9}llo"), vec!['h', '\u{e9}', 'l', 'l', 'o']);
    assert_eq!(chars_of(""), Vec::<char>::new());
    assert_eq!(string_of(&vec!['a', '\u{1F600}', 'b']), "a\u{1F600}b");
    assert_eq!(string_of(&Vec::new()), "");
    assert!(same_text("abc", "abc"));
    assert!(!same_text("abc", "abd"));
    assert!(!same_text("abc", "ab"));
    let mut out = vec!['x'];
    push_text(&mut out, "yz");
    assert_eq!(out, vec!['x', 'y', 'z']);
}

#[test]
fn numbers_are_written_in_decimal() {
    let mut out: Vec<char> = Vec::new();
    push_decimal(&mut out, 0);
    out.push(' ');
    push_decimal(&mut out, 7);
    out.push(' ');
    push_decimal(&mut out, 10);
    out.push(' ');
    push_decimal(&mut out, 9007199254740993);
    assert_eq!(string_of(&out), "0 7 10 9007199254740993");
}
