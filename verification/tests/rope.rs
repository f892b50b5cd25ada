use enigmatext::error::RopeError;
use enigmatext::node::ceil_log2_of;
use enigmatext::text::Rope;

fn chars(s: &str) -> Vec<char> {
    s.chars().collect()
}

fn text_of(cs: &[char]) -> String {
    cs.iter().collect()
}

#[test]
fn round_trip_keeps_text() {
    let samples = [
        "",
        " ",
        "  ",
        "a",
        "hello",
        "hello world",
        " leading",
        "trailing ",
        "two  spaces",
        "01 3456789",
        "abcdef ghijklmnopqr stuvwxyz",
        "line1\nline2",
        "tabs\tand\nnewlines stay in their fragment",
        "a b c d e f g h i j k l m n o p q r s t u v w x y z",
    ];
    for s in samples {
        let rope = Rope::from_string(s.to_string());
        assert_eq!(rope.collect_string(), s);
        assert_eq!(rope.len(), s.chars().count());
    }
}

#[test]
fn empty_string_is_one_empty_leaf() {
    let rope = Rope::from_string(String::new());
    assert_eq!(rope.len(), 0);
    assert_eq!(rope.leaf_count(), 1);
    assert_eq!(rope.depth(), 0);
    assert_eq!(rope.collect_string(), "");
    assert_eq!(rope.substr(0, 0), Ok(String::new()));
}

#[test]
fn fragments_become_leaves() {
    let cases: [(&str, usize, usize); 9] = [
        ("word", 1, 0),
        ("01 3456789", 2, 1),
        ("a b c", 3, 2),
        ("abcdef ghijklmnopqr stuvwxyz", 3, 2),
        (" a", 2, 1),
        ("a ", 2, 1),
        ("a  b", 3, 2),
        ("a b c d", 4, 2),
        ("a b c d e f g h i", 9, 4),
    ];
    for (s, leaves, depth) in cases {
        let rope = Rope::from_string(s.to_string());
        assert_eq!(rope.leaf_count(), leaves, "leaves of {:?}", s);
        assert_eq!(rope.depth(), depth, "depth of {:?}", s);
    }
}

#[test]
fn length_counts_characters() {
    let s = "h\u{e9}llo w\u{f6}rld \u{1f600}";
    let rope = Rope::from_string(s.to_string());
    assert_eq!(rope.len(), 13);
    assert_eq!(rope.len(), rope.collect_string().chars().count());
    assert_eq!(rope.char_at(1), Ok('\u{e9}'));
    assert_eq!(rope.char_at(12), Ok('\u{1f600}'));
    assert_eq!(rope.substr(6, 11), Ok("w\u{f6}rld".to_string()));
}

#[test]
fn insert_string_example() {
    let mut rope = Rope::from_string("01 3456789".to_string());
    assert_eq!(rope.insert_string_at("hello", 5), Ok(()));
    assert_eq!(rope.collect_string(), "01 34hello56789");
    assert_eq!(rope.len(), 15);
    assert_eq!(rope.leaf_count(), 5);
    assert_eq!(rope.depth(), 3);
}

#[test]
fn insert_char_example() {
    let mut rope = Rope::from_string("abcdef ghijklmnopqr stuvwxyz".to_string());
    assert_eq!(rope.insert_char_at('5', 5), Ok(()));
    assert_eq!(rope.collect_string(), "abcde5f ghijklmnopqr stuvwxyz");
    assert_eq!(rope.len(), 29);
    assert_eq!(rope.leaf_count(), 3);
    assert_eq!(rope.depth(), 2);
}

#[test]
fn insert_string_at_every_index() {
    let s = chars("ab cd  e\u{e9}f");
    let t = "x y\u{f6} z";
    for i in 0..=s.len() {
        let mut rope = Rope::from_string(text_of(&s));
        assert_eq!(rope.insert_string_at(t, i), Ok(()));
        let expected = format!("{}{}{}", text_of(&s[..i]), t, text_of(&s[i..]));
        assert_eq!(rope.collect_string(), expected, "at {}", i);
        assert_eq!(rope.len(), s.len() + t.chars().count());
    }
}

#[test]
fn insert_char_at_every_index() {
    let s = chars("ab cd  e\u{e9}f");
    for i in 0..=s.len() {
        let mut rope = Rope::from_string(text_of(&s));
        assert_eq!(rope.insert_char_at('\u{fc}', i), Ok(()));
        let expected = format!("{}\u{fc}{}", text_of(&s[..i]), text_of(&s[i..]));
        assert_eq!(rope.collect_string(), expected, "at {}", i);
        assert_eq!(rope.len(), s.len() + 1);
    }
}

#[test]
fn inserting_at_the_length_appends() {
    let mut rope = Rope::from_string("one two".to_string());
    assert_eq!(rope.insert_string_at(" three", 7), Ok(()));
    assert_eq!(rope.insert_char_at('!', 13), Ok(()));
    assert_eq!(rope.collect_string(), "one two three!");
}

#[test]
fn inserting_an_empty_text_keeps_the_text() {
    let mut rope = Rope::from_string("one two".to_string());
    assert_eq!(rope.insert_string_at("", 3), Ok(()));
    assert_eq!(rope.collect_string(), "one two");
    assert_eq!(rope.len(), 7);
}

#[test]
fn insert_beyond_the_length_is_refused() {
    let mut rope = Rope::from_string("one two".to_string());
    assert_eq!(rope.insert_char_at('x', 8), Err(RopeError::OutOfRange));
    assert_eq!(rope.insert_string_at("x", 8), Err(RopeError::OutOfRange));
    assert_eq!(rope.insert_string_at("x", usize::MAX), Err(RopeError::OutOfRange));
    assert_eq!(rope.collect_string(), "one two");
    assert_eq!(rope.len(), 7);
    assert_eq!(rope.leaf_count(), 2);
}

#[test]
fn substr_matches_slices() {
    let s = chars("the quick  brown f\u{f6}x");
    let mut rope = Rope::from_string(text_of(&s));
    for a in 0..=s.len() {
        for b in a..=s.len() {
            assert_eq!(rope.substr(a, b), Ok(text_of(&s[a..b])), "{}..{}", a, b);
        }
    }
    rope.insert_string_at("very ", 4).unwrap();
    let s = chars("the very quick  brown f\u{f6}x");
    for a in 0..=s.len() {
        for b in a..=s.len() {
            assert_eq!(rope.substr(a, b), Ok(text_of(&s[a..b])), "{}..{}", a, b);
        }
    }
}

#[test]
fn substr_of_the_whole_is_the_text() {
    let rope = Rope::from_string("abcdef ghijklmnopqr stuvwxyz".to_string());
    assert_eq!(rope.substr(0, rope.len()), Ok(rope.collect_string()));
}

#[test]
fn substr_out_of_range_is_refused() {
    let rope = Rope::from_string("0123456789".to_string());
    assert_eq!(rope.substr(5, 3), Err(RopeError::OutOfRange));
    assert_eq!(rope.substr(0, 11), Err(RopeError::OutOfRange));
    assert_eq!(rope.substr(11, 11), Err(RopeError::OutOfRange));
    assert_eq!(rope.substr(10, 10), Ok(String::new()));
}

#[test]
fn char_at_reads_each_character() {
    let s = chars("ab cd ef");
    let rope = Rope::from_string(text_of(&s));
    for (i, c) in s.iter().enumerate() {
        assert_eq!(rope.char_at(i), Ok(*c));
    }
    assert_eq!(rope.char_at(s.len()), Err(RopeError::OutOfRange));
}

#[test]
fn append_joins_texts() {
    let mut rope = Rope::from_string("left side".to_string());
    let other = Rope::from_string(" and right side".to_string());
    rope.append(other);
    assert_eq!(rope.collect_string(), "left side and right side");
    assert_eq!(rope.len(), 24);
    assert_eq!(rope.leaf_count(), 6);
    assert_eq!(rope.depth(), 3);
    assert_eq!(rope.substr(5, 13), Ok("side and".to_string()));
}

#[test]
fn append_of_empty_ropes() {
    let mut rope = Rope::from_string(String::new());
    rope.append(Rope::from_string(String::new()));
    assert_eq!(rope.collect_string(), "");
    assert_eq!(rope.len(), 0);
    assert_eq!(rope.leaf_count(), 2);
    rope.append(Rope::from_string("x".to_string()));
    assert_eq!(rope.collect_string(), "x");
    assert_eq!(rope.insert_char_at('y', 0), Ok(()));
    assert_eq!(rope.collect_string(), "yx");
}

#[test]
fn length_follows_every_edit() {
    let mut rope = Rope::from_string("a b".to_string());
    let mut expected = 3;
    for i in 0..20 {
        rope.insert_char_at('c', i % (expected + 1)).unwrap();
        expected += 1;
        assert_eq!(rope.len(), expected);
        rope.insert_string_at("de f", (i * 7) % (expected + 1)).unwrap();
        expected += 4;
        assert_eq!(rope.len(), expected);
        assert_eq!(rope.len(), rope.collect_string().chars().count());
    }
}

#[test]
fn rebalance_after_many_char_insertions() {
    let mut rope = Rope::from_string("a b c d e f g h".to_string());
    assert_eq!(rope.leaf_count(), 8);
    let mut model = chars("a b c d e f g h");
    for i in 0..200 {
        let at = (i * 3) % (model.len() + 1);
        rope.insert_char_at('x', at).unwrap();
        model.insert(at, 'x');
    }
    rope.rebalance();
    assert_eq!(rope.leaf_count(), 8);
    assert_eq!(rope.depth(), 3);
    assert_eq!(rope.collect_string(), text_of(&model));
}

#[test]
fn depth_stays_within_its_limit() {
    let mut rope = Rope::from_string("start".to_string());
    let mut model = String::from("start");
    for i in 0..150 {
        rope.insert_string_at("ab", 0).unwrap();
        model.insert_str(0, "ab");
        assert!(rope.depth() <= 2 * ceil_log2_of(rope.leaf_count()), "step {}", i);
        assert!(rope.depth() < rope.leaf_count());
    }
    assert_eq!(rope.collect_string(), model);
    assert_eq!(rope.leaf_count(), 301);
    rope.rebalance();
    assert_eq!(rope.leaf_count(), 301);
    assert_eq!(rope.depth(), 9);
    assert_eq!(rope.collect_string(), model);
}

#[test]
fn append_keeps_the_depth_within_its_limit() {
    let mut rope = Rope::from_string("x".to_string());
    let mut model = String::from("x");
    for _ in 0..100 {
        rope.append(Rope::from_string("y".to_string()));
        model.push('y');
        assert!(rope.depth() <= 2 * ceil_log2_of(rope.leaf_count()));
    }
    assert_eq!(rope.leaf_count(), 101);
    assert_eq!(rope.collect_string(), model);
}

#[test]
fn rebalance_keeps_text_and_leaves() {
    let mut rope = Rope::from_string("a b".to_string());
    rope.insert_string_at("x", 1).unwrap();
    assert_eq!(rope.collect_string(), "ax b");
    assert_eq!(rope.leaf_count(), 5);
    assert_eq!(rope.depth(), 4);
    rope.rebalance();
    assert_eq!(rope.depth(), 3);
    assert_eq!(rope.leaf_count(), 5);
    assert_eq!(rope.collect_string(), "ax b");
    assert_eq!(rope.len(), 4);
}

#[test]
fn a_split_leaf_holds_the_fragments_of_its_parts() {
    let mut rope = Rope::from_string("one".to_string());
    rope.insert_string_at("a b", 2).unwrap();
    assert_eq!(rope.collect_string(), "ona be");
    assert_eq!(rope.leaf_count(), 4);
    assert_eq!(rope.depth(), 3);
}

#[test]
fn ceil_log2_values() {
    let cases: [(usize, usize); 12] = [
        (0, 0),
        (1, 0),
        (2, 1),
        (3, 2),
        (4, 2),
        (5, 3),
        (8, 3),
        (9, 4),
        (1024, 10),
        (1025, 11),
        (usize::MAX / 2 + 1, (usize::BITS - 1) as usize),
        (usize::MAX, usize::BITS as usize),
    ];
    for (n, k) in cases {
        assert_eq!(ceil_log2_of(n), k, "of {}", n);
    }
}

#[test]
fn a_clone_is_a_rope_of_its_own() {
    let mut rope = Rope::from_string("one two".to_string());
    let copy = rope.clone();
    rope.insert_string_at(" and", 3).unwrap();
    assert_eq!(rope.collect_string(), "one and two");
    assert_eq!(copy.collect_string(), "one two");
    assert_eq!(copy.len(), 7);
}

#[test]
fn delete_range_matches_slices() {
    let s = chars("the quick  brown f\u{f6}x");
    for a in 0..=s.len() {
        for b in a..=s.len() {
            let mut rope = Rope::from_string(text_of(&s));
            assert_eq!(rope.delete_range(a, b), Ok(()));
            let expected = format!("{}{}", text_of(&s[..a]), text_of(&s[b..]));
            assert_eq!(rope.collect_string(), expected, "{}..{}", a, b);
            assert_eq!(rope.len(), s.len() - (b - a));
            assert_eq!(rope.leaf_count(), 5);
            assert_eq!(rope.depth(), 3);
        }
    }
}

#[test]
fn delete_range_out_of_range_is_refused() {
    let mut rope = Rope::from_string("0123456789".to_string());
    assert_eq!(rope.delete_range(5, 3), Err(RopeError::OutOfRange));
    assert_eq!(rope.delete_range(0, 11), Err(RopeError::OutOfRange));
    assert_eq!(rope.delete_range(11, 11), Err(RopeError::OutOfRange));
    assert_eq!(rope.collect_string(), "0123456789");
    assert_eq!(rope.delete_range(10, 10), Ok(()));
    assert_eq!(rope.collect_string(), "0123456789");
    assert_eq!(rope.delete_range(0, 10), Ok(()));
    assert_eq!(rope.collect_string(), "");
    assert_eq!(rope.len(), 0);
}

#[test]
fn edits_after_a_deletion_find_their_place() {
    let mut rope = Rope::from_string("one two three four".to_string());
    rope.delete_range(2, 9).unwrap();
    assert_eq!(rope.collect_string(), "onhree four");
    rope.insert_string_at("e t", 2).unwrap();
    assert_eq!(rope.collect_string(), "one three four");
    rope.insert_char_at('!', 14).unwrap();
    assert_eq!(rope.substr(4, 15), Ok("three four!".to_string()));
    assert_eq!(rope.char_at(4), Ok('t'));
    assert_eq!(rope.len(), 15);
}
