use railyard::ordered::{relate, OrderedMap, Relation};
use railyard::text::{centered_line, copied, decimal_text, integer_text, joined_text, line_text};

fn strings(parts: &[&str]) -> Vec<String> {
    parts.iter().map(|p| p.to_string()).collect()
}

#[test]
fn joins_with_the_separator_between() {
    assert_eq!(joined_text(&strings(&[]), ","), "");
    assert_eq!(joined_text(&strings(&["a"]), ","), "a");
    assert_eq!(joined_text(&strings(&["a", "b", "c"]), ","), "a,b,c");
    assert_eq!(joined_text(&strings(&["", ""]), ", "), ", ");
    assert_eq!(copied(&strings(&["x", "y"])), strings(&["x", "y"]));
}

#[test]
fn numbers_read_as_rust_writes_them() {
    for n in [0u64, 7, 9, 10, 42, 99, 100, 1203, u64::MAX] {
        assert_eq!(decimal_text(n), format!("{}", n));
    }
    for n in [0i32, 1, -1, 127, -101, i32::MAX, i32::MIN] {
        assert_eq!(integer_text(n), format!("{}", n));
    }
    assert_eq!(integer_text(-12), "-12");
}

#[test]
fn lines_end_in_a_newline() {
    assert_eq!(line_text("done"), "done\n");
    assert_eq!(line_text(""), "\n");
}

#[test]
fn titles_are_centered_as_rust_centers_them() {
    let long = "x".repeat(81);
    for message in [" 2 Tasks Failed ", " build ", "", " \u{e9}t\u{e9} ", long.as_str()] {
        assert_eq!(
            centered_line(message),
            format!("{:=^width$}\n", message, width = 80)
        );
    }
    assert_eq!(
        centered_line(" abc "),
        format!("{} abc {}\n", "=".repeat(37), "=".repeat(38))
    );
    assert_eq!(centered_line(&long), format!("{}\n", long));
}

#[test]
fn names_are_ordered_by_their_bytes() {
    let names = ["", "a", "ab", "b", "B", "a b", "\u{e9}", "z", "\u{10000}", "\u{ffff}"];
    for x in names {
        for y in names {
            let relation = if x < y {
                Relation::Before
            } else if x == y {
                Relation::Same
            } else {
                Relation::After
            };
            assert_eq!(relate(x, y), relation);
        }
    }
}

#[test]
fn a_map_keeps_its_names_in_order() {
    let mut map: OrderedMap<u32> = OrderedMap::new();
    assert_eq!(map.len(), 0);
    assert_eq!(map.insert("pear".to_string(), 1), None);
    assert_eq!(map.insert("apple".to_string(), 2), None);
    assert_eq!(map.insert("quince".to_string(), 3), None);
    assert_eq!(map.insert("pear".to_string(), 4), Some(1));
    assert_eq!(map.len(), 3);
    let listed: Vec<(String, u32)> = (0..map.len())
        .map(|i| {
            let (name, value) = map.at(i);
            (name.clone(), *value)
        })
        .collect();
    assert_eq!(
        listed,
        vec![
            ("apple".to_string(), 2),
            ("pear".to_string(), 4),
            ("quince".to_string(), 3)
        ]
    );
    assert_eq!(map.get("pear"), Some(&4));
    assert_eq!(map.get("plum"), None);
    *map.get_mut("apple").unwrap() += 10;
    assert_eq!(map.get("apple"), Some(&12));
    assert!(map.get_mut("plum").is_none());
    map.clear();
    assert_eq!(map.len(), 0);
    assert_eq!(map.get("pear"), None);
}
