use linear_map::{
    DecodeError, LinearMap, LinearMapVisitor, LinearSet, LinearSetVisitor, MapAccess, SeqAccess,
};

fn map_entries(map: &LinearMap<char, i32>) -> Vec<(char, i32)> {
    let mut out = Vec::new();
    let mut i = 0;
    while let Some((k, v)) = map.entry_at(i) {
        out.push((*k, *v));
        i += 1;
    }
    out
}

fn set_items(set: &LinearSet<char>) -> Vec<char> {
    let mut out = Vec::new();
    let mut i = 0;
    while let Some(item) = set.item_at(i) {
        out.push(*item);
        i += 1;
    }
    out
}

#[test]
fn visit_unit_gives_the_empty_map() {
    let mut visitor = LinearMapVisitor::<char, i32>::new();
    let map = visitor.visit_unit::<String>().unwrap();
    assert_eq!(map.len(), 0);
}

#[test]
fn visit_unit_gives_the_empty_set() {
    let mut visitor = LinearSetVisitor::<char>::new();
    let set = visitor.visit_unit::<String>().unwrap();
    assert_eq!(set.len(), 0);
}

#[test]
fn visit_map_inserts_in_arrival_order() {
    let mut visitor = LinearMapVisitor::new();
    let access: MapAccess<char, i32, String> = MapAccess {
        hint: Some(3),
        fetches: vec![Ok(('b', 20)), Ok(('a', 10)), Ok(('c', 30))],
        closing: Ok(()),
    };
    let map = visitor.visit_map(access).unwrap();
    assert_eq!(map_entries(&map), vec![('b', 20), ('a', 10), ('c', 30)]);
}

#[test]
fn visit_map_takes_any_hint() {
    for hint in [None, Some(0), Some(1), Some(3), Some(50), Some(usize::MAX)] {
        let mut visitor = LinearMapVisitor::new();
        let access: MapAccess<char, i32, String> = MapAccess {
            hint,
            fetches: vec![Ok(('b', 20)), Ok(('a', 10)), Ok(('c', 30))],
            closing: Ok(()),
        };
        let map = visitor.visit_map(access).unwrap();
        assert_eq!(map_entries(&map), vec![('b', 20), ('a', 10), ('c', 30)]);
    }
}

#[test]
fn visit_map_overwrites_in_place() {
    let mut visitor = LinearMapVisitor::new();
    let access: MapAccess<char, i32, String> = MapAccess {
        hint: None,
        fetches: vec![Ok(('b', 1)), Ok(('a', 2)), Ok(('b', 3)), Ok(('a', 4)), Ok(('c', 5))],
        closing: Ok(()),
    };
    let map = visitor.visit_map(access).unwrap();
    assert_eq!(map_entries(&map), vec![('b', 3), ('a', 4), ('c', 5)]);
}

#[test]
fn visit_map_hands_on_the_failure_of_the_second_pair() {
    let mut visitor = LinearMapVisitor::new();
    let access: MapAccess<char, i32, String> = MapAccess {
        hint: Some(3),
        fetches: vec![
            Ok(('b', 20)),
            Err(String::from("key of the second pair")),
            Ok(('c', 30)),
            Err(String::from("a later failure")),
        ],
        closing: Err(String::from("closing")),
    };
    assert_eq!(
        visitor.visit_map(access).err(),
        Some(DecodeError(String::from("key of the second pair")))
    );
}

#[test]
fn visit_map_hands_on_the_failure_of_the_closing() {
    let mut visitor = LinearMapVisitor::new();
    let access: MapAccess<char, i32, String> = MapAccess {
        hint: Some(1),
        fetches: vec![Ok(('b', 20))],
        closing: Err(String::from("not closed")),
    };
    assert_eq!(
        visitor.visit_map(access).err(),
        Some(DecodeError(String::from("not closed")))
    );
}

#[test]
fn map_steps_build_the_map() {
    let mut visitor = LinearMapVisitor::<char, i32>::new();
    let mut values = visitor.open(Some(2));
    assert_eq!(values.len(), 0);
    assert_eq!(visitor.absorb::<String>(&mut values, Ok(Some(('b', 20)))), Ok(true));
    assert_eq!(visitor.absorb::<String>(&mut values, Ok(Some(('a', 10)))), Ok(true));
    assert_eq!(visitor.absorb::<String>(&mut values, Ok(Some(('b', 21)))), Ok(true));
    assert_eq!(visitor.absorb::<String>(&mut values, Ok(None)), Ok(false));
    assert_eq!(map_entries(&values), vec![('b', 21), ('a', 10)]);
    let map = visitor.close::<String>(values, Ok(())).unwrap();
    assert_eq!(map_entries(&map), vec![('b', 21), ('a', 10)]);
}

#[test]
fn map_steps_hand_on_failures() {
    let mut visitor = LinearMapVisitor::<char, i32>::new();
    let mut values = visitor.open(None);
    assert_eq!(visitor.absorb::<String>(&mut values, Ok(Some(('b', 20)))), Ok(true));
    assert_eq!(
        visitor.absorb(&mut values, Err(String::from("no key"))),
        Err(DecodeError(String::from("no key")))
    );
    assert_eq!(map_entries(&values), vec![('b', 20)]);
    assert_eq!(
        visitor.close(values, Err(String::from("no end"))).err(),
        Some(DecodeError(String::from("no end")))
    );
}

#[test]
fn visit_seq_inserts_in_arrival_order() {
    for hint in [None, Some(0), Some(3), Some(usize::MAX)] {
        let mut visitor = LinearSetVisitor::new();
        let access: SeqAccess<char, String> = SeqAccess {
            hint,
            fetches: vec![Ok('b'), Ok('a'), Ok('b'), Ok('c')],
            closing: Ok(()),
        };
        let set = visitor.visit_seq(access).unwrap();
        assert_eq!(set_items(&set), vec!['b', 'a', 'c']);
    }
}

#[test]
fn visit_seq_hands_on_the_first_failure() {
    let mut visitor = LinearSetVisitor::new();
    let access: SeqAccess<char, String> = SeqAccess {
        hint: Some(3),
        fetches: vec![Ok('b'), Err(String::from("second element")), Err(String::from("third"))],
        closing: Ok(()),
    };
    assert_eq!(
        visitor.visit_seq(access).err(),
        Some(DecodeError(String::from("second element")))
    );
    let mut visitor = LinearSetVisitor::new();
    let access: SeqAccess<char, String> = SeqAccess {
        hint: None,
        fetches: vec![Ok('b')],
        closing: Err(String::from("not closed")),
    };
    assert_eq!(
        visitor.visit_seq(access).err(),
        Some(DecodeError(String::from("not closed")))
    );
}

#[test]
fn set_steps_build_the_set() {
    let mut visitor = LinearSetVisitor::<char>::new();
    let mut values = visitor.open(Some(2));
    assert_eq!(visitor.absorb::<String>(&mut values, Ok(Some('b'))), Ok(true));
    assert_eq!(visitor.absorb::<String>(&mut values, Ok(Some('a'))), Ok(true));
    assert_eq!(visitor.absorb::<String>(&mut values, Ok(Some('b'))), Ok(true));
    assert_eq!(
        visitor.absorb(&mut values, Err(String::from("no element"))),
        Err(DecodeError(String::from("no element")))
    );
    assert_eq!(visitor.absorb::<String>(&mut values, Ok(None)), Ok(false));
    assert_eq!(set_items(&values), vec!['b', 'a']);
    let set = visitor.close::<String>(values, Ok(())).unwrap();
    assert_eq!(set_items(&set), vec!['b', 'a']);
    let mut values = visitor.open(None);
    values.insert('x');
    assert_eq!(
        visitor.close(values, Err(String::from("no end"))).err(),
        Some(DecodeError(String::from("no end")))
    );
}
