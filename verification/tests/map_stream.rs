use linear_map::{DecodeError, LinearMap, MapToken, TokenError};

fn entries(map: &LinearMap<char, i32>) -> Vec<(char, i32)> {
    let mut out = Vec::new();
    let mut i = 0;
    while let Some((k, v)) = map.entry_at(i) {
        out.push((*k, *v));
        i += 1;
    }
    out
}

fn written(map: &LinearMap<char, i32>) -> Vec<MapToken<char, i32>> {
    map.serialize()
        .into_iter()
        .map(|token| match token {
            MapToken::Unit => MapToken::Unit,
            MapToken::Start(n) => MapToken::Start(n),
            MapToken::Key(k) => MapToken::Key(*k),
            MapToken::Value(v) => MapToken::Value(*v),
            MapToken::End => MapToken::End,
        })
        .collect()
}

fn refused(tokens: Vec<MapToken<char, i32>>) -> usize {
    match LinearMap::deserialize(tokens) {
        Ok(_) => panic!("the stream was read as a map"),
        Err(DecodeError(TokenError { position })) => position,
    }
}

#[test]
fn test_ser_de_empty() {
    let map = LinearMap::<char, i32>::new();

    let tokens = vec![MapToken::Start(Some(0)), MapToken::End];
    assert_eq!(written(&map), tokens);
    let back = LinearMap::deserialize(tokens).unwrap();
    assert_eq!(entries(&back), entries(&map));
    assert!(back.is_empty());
}

#[test]
fn test_ser_de() {
    let mut map = LinearMap::new();
    map.insert('b', 20);
    map.insert('a', 10);
    map.insert('c', 30);

    let tokens = vec![
        MapToken::Start(Some(3)),
        MapToken::Key('b'),
        MapToken::Value(20),
        MapToken::Key('a'),
        MapToken::Value(10),
        MapToken::Key('c'),
        MapToken::Value(30),
        MapToken::End,
    ];
    assert_eq!(written(&map), tokens);
    let back = LinearMap::deserialize(tokens).unwrap();
    assert_eq!(entries(&back), vec![('b', 20), ('a', 10), ('c', 30)]);
    assert_eq!(entries(&back), entries(&map));
}

#[test]
fn map_round_trip_keeps_entries_and_order() {
    let mut map = LinearMap::new();
    for (k, v) in [('z', 1), ('m', -5), ('a', 7), ('q', 0), ('b', 7)] {
        assert_eq!(map.insert(k, v), None);
    }
    let back = LinearMap::deserialize(written(&map)).unwrap();
    assert_eq!(entries(&back), vec![('z', 1), ('m', -5), ('a', 7), ('q', 0), ('b', 7)]);
    assert_eq!(written(&back), written(&map));
}

#[test]
fn map_unit_reads_as_empty() {
    let back = LinearMap::<char, i32>::deserialize(vec![MapToken::Unit]).unwrap();
    assert_eq!(back.len(), 0);
    assert_eq!(written(&back), vec![MapToken::Start(Some(0)), MapToken::End]);
}

#[test]
fn map_bracketed_empty_reads_as_empty_whatever_it_announces() {
    for hint in [None, Some(0), Some(7), Some(usize::MAX)] {
        let back =
            LinearMap::<char, i32>::deserialize(vec![MapToken::Start(hint), MapToken::End])
                .unwrap();
        assert!(back.is_empty());
    }
}

#[test]
fn map_hint_decides_nothing() {
    for hint in [None, Some(0), Some(1), Some(2), Some(1000), Some(usize::MAX)] {
        let tokens = vec![
            MapToken::Start(hint),
            MapToken::Key('b'),
            MapToken::Value(20),
            MapToken::Key('a'),
            MapToken::Value(10),
            MapToken::End,
        ];
        let back = LinearMap::deserialize(tokens).unwrap();
        assert_eq!(entries(&back), vec![('b', 20), ('a', 10)]);
    }
}

#[test]
fn map_repeated_key_keeps_first_place_and_last_value() {
    let tokens = vec![
        MapToken::Start(Some(3)),
        MapToken::Key('b'),
        MapToken::Value(1),
        MapToken::Key('a'),
        MapToken::Value(2),
        MapToken::Key('b'),
        MapToken::Value(3),
        MapToken::End,
    ];
    let back = LinearMap::deserialize(tokens).unwrap();
    assert_eq!(entries(&back), vec![('b', 3), ('a', 2)]);
}

#[test]
fn map_stream_is_refused_where_it_breaks() {
    assert_eq!(refused(vec![]), 0);
    assert_eq!(refused(vec![MapToken::End]), 0);
    assert_eq!(refused(vec![MapToken::Key('a')]), 0);
    assert_eq!(refused(vec![MapToken::Value(1), MapToken::End]), 0);
    assert_eq!(refused(vec![MapToken::Unit, MapToken::Unit]), 1);
    assert_eq!(refused(vec![MapToken::Unit, MapToken::End]), 1);
    assert_eq!(refused(vec![MapToken::Start(Some(0))]), 1);
    assert_eq!(refused(vec![MapToken::Start(None), MapToken::Value(1)]), 1);
    assert_eq!(refused(vec![MapToken::Start(None), MapToken::Unit]), 1);
    assert_eq!(refused(vec![MapToken::Start(None), MapToken::Start(None)]), 1);
    assert_eq!(refused(vec![MapToken::Start(None), MapToken::Key('a')]), 2);
    assert_eq!(
        refused(vec![MapToken::Start(None), MapToken::Key('a'), MapToken::End]),
        2
    );
    assert_eq!(
        refused(vec![MapToken::Start(None), MapToken::Key('a'), MapToken::Key('b')]),
        2
    );
    assert_eq!(
        refused(vec![MapToken::Start(None), MapToken::Key('a'), MapToken::Value(1)]),
        3
    );
    assert_eq!(
        refused(vec![MapToken::Start(None), MapToken::End, MapToken::End]),
        2
    );
    assert_eq!(
        refused(vec![
            MapToken::Start(Some(1)),
            MapToken::Key('a'),
            MapToken::Value(1),
            MapToken::End,
            MapToken::Key('b'),
            MapToken::Value(2),
        ]),
        4
    );
}

#[test]
fn map_second_key_that_fails_is_reported() {
    let tokens = vec![
        MapToken::Start(Some(2)),
        MapToken::Key('b'),
        MapToken::Value(20),
        MapToken::Value(10),
        MapToken::Value(10),
        MapToken::End,
    ];
    assert_eq!(
        LinearMap::deserialize(tokens).err(),
        Some(DecodeError(TokenError { position: 3 }))
    );
}
