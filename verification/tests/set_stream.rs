use linear_map::{DecodeError, LinearSet, SeqToken, TokenError};

fn items(set: &LinearSet<char>) -> Vec<char> {
    let mut out = Vec::new();
    let mut i = 0;
    while let Some(item) = set.item_at(i) {
        out.push(*item);
        i += 1;
    }
    out
}

fn written_set(set: &LinearSet<char>) -> Vec<SeqToken<char>> {
    set.serialize()
        .into_iter()
        .map(|token| match token {
            SeqToken::Unit => SeqToken::Unit,
            SeqToken::Start(n) => SeqToken::Start(n),
            SeqToken::Element(item) => SeqToken::Element(*item),
            SeqToken::End => SeqToken::End,
        })
        .collect()
}

fn refused_set(tokens: Vec<SeqToken<char>>) -> usize {
    match LinearSet::deserialize(tokens) {
        Ok(_) => panic!("the stream was read as a set"),
        Err(DecodeError(TokenError { position })) => position,
    }
}

#[test]
fn serde_test_ser_de_empty() {
    let set = LinearSet::<char>::new();

    let tokens = vec![SeqToken::Start(Some(0)), SeqToken::End];
    assert_eq!(written_set(&set), tokens);
    let back = LinearSet::deserialize(tokens).unwrap();
    assert_eq!(items(&back), items(&set));
    assert!(back.is_empty());
}

#[test]
fn serde_test_ser_de() {
    let mut set = LinearSet::new();
    set.insert('b');
    set.insert('a');
    set.insert('c');

    let tokens = vec![
        SeqToken::Start(Some(3)),
        SeqToken::Element('b'),
        SeqToken::Element('a'),
        SeqToken::Element('c'),
        SeqToken::End,
    ];
    assert_eq!(written_set(&set), tokens);
    let back = LinearSet::deserialize(tokens).unwrap();
    assert_eq!(items(&back), vec!['b', 'a', 'c']);
    assert_eq!(items(&back), items(&set));
}

#[test]
fn set_round_trip_keeps_elements_and_order() {
    let mut set = LinearSet::new();
    for item in ['z', 'm', 'a', 'q', 'b'] {
        assert!(set.insert(item));
    }
    let back = LinearSet::deserialize(written_set(&set)).unwrap();
    assert_eq!(items(&back), vec!['z', 'm', 'a', 'q', 'b']);
    assert_eq!(written_set(&back), written_set(&set));
}

#[test]
fn set_unit_reads_as_empty() {
    let back = LinearSet::<char>::deserialize(vec![SeqToken::Unit]).unwrap();
    assert_eq!(back.len(), 0);
    assert_eq!(written_set(&back), vec![SeqToken::Start(Some(0)), SeqToken::End]);
}

#[test]
fn set_bracketed_empty_reads_as_empty_whatever_it_announces() {
    for hint in [None, Some(0), Some(7), Some(usize::MAX)] {
        let back =
            LinearSet::<char>::deserialize(vec![SeqToken::Start(hint), SeqToken::End]).unwrap();
        assert!(back.is_empty());
    }
}

#[test]
fn set_hint_decides_nothing() {
    for hint in [None, Some(0), Some(1), Some(2), Some(1000), Some(usize::MAX)] {
        let tokens = vec![
            SeqToken::Start(hint),
            SeqToken::Element('b'),
            SeqToken::Element('a'),
            SeqToken::End,
        ];
        let back = LinearSet::deserialize(tokens).unwrap();
        assert_eq!(items(&back), vec!['b', 'a']);
    }
}

#[test]
fn set_repeated_element_is_absorbed_in_its_first_place() {
    let tokens = vec![
        SeqToken::Start(Some(4)),
        SeqToken::Element('b'),
        SeqToken::Element('a'),
        SeqToken::Element('b'),
        SeqToken::Element('c'),
        SeqToken::End,
    ];
    let back = LinearSet::deserialize(tokens).unwrap();
    assert_eq!(items(&back), vec!['b', 'a', 'c']);
}

#[test]
fn set_stream_is_refused_where_it_breaks() {
    assert_eq!(refused_set(vec![]), 0);
    assert_eq!(refused_set(vec![SeqToken::End]), 0);
    assert_eq!(refused_set(vec![SeqToken::Element('a'), SeqToken::End]), 0);
    assert_eq!(refused_set(vec![SeqToken::Unit, SeqToken::Unit]), 1);
    assert_eq!(refused_set(vec![SeqToken::Unit, SeqToken::End]), 1);
    assert_eq!(refused_set(vec![SeqToken::Start(Some(0))]), 1);
    assert_eq!(refused_set(vec![SeqToken::Start(None), SeqToken::Unit]), 1);
    assert_eq!(refused_set(vec![SeqToken::Start(None), SeqToken::Start(None)]), 1);
    assert_eq!(refused_set(vec![SeqToken::Start(None), SeqToken::Element('a')]), 2);
    assert_eq!(
        refused_set(vec![SeqToken::Start(None), SeqToken::Element('a'), SeqToken::Unit]),
        2
    );
    assert_eq!(
        refused_set(vec![SeqToken::Start(None), SeqToken::End, SeqToken::End]),
        2
    );
    assert_eq!(
        refused_set(vec![
            SeqToken::Start(Some(1)),
            SeqToken::Element('a'),
            SeqToken::End,
            SeqToken::Element('b'),
        ]),
        3
    );
}
