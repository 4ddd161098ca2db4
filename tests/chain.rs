use fracture::chain::{ChainTrie, Node, PrefixConflict, SearchResult};
use fracture::chars::key_to_vec;

fn to_string(map: &ChainTrie<i32>) -> String {
    fn rec(output: &mut Vec<String>, key: &mut String, node: &Node<i32>) {
        match node {
            Node::Value(i) => output.push(format!("{}: {}", key, i)),
            Node::SubTree(entries) => {
                for (c, child) in entries.iter() {
                    key.push(*c);
                    rec(output, key, child);
                    key.pop();
                }
            }
        }
    }

    let mut output = Vec::new();
    let mut key = String::new();
    match map {
        ChainTrie::Empty => (),
        ChainTrie::NonEmpty(node) => rec(&mut output, &mut key, node),
    }
    output.join("\n")
}

fn expect_map(map: Result<ChainTrie<i32>, PrefixConflict>, expected: &str) {
    let actual = match map {
        Ok(map) => to_string(&map),
        Err(err) => err.message().to_string(),
    };
    assert_eq!(actual, expected);
}

fn branches_non_empty(map: &ChainTrie<i32>) -> bool {
    fn rec(node: &Node<i32>) -> bool {
        match node {
            Node::SubTree(entries) => {
                !entries.is_empty() && entries.iter().all(|(_, child)| rec(child))
            }
            Node::Value(_) => true,
        }
    }
    match map {
        ChainTrie::Empty => true,
        ChainTrie::NonEmpty(node) => rec(node),
    }
}

fn describe(result: SearchResult<i32>) -> String {
    match result {
        SearchResult::NoMatch => "None".to_owned(),
        SearchResult::Value(i) => format!("Value: {}", i),
        SearchResult::Children(children) => {
            let children: String = children.iter().collect();
            format!("Children: {}", children)
        }
    }
}

fn search(map: &ChainTrie<i32>, key: &str) -> String {
    describe(map.search(key_to_vec(key.to_owned())))
}

fn six() -> Result<ChainTrie<i32>, PrefixConflict> {
    let map = ChainTrie::new();
    let map = map.with("abc".to_owned(), 1)?;
    let map = map.with("abd".to_owned(), 2)?;
    let map = map.with("abe".to_owned(), 3)?;
    let map = map.with("cast".to_owned(), 4)?;
    let map = map.with("case".to_owned(), 5)?;
    let map = map.with("cass".to_owned(), 6)?;
    Ok(map)
}

fn six_with_removals() -> Result<ChainTrie<i32>, PrefixConflict> {
    let map = six()?;
    let map = map.without("ca".to_owned());
    assert!(branches_non_empty(&map));
    let map = map.without("a".to_owned());
    assert!(branches_non_empty(&map));
    let map = map.without("".to_owned());
    assert!(branches_non_empty(&map));
    let map = map.without("abc".to_owned());
    assert!(branches_non_empty(&map));
    let map = map.without("abe".to_owned());
    assert!(branches_non_empty(&map));
    let map = map.without("cast".to_owned());
    assert!(branches_non_empty(&map));
    Ok(map)
}

#[test]
fn basic() {
    expect_map(six(), "abc: 1\nabd: 2\nabe: 3\ncase: 5\ncass: 6\ncast: 4");
}

#[test]
fn add_superset_err() {
    let map = (|| {
        let map = ChainTrie::new();
        let map = map.with("abc".to_owned(), 1)?;
        let map = map.with("abcd".to_owned(), 2)?;
        Ok(map)
    })();
    expect_map(
        map,
        "Attempting to add a command chain whose prefix already exists in the mapping",
    );
}

#[test]
fn add_prefix_err() {
    let map = (|| {
        let map = ChainTrie::new();
        let map = map.with("abc".to_owned(), 1)?;
        let map = map.with("ab".to_owned(), 2)?;
        Ok(map)
    })();
    expect_map(
        map,
        "Attempting to add a prefix of a command chain which already exists in the mapping",
    );
}

#[test]
fn with_removals() {
    expect_map(six_with_removals(), "abd: 2\ncase: 5\ncass: 6");
}

#[test]
fn search_value() {
    let map = six_with_removals().unwrap();
    assert_eq!(search(&map, "case"), "Value: 5");
}

#[test]
fn search_children() {
    let map = (|| {
        let map = ChainTrie::new();
        let map = map.with("abc".to_owned(), 1)?;
        let map = map.with("abd".to_owned(), 2)?;
        let map = map.with("cast".to_owned(), 4)?;
        let map = map.with("case".to_owned(), 5)?;
        let map = map.with("cass".to_owned(), 6)?;
        Ok::<_, PrefixConflict>(map)
    })()
    .unwrap();
    assert_eq!(search(&map, "ab"), "Children: cd");
}

#[test]
fn search_children_deep() {
    let map = (|| {
        let map = ChainTrie::new();
        let map = map.with("abc".to_owned(), 1)?;
        let map = map.with("abd".to_owned(), 2)?;
        let map = map.with("abef".to_owned(), 2)?;
        let map = map.with("abecadaba".to_owned(), 2)?;
        let map = map.with("abridge".to_owned(), 2)?;
        Ok::<_, PrefixConflict>(map)
    })()
    .unwrap();
    assert_eq!(search(&map, "ab"), "Children: cder");
}

#[test]
fn search_none() {
    let map = (|| {
        let map = ChainTrie::new();
        let map = map.with("abc".to_owned(), 1)?;
        let map = map.with("abd".to_owned(), 2)?;
        Ok::<_, PrefixConflict>(map)
    })()
    .unwrap();
    assert_eq!(search(&map, "abce"), "None");
}

#[test]
fn lookup_scenario_pending_matched_nomatch() {
    let map = ChainTrie::new();
    let map = map.with("abc".to_owned(), 1).unwrap();
    let map = map.with("abd".to_owned(), 2).unwrap();
    let map = map.with("cast".to_owned(), 4).unwrap();
    assert_eq!(search(&map, "ab"), "Children: cd");
    assert_eq!(search(&map, "abc"), "Value: 1");
    assert_eq!(search(&map, "abz"), "None");
}

#[test]
fn remove_only_sequence_leaves_empty() {
    let map = ChainTrie::new().with("abc".to_owned(), 7).unwrap();
    let map = map.without("abc".to_owned());
    assert!(matches!(map, ChainTrie::Empty));
}

#[test]
fn round_trip_every_sequence() {
    let keys = ["q", "wx", "wy", "zab", "zac", "zb", "\u{e9}t\u{e9}"];
    let mut map = ChainTrie::new();
    for (i, k) in keys.iter().enumerate() {
        map = map.with(k.to_string(), i as i32 * 10).unwrap();
    }
    for (i, k) in keys.iter().enumerate() {
        assert_eq!(search(&map, k), format!("Value: {}", i as i32 * 10));
    }
}

#[test]
fn prefix_conflicts_both_orders() {
    let short_first = ChainTrie::new().with("ab".to_owned(), 1).unwrap();
    assert_eq!(
        short_first.with("abc".to_owned(), 2).err(),
        Some(PrefixConflict::NewIsExtension)
    );
    let long_first = ChainTrie::new().with("abc".to_owned(), 1).unwrap();
    assert_eq!(
        long_first.with("ab".to_owned(), 2).err(),
        Some(PrefixConflict::ExistingIsExtension)
    );
    let root = ChainTrie::new().with("".to_owned(), 1).unwrap();
    assert_eq!(root.with("a".to_owned(), 2).err(), Some(PrefixConflict::NewIsExtension));
    assert_eq!(long_first.with("".to_owned(), 2).err(), Some(PrefixConflict::ExistingIsExtension));
}

#[test]
fn failed_insert_leaves_tree_unchanged() {
    let map = six().unwrap();
    assert!(map.with("cas".to_owned(), 9).is_err());
    expect_map(Ok(map), "abc: 1\nabd: 2\nabe: 3\ncase: 5\ncass: 6\ncast: 4");
}

#[test]
fn overwrite_replaces_value() {
    let map = six().unwrap().with("abd".to_owned(), 20).unwrap();
    assert_eq!(search(&map, "abd"), "Value: 20");
    assert_eq!(search(&map, "abc"), "Value: 1");
}

#[test]
fn empty_sequence_binding() {
    let map = ChainTrie::new().with("".to_owned(), 3).unwrap();
    assert_eq!(search(&map, ""), "Value: 3");
    assert_eq!(search(&map, "a"), "None");
    let map = map.without("".to_owned());
    assert!(matches!(map, ChainTrie::Empty));
    assert_eq!(search(&map, ""), "None");
}

#[test]
fn removal_collapses_branches() {
    let map = six().unwrap();
    let map = map.without("abc".to_owned()).without("abd".to_owned()).without("abe".to_owned());
    assert!(branches_non_empty(&map));
    assert_eq!(search(&map, "a"), "None");
    assert_eq!(search(&map, ""), "Children: c");
}

#[test]
fn remove_absent_and_twice() {
    let map = six().unwrap();
    let same = map.without("zzz".to_owned()).without("ab".to_owned()).without("abcd".to_owned());
    assert_eq!(to_string(&same), to_string(&map));
    let once = map.without("case".to_owned());
    let twice = once.without("case".to_owned());
    assert_eq!(to_string(&once), to_string(&twice));
    assert_eq!(search(&twice, "case"), "None");
    assert_eq!(search(&twice, "cas"), "Children: st");
}

#[test]
fn children_ascending_regardless_of_order() {
    let a = ChainTrie::new();
    let a = a.with("xz".to_owned(), 1).unwrap();
    let a = a.with("xa".to_owned(), 2).unwrap();
    let a = a.with("xm".to_owned(), 3).unwrap();
    let b = ChainTrie::new();
    let b = b.with("xm".to_owned(), 3).unwrap();
    let b = b.with("xa".to_owned(), 2).unwrap();
    let b = b.with("xz".to_owned(), 1).unwrap();
    assert_eq!(search(&a, "x"), "Children: amz");
    assert_eq!(search(&b, "x"), "Children: amz");
}

#[test]
fn old_snapshot_stays_valid() {
    let old = six().unwrap();
    let new = old.with("zz".to_owned(), 9).unwrap().without("abc".to_owned());
    assert_eq!(search(&old, "abc"), "Value: 1");
    assert_eq!(search(&old, "zz"), "None");
    assert_eq!(search(&new, "zz"), "Value: 9");
    assert_eq!(search(&new, "abc"), "None");
}

#[test]
fn conflict_messages() {
    assert_eq!(
        PrefixConflict::NewIsExtension.message(),
        "Attempting to add a command chain whose prefix already exists in the mapping"
    );
    assert_eq!(
        PrefixConflict::ExistingIsExtension.message(),
        "Attempting to add a prefix of a command chain which already exists in the mapping"
    );
}

#[test]
fn key_to_vec_keeps_symbols_in_order() {
    let v = key_to_vec("h\u{e9}y".to_owned());
    let collected: Vec<char> = v.iter().cloned().collect();
    assert_eq!(collected, vec!['h', '\u{e9}', 'y']);
    assert!(key_to_vec(String::new()).is_empty());
}
