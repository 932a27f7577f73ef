use model_doc::path::{ModelPath, PathTable};

#[test]
fn parse_twice_gives_same_handle() {
    let mut t = PathTable::new();
    let a = ModelPath::parse(&mut t, "/network/node/param");
    let n = t.len();
    let b = ModelPath::parse(&mut t, "/network/node/param");
    assert_eq!(a, b);
    assert_eq!(t.len(), n);
    assert_eq!(n, 4);
}

#[test]
fn distinct_paths_give_distinct_handles() {
    let mut t = PathTable::new();
    let a = ModelPath::parse(&mut t, "/a/b");
    let b = ModelPath::parse(&mut t, "/b/a");
    let c = ModelPath::parse(&mut t, "/a");
    assert_ne!(a, b);
    assert_ne!(a, c);
}

#[test]
fn round_trip_of_canonical_paths() {
    let mut t = PathTable::new();
    for p in ["/a", "/a/b", "/node_a/node_b/node_c", "/x/yy/zzz/w"] {
        let h = ModelPath::parse(&mut t, p);
        assert_eq!(h.to_string(&t), p);
    }
}

#[test]
fn root_string_and_empty_input() {
    let mut t = PathTable::new();
    let r = ModelPath::parse(&mut t, "");
    assert!(r.is_root());
    assert_eq!(r, ModelPath::root());
    assert_eq!(r.to_string(&t), "/");
    assert_eq!(r.name(&t), "");
    assert!(r.parent(&t).is_none());
    assert!(r.split_last(&t).is_none());
}

#[test]
fn input_without_slash_is_one_segment_under_root() {
    let mut t = PathTable::new();
    let a = ModelPath::parse(&mut t, "abc");
    let b = ModelPath::parse(&mut t, "/abc");
    assert_eq!(a, b);
    assert_eq!(a.to_string(&t), "/abc");
}

#[test]
fn empty_segments_are_kept() {
    let mut t = PathTable::new();
    let a = ModelPath::parse(&mut t, "/a//b");
    assert_eq!(a.to_string(&t), "/a//b");
    let slash = ModelPath::parse(&mut t, "/");
    assert!(!slash.is_root());
    assert_eq!(slash.name(&t), "");
    assert_eq!(slash.parent(&t), Some(ModelPath::root()));
}

#[test]
fn join_twice_equals_parse() {
    let mut t = PathTable::new();
    let j = ModelPath::root().join(&mut t, "a").join(&mut t, "b");
    let p = ModelPath::parse(&mut t, "/a/b");
    assert_eq!(j, p);
    assert_eq!(j.to_string(&t), "/a/b");
}

#[test]
fn join_reuses_interned_node() {
    let mut t = PathTable::new();
    let a = ModelPath::root().join(&mut t, "a");
    let n = t.len();
    let a2 = ModelPath::root().join(&mut t, "a");
    assert_eq!(a, a2);
    assert_eq!(t.len(), n);
}

#[test]
fn parent_name_and_split_last() {
    let mut t = PathTable::new();
    let ab = ModelPath::parse(&mut t, "/a/b");
    let a = ModelPath::parse(&mut t, "/a");
    assert_eq!(ab.parent(&t), Some(a));
    assert_eq!(ab.name(&t), "b");
    let (p, n) = ab.split_last(&t).unwrap();
    assert_eq!(p, a);
    assert_eq!(n, "b");
    assert!(!ab.is_root());
    assert!(ab.is_absolute());
    assert!(!ab.is_relative());
}

#[test]
fn prefix_law() {
    let mut t = PathTable::new();
    let p = ModelPath::parse(&mut t, "/a/b");
    let child = p.join(&mut t, "x");
    let deep = ModelPath::parse(&mut t, "/a/b/x/y");
    let other = ModelPath::parse(&mut t, "/a/c");
    let up = ModelPath::parse(&mut t, "/a");
    assert!(p.is_prefix(&t, &child));
    assert!(p.is_prefix(&t, &deep));
    assert!(p.is_prefix(&t, &p));
    assert!(ModelPath::root().is_prefix(&t, &other));
    assert!(!p.is_prefix(&t, &other));
    assert!(!p.is_prefix(&t, &up));
    assert!(!p.is_prefix(&t, &ModelPath::root()));
}
