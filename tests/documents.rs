use model_doc::document::{Document, DocumentError, StoreRow};
use model_doc::path::{ModelPath, PathTable};

fn row(id: i64, path: Option<&str>) -> StoreRow {
    StoreRow { id, path: path.map(|p| p.to_string()) }
}

fn empty_store_doc(t: &mut PathTable) -> Document {
    Document::open(t, &vec![row(1, Some(""))]).unwrap()
}

fn create(doc: &mut Document, t: &mut PathTable, p: &str, id: i64) -> Result<i64, DocumentError> {
    let h = ModelPath::parse(t, p);
    doc.create_node(t, h, id).map(|o| o.id())
}

fn child_names(doc: &Document, t: &mut PathTable, p: &str) -> Vec<String> {
    let h = ModelPath::parse(t, p);
    let n = doc.find_node(t, h).unwrap();
    let mut names: Vec<String> = n.children().iter().map(|c| c.path().name(t)).collect();
    names.sort();
    names
}

fn reopen(doc: &Document, t: &PathTable) -> (Document, PathTable) {
    let rows: Vec<StoreRow> = doc
        .records(t)
        .into_iter()
        .map(|r| StoreRow { id: r.id, path: Some(r.path) })
        .collect();
    let mut t2 = PathTable::new();
    let d2 = Document::open(&mut t2, &rows).unwrap();
    (d2, t2)
}

#[test]
fn created_tree_survives_reopen() {
    let mut t = PathTable::new();
    let mut doc = empty_store_doc(&mut t);
    let paths = [
        "/node_a",
        "/node_a/node_b",
        "/node_a/node_b/node_c",
        "/node_a/node_b/node_d",
        "/node_a/node_b/node_e",
        "/node_a/node_f",
        "/node_g",
    ];
    for (i, p) in paths.iter().enumerate() {
        assert_eq!(create(&mut doc, &mut t, p, 2 + i as i64), Ok(2 + i as i64));
    }
    let (d2, mut t2) = reopen(&doc, &t);
    assert_eq!(child_names(&d2, &mut t2, ""), vec!["node_a", "node_g"]);
    assert_eq!(child_names(&d2, &mut t2, "/node_a"), vec!["node_b", "node_f"]);
    assert_eq!(child_names(&d2, &mut t2, "/node_a/node_b"), vec!["node_c", "node_d", "node_e"]);
    assert!(child_names(&d2, &mut t2, "/node_g").is_empty());
    let h = ModelPath::parse(&mut t2, "/node_a/node_b/node_d");
    assert_eq!(d2.find_node(&t2, h).unwrap().base().id(), 5);
    assert_eq!(d2.root().id(), 1);
}

#[test]
fn creating_twice_is_a_collision() {
    let mut t = PathTable::new();
    let mut doc = empty_store_doc(&mut t);
    assert_eq!(create(&mut doc, &mut t, "/a", 2), Ok(2));
    assert_eq!(create(&mut doc, &mut t, "/a", 3), Err(DocumentError::PathCollision));
    let recs = doc.records(&t);
    assert_eq!(recs.iter().filter(|r| r.path == "/a").count(), 1);
    let h = ModelPath::parse(&mut t, "/a");
    assert_eq!(doc.find_node(&t, h).unwrap().base().id(), 2);
}

#[test]
fn creating_the_root_is_a_collision() {
    let mut t = PathTable::new();
    let mut doc = empty_store_doc(&mut t);
    assert_eq!(doc.create_node(&t, ModelPath::root(), 9).map(|o| o.id()), Err(DocumentError::PathCollision));
}

#[test]
fn creating_without_parent_is_not_found() {
    let mut t = PathTable::new();
    let mut doc = empty_store_doc(&mut t);
    assert_eq!(create(&mut doc, &mut t, "/a/b", 2), Err(DocumentError::NotFound));
    let h = ModelPath::parse(&mut t, "/a/b");
    assert_eq!(doc.can_create(&t, h), Err(DocumentError::NotFound));
    assert_eq!(doc.records(&t).len(), 1);
}

#[test]
fn find_node_with_missing_intermediate_is_none() {
    let mut t = PathTable::new();
    let mut doc = empty_store_doc(&mut t);
    create(&mut doc, &mut t, "/a", 2).unwrap();
    let h = ModelPath::parse(&mut t, "/a/missing/c");
    assert!(doc.find_node(&t, h).is_none());
    let h = ModelPath::parse(&mut t, "/missing");
    assert!(doc.find_node(&t, h).is_none());
}

#[test]
fn child_path_is_join_of_parent_path() {
    let mut t = PathTable::new();
    let mut doc = empty_store_doc(&mut t);
    create(&mut doc, &mut t, "/a", 2).unwrap();
    create(&mut doc, &mut t, "/a/b", 3).unwrap();
    let a = ModelPath::parse(&mut t, "/a");
    let n = doc.find_node(&t, a).unwrap();
    for c in n.children() {
        let name = c.path().name(&t);
        assert_eq!(c.path(), a.join(&mut t, &name));
    }
    let b = n.find_child(&t, "b").unwrap();
    assert_eq!(b.id(), 3);
    assert!(n.find_child(&t, "z").is_none());
}

#[test]
fn open_with_missing_parent_is_corruption() {
    let mut t = PathTable::new();
    let rows = vec![row(1, Some("")), row(2, Some("/a/b"))];
    assert_eq!(Document::open(&mut t, &rows).err(), Some(DocumentError::Corruption));
}

#[test]
fn open_without_root_row_uses_id_zero() {
    let mut t = PathTable::new();
    let doc = Document::open(&mut t, &vec![row(4, Some("/a"))]).unwrap();
    assert_eq!(doc.root().id(), 0);
    let h = ModelPath::parse(&mut t, "/a");
    assert_eq!(doc.find_node(&t, h).unwrap().base().id(), 4);
}

#[test]
fn open_null_path_is_root_and_order_does_not_matter() {
    let mut t = PathTable::new();
    let rows = vec![row(3, Some("/a/b")), row(2, Some("/a")), row(1, None)];
    let doc = Document::open(&mut t, &rows).unwrap();
    assert_eq!(doc.root().id(), 1);
    let h = ModelPath::parse(&mut t, "/a/b");
    assert_eq!(doc.find_node(&t, h).unwrap().base().id(), 3);
}

#[test]
fn records_hold_name_path_and_id() {
    let mut t = PathTable::new();
    let mut doc = empty_store_doc(&mut t);
    create(&mut doc, &mut t, "/a", 2).unwrap();
    create(&mut doc, &mut t, "/a/bc", 3).unwrap();
    let recs = doc.records(&t);
    assert_eq!(recs.len(), 3);
    assert_eq!((recs[0].id, recs[0].name.as_str(), recs[0].path.as_str()), (1, "", ""));
    assert_eq!((recs[1].id, recs[1].name.as_str(), recs[1].path.as_str()), (2, "a", "/a"));
    assert_eq!((recs[2].id, recs[2].name.as_str(), recs[2].path.as_str()), (3, "bc", "/a/bc"));
}

#[test]
fn write_then_open_keeps_paths_and_ids() {
    let mut t = PathTable::new();
    let rows = vec![row(1, Some("")), row(7, Some("/x")), row(8, Some("/x/y")), row(9, Some("/z"))];
    let doc = Document::open(&mut t, &rows).unwrap();
    let (d2, mut t2) = reopen(&doc, &t);
    for (p, id) in [("", 1), ("/x", 7), ("/x/y", 8), ("/z", 9)] {
        let h = ModelPath::parse(&mut t2, p);
        assert_eq!(d2.find_node(&t2, h).unwrap().base().id(), id);
    }
    assert_eq!(d2.records(&t2).len(), 4);
}

#[test]
fn later_row_for_same_path_replaces_earlier() {
    let mut t = PathTable::new();
    let rows = vec![row(1, Some("")), row(2, Some("/a")), row(3, Some("a"))];
    let doc = Document::open(&mut t, &rows).unwrap();
    let h = ModelPath::parse(&mut t, "/a");
    assert_eq!(doc.find_node(&t, h).unwrap().base().id(), 3);
    assert_eq!(doc.records(&t).len(), 2);
}

#[test]
fn clone_is_a_snapshot() {
    let mut t = PathTable::new();
    let mut doc = empty_store_doc(&mut t);
    let snap = doc.clone();
    create(&mut doc, &mut t, "/a", 2).unwrap();
    let h = ModelPath::parse(&mut t, "/a");
    assert!(snap.find_node(&t, h).is_none());
    assert!(doc.find_node(&t, h).is_some());
}
