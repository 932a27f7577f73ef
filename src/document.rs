use crate::path::{
    extends, lemma_extends_segs, lemma_parse_render, lemma_segs_injective, nodes_wf, parse_segs,
    path_segs, render_segs, slash_free, ModelPath, PathTable,
};
use rpds::Vector;
use vstd::prelude::*;

verus! {

/// The persistable identity of one tree node: its row id and its path.
#[derive(Clone, Copy, Debug)]
pub struct NamedObject {
    id: i64,
    path: ModelPath,
}

/// One row as read from the store: its id and its path text (none for the root).
#[derive(Clone, Debug)]
pub struct StoreRow {
    pub id: i64,
    pub path: Option<String>,
}

/// One row as written back to the store, keyed by id.
#[derive(Clone, Debug)]
pub struct StoreRecord {
    pub id: i64,
    pub name: String,
    pub path: String,
}

/// Placeholder for the share-group aggregate of a document.
#[derive(Clone, Debug)]
pub struct ShareGroup {}

/// Why a document operation failed.
#[derive(Clone, Copy, Debug, PartialEq, Eq, Structural)]
pub enum DocumentError {
    /// A loaded row's parent path has no row.
    Corruption,
    /// The path already has a node.
    PathCollision,
    /// The parent of the path has no node.
    NotFound,
}

/// A node of the tree: its named object and its direct children.
#[derive(Clone, Debug)]
pub struct Node {
    base: NamedObject,
    children: Vec<NamedObject>,
}

/// The in-memory tree, held as a persistent vector of its named objects (a
/// clone shares it): the root comes first, and every other object's parent
/// path has an object too.
#[derive(Clone, Debug)]
pub struct Document {
    objects: ObjectVector,
    share_groups: Vec<ShareGroup>,
}

/// A persistent vector of named objects: a clone shares its contents.
#[derive(Debug)]
#[verifier::external_body]
pub struct ObjectVector {
    items: Vector<NamedObject>,
}

/// What a persistent vector of named objects holds, in order.
pub uninterp spec fn vector_items(v: ObjectVector) -> Seq<(int, i64)>;

impl Clone for ObjectVector {
    /// Relies on rpds::Vector::clone: the copy holds the same elements.
    #[verifier::external_body]
    fn clone(&self) -> (r: ObjectVector)
        ensures
            vector_items(r) == vector_items(*self),
    {
        ObjectVector { items: self.items.clone() }
    }
}

/// Relies on rpds::Vector::new: a new vector is empty.
#[verifier::external_body]
fn objects_new() -> (r: ObjectVector)
    ensures
        vector_items(r).len() == 0,
{
    ObjectVector { items: Vector::new() }
}

/// Relies on rpds::Vector::len: the number of elements.
#[verifier::external_body]
fn objects_len(v: &ObjectVector) -> (r: usize)
    ensures
        r == vector_items(*v).len(),
{
    v.items.len()
}

/// Relies on rpds::Vector's indexing (Vector::get): the element at an index
/// below the length.
#[verifier::external_body]
fn objects_get(v: &ObjectVector, i: usize) -> (r: NamedObject)
    requires
        i < vector_items(*v).len(),
    ensures
        r@ == vector_items(*v)[i as int],
{
    v.items[i]
}

/// Relies on rpds::Vector::push_back_mut: the element is appended.
#[verifier::external_body]
fn objects_push(v: &mut ObjectVector, x: NamedObject)
    ensures
        vector_items(*final(v)) == vector_items(*old(v)).push(x@),
{
    v.items.push_back_mut(x);
}

/// Relies on rpds::Vector::set_mut: an index below the length gets the element.
#[verifier::external_body]
fn objects_set(v: &mut ObjectVector, i: usize, x: NamedObject)
    requires
        i < vector_items(*old(v)).len(),
    ensures
        vector_items(*final(v)) == vector_items(*old(v)).update(i as int, x@),
{
    v.items.set_mut(i, x);
}

impl View for NamedObject {
    type V = (int, i64);

    closed spec fn view(&self) -> (int, i64) {
        (self.path.id(), self.id)
    }
}

impl View for StoreRow {
    type V = (i64, Option<Seq<char>>);

    open spec fn view(&self) -> (i64, Option<Seq<char>>) {
        (
            self.id,
            match self.path {
                Some(s) => Some(s@),
                None => None,
            },
        )
    }
}

impl View for StoreRecord {
    type V = (i64, Seq<char>, Seq<char>);

    open spec fn view(&self) -> (i64, Seq<char>, Seq<char>) {
        (self.id, self.name@, self.path@)
    }
}

impl View for Document {
    type V = Seq<(int, i64)>;

    closed spec fn view(&self) -> Seq<(int, i64)> {
        vector_items(self.objects)
    }
}

/// Inserts each (segments, id) pair in turn into `base`: a later pair for the
/// same segments replaces an earlier one.
pub open spec fn fold_pairs(
    base: Map<Seq<Seq<char>>, i64>,
    pairs: Seq<(Seq<Seq<char>>, i64)>,
) -> Map<Seq<Seq<char>>, i64>
    decreases pairs.len(),
{
    if pairs.len() == 0 {
        base
    } else {
        fold_pairs(base, pairs.drop_last()).insert(pairs.last().0, pairs.last().1)
    }
}

/// Each object as its path's segments and its id.
pub open spec fn object_pairs(v: Seq<(usize, Seq<char>)>, d: Seq<(int, i64)>) -> Seq<
    (Seq<Seq<char>>, i64),
> {
    d.map_values(|o: (int, i64)| (path_segs(v, o.0), o.1))
}

/// The tree of a list of objects: each path, by its segments, with its row id.
pub open spec fn tree_of(v: Seq<(usize, Seq<char>)>, d: Seq<(int, i64)>) -> Map<Seq<Seq<char>>, i64> {
    fold_pairs(Map::empty(), object_pairs(v, d))
}

/// The segments that a store row denotes: the root for a missing path.
pub open spec fn row_segs(r: (i64, Option<Seq<char>>)) -> Seq<Seq<char>> {
    match r.1 {
        Some(s) => parse_segs(s),
        None => Seq::empty(),
    }
}

/// The tree that a set of store rows denotes: a root with id 0 unless a row
/// gives it another, then each row in order, a later row for a path replacing
/// an earlier one.
pub open spec fn rows_tree(rows: Seq<(i64, Option<Seq<char>>)>) -> Map<Seq<Seq<char>>, i64> {
    fold_pairs(
        map![Seq::<Seq<char>>::empty() => 0i64],
        rows.map_values(|r: (i64, Option<Seq<char>>)| (row_segs(r), r.0)),
    )
}

/// Every path of the tree but the root has its parent path in the tree too.
pub open spec fn tree_closed(m: Map<Seq<Seq<char>>, i64>) -> bool {
    forall|s: Seq<Seq<char>>| #[trigger] m.contains_key(s) && s.len() > 0 ==> m.contains_key(s.drop_last())
}

/// The root comes first, every path is a node of the table, and no path
/// comes twice.
pub open spec fn objects_wf(v: Seq<(usize, Seq<char>)>, d: Seq<(int, i64)>) -> bool {
    &&& d.len() >= 1
    &&& d[0].0 == 0
    &&& forall|i: int| 0 <= i < d.len() ==> 0 <= (#[trigger] d[i]).0 < v.len()
    &&& forall|i: int, j: int|
        0 <= i < d.len() && 0 <= j < d.len() && i != j ==> (#[trigger] d[i]).0 != (#[trigger] d[j]).0
}

/// What creating a node at a path with segments `s` does to a tree.
pub open spec fn create_check(m: Map<Seq<Seq<char>>, i64>, s: Seq<Seq<char>>) -> Result<(), DocumentError> {
    if m.contains_key(s) {
        Err(DocumentError::PathCollision)
    } else if !m.contains_key(s.drop_last()) {
        Err(DocumentError::NotFound)
    } else {
        Ok(())
    }
}

/// The row that an object is written back as: its id, last segment and path
/// text, both empty for the root.
pub open spec fn record_of(v: Seq<(usize, Seq<char>)>, o: (int, i64)) -> (i64, Seq<char>, Seq<char>) {
    let s = path_segs(v, o.0);
    (o.1, if s.len() == 0 { Seq::empty() } else { s.last() }, render_segs(s))
}

/// Keys that come once each give a fold whose entries are exactly the pairs.
proof fn lemma_fold_distinct(pairs: Seq<(Seq<Seq<char>>, i64)>)
    requires
        forall|i: int, j: int|
            0 <= i < pairs.len() && 0 <= j < pairs.len() && i != j ==> (#[trigger] pairs[i]).0
                != (#[trigger] pairs[j]).0,
    ensures
        forall|i: int|
            0 <= i < pairs.len() ==> fold_pairs(Map::empty(), pairs).contains_key(
                (#[trigger] pairs[i]).0,
            ) && fold_pairs(Map::empty(), pairs)[pairs[i].0] == pairs[i].1,
        forall|s: Seq<Seq<char>>| #[trigger]
            fold_pairs(Map::empty(), pairs).contains_key(s) ==> exists|i: int|
                0 <= i < pairs.len() && (#[trigger] pairs[i]).0 == s,
    decreases pairs.len(),
{
    if pairs.len() > 0 {
        let init = pairs.drop_last();
        assert forall|i: int, j: int|
            0 <= i < init.len() && 0 <= j < init.len() && i != j implies (#[trigger] init[i]).0
            != (#[trigger] init[j]).0 by {
            assert(init[i] == pairs[i] && init[j] == pairs[j]);
        }
        lemma_fold_distinct(init);
        let m = fold_pairs(Map::empty(), pairs);
        assert forall|i: int| 0 <= i < pairs.len() implies m.contains_key(
            (#[trigger] pairs[i]).0,
        ) && m[pairs[i].0] == pairs[i].1 by {
            if i < init.len() {
                assert(init[i] == pairs[i]);
                assert(pairs[i].0 != pairs[pairs.len() - 1].0);
            }
        }
        assert forall|s: Seq<Seq<char>>| #[trigger] m.contains_key(s) implies exists|i: int|
            0 <= i < pairs.len() && (#[trigger] pairs[i]).0 == s by {
            if s != pairs.last().0 {
                assert(fold_pairs(Map::empty(), init).contains_key(s));
                let i = choose|i: int| 0 <= i < init.len() && (#[trigger] init[i]).0 == s;
                assert(pairs[i] == init[i]);
            } else {
                assert(pairs[pairs.len() - 1].0 == s);
            }
        }
    }
}

/// The entries of the tree of well-formed objects are exactly their paths,
/// each with its own id.
proof fn lemma_tree_of(v: Seq<(usize, Seq<char>)>, d: Seq<(int, i64)>)
    requires
        nodes_wf(v),
        objects_wf(v, d),
    ensures
        forall|i: int|
            0 <= i < d.len() ==> tree_of(v, d).contains_key(path_segs(v, (#[trigger] d[i]).0))
                && tree_of(v, d)[path_segs(v, d[i].0)] == d[i].1,
        forall|s: Seq<Seq<char>>| #[trigger]
            tree_of(v, d).contains_key(s) ==> exists|i: int|
                0 <= i < d.len() && path_segs(v, (#[trigger] d[i]).0) == s,
{
    let pairs = object_pairs(v, d);
    assert forall|i: int, j: int|
        0 <= i < pairs.len() && 0 <= j < pairs.len() && i != j implies (#[trigger] pairs[i]).0
        != (#[trigger] pairs[j]).0 by {
        if pairs[i].0 == pairs[j].0 {
            assert(d[i].0 != d[j].0);
            lemma_segs_injective(v, d[i].0, d[j].0);
        }
    }
    lemma_fold_distinct(pairs);
    assert forall|i: int| 0 <= i < d.len() implies tree_of(v, d).contains_key(
        path_segs(v, (#[trigger] d[i]).0),
    ) && tree_of(v, d)[path_segs(v, d[i].0)] == d[i].1 by {
        assert(pairs[i] == (path_segs(v, d[i].0), d[i].1));
    }
    assert forall|s: Seq<Seq<char>>| #[trigger] tree_of(v, d).contains_key(s) implies exists|i: int|
        0 <= i < d.len() && path_segs(v, (#[trigger] d[i]).0) == s by {
        let i = choose|i: int| 0 <= i < pairs.len() && (#[trigger] pairs[i]).0 == s;
        assert(pairs[i] == (path_segs(v, d[i].0), d[i].1));
    }
}

/// A table that only grows leaves the tree of the objects unchanged.
proof fn lemma_tree_extends(v1: Seq<(usize, Seq<char>)>, v2: Seq<(usize, Seq<char>)>, d: Seq<(int, i64)>)
    requires
        extends(v1, v2),
        forall|i: int| 0 <= i < d.len() ==> 0 <= (#[trigger] d[i]).0 < v1.len(),
    ensures
        tree_of(v1, d) == tree_of(v2, d),
{
    assert forall|i: int| 0 <= i < d.len() implies (#[trigger] object_pairs(v1, d)[i]) == object_pairs(
        v2,
        d,
    )[i] by {
        lemma_extends_segs(v1, v2, d[i].0);
    }
    assert(object_pairs(v1, d) =~= object_pairs(v2, d));
}

/// The position of the object at `path`, if there is one.
fn find_object(objects: &ObjectVector, path: ModelPath) -> (r: Option<usize>)
    ensures
        match r {
            Some(k) => k < vector_items(*objects).len() && vector_items(*objects)[k as int].0 == path.id(),
            None => forall|k: int|
                0 <= k < vector_items(*objects).len() ==> (#[trigger] vector_items(*objects)[k]).0 != path.id(),
        },
{
    let n = objects_len(objects);
    let mut k: usize = 0;
    while k < n
        invariant
            n == vector_items(*objects).len(),
            k <= n,
            forall|j: int| 0 <= j < k ==> (#[trigger] vector_items(*objects)[j]).0 != path.id(),
        decreases n - k,
    {
        let o = objects_get(objects, k);
        proof {
            o.path.lemma_id(&path);
        }
        if o.path == path {
            return Some(k);
        }
        k = k + 1;
    }
    None
}


impl NamedObject {
    /// An object with store id `id` at `path`.
    pub fn new(id: i64, path: ModelPath) -> (r: NamedObject)
        ensures
            r@ == (path.id(), id),
    {
        NamedObject { id, path }
    }

    /// The store id.
    pub fn id(&self) -> (r: i64)
        ensures
            r == self@.1,
    {
        self.id
    }

    /// The canonical path.
    pub fn path(&self) -> (r: ModelPath)
        ensures
            r.id() == self@.0,
    {
        self.path
    }

    /// The row that writing this object stores: its id, last segment and
    /// path text, both empty for the root.
    pub fn record(&self, table: &PathTable) -> (r: StoreRecord)
        requires
            table.wf(),
            self@.0 < table@.len(),
        ensures
            r@ == record_of(table@, self@),
    {
        proof {
            table.lemma_wf();
            self.path.lemma_id(&self.path);
            if self@.0 == 0 {
                assert(path_segs(table@, 0) =~= Seq::<Seq<char>>::empty());
            } else {
                assert(table@[self@.0].0 < self@.0);
            }
        }
        let name = self.path.name(table);
        let path = if self.path.is_root() {
            String::new()
        } else {
            self.path.to_string(table)
        };
        StoreRecord { id: self.id, name, path }
    }
}

impl Document {
    /// The document is well formed over `table`: its objects are, and every
    /// path of its tree but the root has its parent path in the tree.
    pub open spec fn wf(&self, table: &PathTable) -> bool {
        &&& table.wf()
        &&& objects_wf(table@, self@)
        &&& tree_closed(tree_of(table@, self@))
    }

    /// The tree: each path, by its segments, with the id of its object.
    pub open spec fn tree(&self, table: &PathTable) -> Map<Seq<Seq<char>>, i64> {
        tree_of(table@, self@)
    }

    /// Builds the tree from the rows of a store, interning each row's path;
    /// fails when a row's parent path has no row.
    pub fn open(table: &mut PathTable, rows: &Vec<StoreRow>) -> (r: Result<Document, DocumentError>)
        requires
            old(table).wf(),
        ensures
            final(table).wf(),
            extends(old(table)@, final(table)@),
            r.is_ok() == tree_closed(rows_tree(rows@.map_values(|x: StoreRow| x@))),
            match r {
                Ok(d) => d.wf(final(table)) && d.tree(final(table)) == rows_tree(
                    rows@.map_values(|x: StoreRow| x@),
                ),
                Err(e) => e == DocumentError::Corruption,
            },
    {
        let ghost rv = rows@.map_values(|x: StoreRow| x@);
        let mut objects = objects_new();
        objects_push(&mut objects, NamedObject { id: 0, path: ModelPath::root() });
        proof {
            table.lemma_wf();
            let d = vector_items(objects);
            assert(d[0] == (0int, 0i64));
            let op = object_pairs(table@, d);
            assert(op[0] == (path_segs(table@, 0), 0i64));
            assert(path_segs(table@, 0) == Seq::<Seq<char>>::empty());
            assert(op.drop_last() =~= Seq::<(Seq<Seq<char>>, i64)>::empty());
            assert(fold_pairs(Map::empty(), op.drop_last()) == Map::<Seq<Seq<char>>, i64>::empty());
            let rp = rv.take(0).map_values(|r: (i64, Option<Seq<char>>)| (row_segs(r), r.0));
            assert(rp =~= Seq::<(Seq<Seq<char>>, i64)>::empty());
            assert(fold_pairs(map![Seq::<Seq<char>>::empty() => 0i64], rp) == map![Seq::<Seq<char>>::empty() => 0i64]);
            assert(tree_of(table@, d) =~= rows_tree(rv.take(0)));
        }
        let mut i: usize = 0;
        while i < rows.len()
            invariant
                i <= rows@.len(),
                rv == rows@.map_values(|x: StoreRow| x@),
                table.wf(),
                extends(old(table)@, table@),
                objects_wf(table@, vector_items(objects)),
                tree_of(table@, vector_items(objects)) == rows_tree(rv.take(i as int)),
            decreases rows@.len() - i,
        {
            let ghost v0 = table@;
            let ghost d0 = vector_items(objects);
            let row = &rows[i];
            let p = match &row.path {
                Some(s) => ModelPath::parse(table, s.as_str()),
                None => ModelPath::root(),
            };
            proof {
                table.lemma_wf();
                lemma_tree_extends(v0, table@, d0);
                assert(rv[i as int] == row@);
                assert(path_segs(table@, p.id()) == row_segs(rv[i as int]));
                let pairs = rv.take(i as int + 1).map_values(
                    |r: (i64, Option<Seq<char>>)| (row_segs(r), r.0),
                );
                assert(pairs.drop_last() =~= rv.take(i as int).map_values(
                    |r: (i64, Option<Seq<char>>)| (row_segs(r), r.0),
                ));
                assert(pairs.last() == (row_segs(rv[i as int]), rv[i as int].0));
            }
            let obj = NamedObject { id: row.id, path: p };
            match find_object(&objects, p) {
                Some(k) => {
                    objects_set(&mut objects, k, obj);
                    proof {
                        let d1 = vector_items(objects);
                        assert(d1 == d0.update(k as int, (p.id(), row.id)));
                        lemma_tree_of(table@, d0);
                        assert forall|j: int| 0 <= j < d1.len() implies (#[trigger] d1[j]).0 == d0[j].0 by {}
                        assert(objects_wf(table@, d1));
                        lemma_tree_of(table@, d1);
                        let m0 = tree_of(table@, d0).insert(path_segs(table@, p.id()), row.id);
                        let m1 = tree_of(table@, d1);
                        assert(d1[k as int].0 == p.id());
                        assert(m1.contains_key(path_segs(table@, p.id())));
                        assert forall|s: Seq<Seq<char>>| m1.contains_key(s) == m0.contains_key(s)
                            by {
                            if m1.contains_key(s) {
                                let j = choose|j: int|
                                    0 <= j < d1.len() && path_segs(table@, (#[trigger] d1[j]).0) == s;
                                assert(d0[j].0 == d1[j].0);
                                assert(tree_of(table@, d0).contains_key(path_segs(table@, d0[j].0)));
                                assert(m0.contains_key(s));
                            }
                            if m0.contains_key(s) && s != path_segs(table@, p.id()) {
                                assert(tree_of(table@, d0).contains_key(s));
                                let j = choose|j: int|
                                    0 <= j < d0.len() && path_segs(table@, (#[trigger] d0[j]).0) == s;
                                assert(d0[j].0 == d1[j].0);
                                assert(m1.contains_key(path_segs(table@, d1[j].0)));
                            }
                        }
                        assert forall|s: Seq<Seq<char>>| #[trigger] m1.contains_key(s) implies m1[s]
                            == m0[s] by {
                            let j = choose|j: int|
                                0 <= j < d1.len() && path_segs(table@, (#[trigger] d1[j]).0) == s;
                            if j != k {
                                assert(d0[j] == d1[j]);
                                if s == path_segs(table@, p.id()) {
                                    lemma_segs_injective(table@, d1[j].0, p.id());
                                }
                            }
                        }
                        assert(m1 =~= m0);
                    }
                },
                None => {
                    objects_push(&mut objects, obj);
                    proof {
                        let d1 = vector_items(objects);
                        assert(d1 == d0.push((p.id(), row.id)));
                        assert forall|j: int| 0 <= j < d0.len() implies (#[trigger] d0[j]).0 != p.id() by {
                            assert(vector_items(objects)[j].0 != p.id());
                        }
                        p.lemma_id(&p);
                        assert forall|j: int| 0 <= j < d0.len() implies (#[trigger] d1[j]) == d0[j] by {}
                        assert(d1[d0.len() as int].0 == p.id());
                        assert(object_pairs(table@, d1).drop_last() =~= object_pairs(table@, d0));
                        assert(objects_wf(table@, d1));
                    }
                },
            }
            i = i + 1;
        }
        proof {
            assert(rv.take(rows@.len() as int) =~= rv);
        }
        let ghost d = vector_items(objects);
        proof {
            table.lemma_wf();
            lemma_tree_of(table@, d);
        }
        let mut j: usize = 1;
        while j < objects_len(&objects)
            invariant
                1 <= j <= vector_items(objects).len(),
                d == vector_items(objects),
                table.wf(),
                extends(old(table)@, table@),
                nodes_wf(table@),
                objects_wf(table@, d),
                rv == rows@.map_values(|x: StoreRow| x@),
                tree_of(table@, d) == rows_tree(rv),
                forall|a: int|
                    1 <= a < j ==> exists|b: int|
                        0 <= b < d.len() && d[b].0 == table@[(#[trigger] d[a]).0].0 as int,
            decreases vector_items(objects).len() - j,
        {
            let pj = objects_get(&objects, j).path;
            proof {
                assert(d[j as int].0 != d[0].0);
            }
            let par = pj.parent(table).unwrap();
            match find_object(&objects, par) {
                Some(k) => {
                    proof {
                        assert(d[k as int].0 == table@[d[j as int].0].0 as int);
                    }
                },
                None => {
                    proof {
                        lemma_tree_of(table@, d);
                        let s = path_segs(table@, d[j as int].0);
                        let q = table@[d[j as int].0].0 as int;
                        assert(table@[d[j as int].0].0 < d[j as int].0);
                        assert(s.drop_last() == path_segs(table@, q));
                        assert(tree_of(table@, d).contains_key(s));
                        if tree_of(table@, d).contains_key(s.drop_last()) {
                            let b = choose|b: int|
                                0 <= b < d.len() && path_segs(table@, (#[trigger] d[b]).0) == s.drop_last();
                            lemma_segs_injective(table@, d[b].0, q);
                            assert(vector_items(objects)[b].0 != par.id());
                        }
                        assert(!tree_closed(tree_of(table@, d)));
                    }
                    return Err(DocumentError::Corruption);
                },
            }
            j = j + 1;
        }
        proof {
            lemma_tree_of(table@, d);
            let m = tree_of(table@, d);
            assert forall|s: Seq<Seq<char>>| #[trigger] m.contains_key(s) && s.len() > 0 implies m.contains_key(
                s.drop_last(),
            ) by {
                let a = choose|a: int| 0 <= a < d.len() && path_segs(table@, (#[trigger] d[a]).0) == s;
                if a == 0 {
                    assert(path_segs(table@, 0).len() == 0);
                }
                let q = table@[d[a].0].0 as int;
                assert(table@[d[a].0].0 < d[a].0);
                assert(s.drop_last() == path_segs(table@, q));
                let b = choose|b: int| 0 <= b < d.len() && d[b].0 == table@[(#[trigger] d[a]).0].0 as int;
                assert(m.contains_key(path_segs(table@, d[b].0)));
            }
        }
        Ok(Document { objects, share_groups: Vec::new() })
    }
}


impl View for Node {
    type V = ((int, i64), Seq<(int, i64)>);

    closed spec fn view(&self) -> ((int, i64), Seq<(int, i64)>) {
        (self.base@, self.children@.map_values(|o: NamedObject| o@))
    }
}

impl Node {
    /// Each child is a non-root node of `table` whose parent is this node's path.
    pub open spec fn wf(&self, table: &PathTable) -> bool {
        &&& table.wf()
        &&& 0 <= self@.0.0 < table@.len()
        &&& forall|i: int|
            0 <= i < self@.1.len() ==> 0 < (#[trigger] self@.1[i]).0 < table@.len() && table@[self@.1[i].0].0
                == self@.0.0
    }

    /// The named object of this node.
    pub fn base(&self) -> (r: NamedObject)
        ensures
            r@ == self@.0,
    {
        self.base
    }

    /// The direct children of this node.
    pub fn children(&self) -> (r: Vec<NamedObject>)
        ensures
            r@.map_values(|o: NamedObject| o@) == self@.1,
    {
        self.children.clone()
    }

    /// The child under segment `name`, if there is one.
    pub fn find_child(&self, table: &PathTable, name: &str) -> (r: Option<NamedObject>)
        requires
            self.wf(table),
        ensures
            match r {
                Some(c) => exists|i: int| 0 <= i < self@.1.len() && self@.1[i] == c@ && table@[c@.0].1 == name@,
                None => forall|i: int| 0 <= i < self@.1.len() ==> table@[(#[trigger] self@.1[i]).0].1 != name@,
            },
    {
        let wanted = String::from_str(name);
        let mut i: usize = 0;
        while i < self.children.len()
            invariant
                self.wf(table),
                wanted@ == name@,
                i <= self.children@.len(),
                forall|j: int| 0 <= j < i ==> table@[(#[trigger] self@.1[j]).0].1 != name@,
            decreases self.children@.len() - i,
        {
            let c = self.children[i];
            assert(self@.1[i as int] == c@);
            let n = c.path.name(table);
            if n == wanted {
                return Some(c);
            }
            i = i + 1;
        }
        None
    }
}

impl Document {
    /// The node at `path` with its direct children, if the tree holds that path.
    pub fn find_node(&self, table: &PathTable, path: ModelPath) -> (r: Option<Node>)
        requires
            self.wf(table),
            path.id() < table@.len(),
        ensures
            r.is_some() == self.tree(table).contains_key(path_segs(table@, path.id())),
            match r {
                Some(n) => {
                    &&& n.wf(table)
                    &&& n@.0 == (path.id(), self.tree(table)[path_segs(table@, path.id())])
                    &&& forall|i: int|
                        0 <= i < n@.1.len() ==> self.tree(table).contains_key(
                            path_segs(table@, (#[trigger] n@.1[i]).0),
                        ) && self.tree(table)[path_segs(table@, n@.1[i].0)] == n@.1[i].1
                    &&& forall|s: Seq<Seq<char>>|
                        #![trigger self.tree(table).contains_key(s)]
                        self.tree(table).contains_key(s) && s.len() > 0 && s.drop_last() == path_segs(
                            table@,
                            path.id(),
                        ) ==> exists|i: int|
                            0 <= i < n@.1.len() && path_segs(table@, (#[trigger] n@.1[i]).0) == s
                },
                None => true,
            },
    {
        let ghost d = self@;
        proof {
            table.lemma_wf();
            lemma_tree_of(table@, d);
            path.lemma_id(&path);
        }
        match find_object(&self.objects, path) {
            None => {
                proof {
                    let s = path_segs(table@, path.id());
                    if self.tree(table).contains_key(s) {
                        let j = choose|j: int| 0 <= j < d.len() && path_segs(table@, (#[trigger] d[j]).0) == s;
                        lemma_segs_injective(table@, d[j].0, path.id());
                        assert(vector_items(self.objects)[j].0 != path.id());
                    }
                }
                None
            },
            Some(k) => {
                let mut children: Vec<NamedObject> = Vec::new();
                let mut j: usize = 1;
                while j < objects_len(&self.objects)
                    invariant
                        self.wf(table),
                        d == self@,
                        nodes_wf(table@),
                        0 <= path.id() < table@.len(),
                        1 <= j <= d.len(),
                        forall|i: int|
                            0 <= i < children@.len() ==> exists|a: int|
                                0 <= a < d.len() && (#[trigger] children@[i])@ == d[a],
                        forall|i: int|
                            0 <= i < children@.len() ==> 0 < (#[trigger] children@[i])@.0 < table@.len()
                                && table@[children@[i]@.0].0 == path.id(),
                        forall|a: int|
                            1 <= a < j && table@[(#[trigger] d[a]).0].0 == path.id() ==> exists|i: int|
                                0 <= i < children@.len() && children@[i]@ == d[a],
                    decreases d.len() - j,
                {
                    let o = objects_get(&self.objects, j);
                    assert(d[j as int] == o@);
                    assert(d[j as int].0 != d[0].0);
                    let par = o.path.parent(table).unwrap();
                    proof {
                        par.lemma_id(&path);
                    }
                    let ghost c0 = children@;
                    if par == path {
                        children.push(o);
                        proof {
                            assert(children@[children@.len() - 1] == o);
                            assert forall|a: int|
                                1 <= a < j && table@[(#[trigger] d[a]).0].0 == path.id() implies exists|i: int|
                                0 <= i < children@.len() && children@[i]@ == d[a] by {
                                let i = choose|i: int| 0 <= i < c0.len() && c0[i]@ == d[a];
                                assert(children@[i] == c0[i]);
                            }
                            assert forall|i: int| 0 <= i < children@.len() implies exists|a: int|
                                0 <= a < d.len() && (#[trigger] children@[i])@ == d[a] by {
                                if i < c0.len() {
                                    assert(children@[i] == c0[i]);
                                } else {
                                    assert(children@[i]@ == d[j as int]);
                                }
                            }
                        }
                    }
                    j = j + 1;
                }
                let n = Node { base: objects_get(&self.objects, k), children };
                proof {
                    let m = self.tree(table);
                    assert(d[k as int] == vector_items(self.objects)[k as int]);
                    assert forall|i: int| 0 <= i < n@.1.len() implies m.contains_key(
                        path_segs(table@, (#[trigger] n@.1[i]).0),
                    ) && m[path_segs(table@, n@.1[i].0)] == n@.1[i].1 by {
                        assert(n@.1[i] == n.children@[i]@);
                        let a = choose|a: int| 0 <= a < d.len() && (#[trigger] n.children@[i])@ == d[a];
                        assert(d[a] == n@.1[i]);
                    }
                    assert forall|s: Seq<Seq<char>>|
                        #![trigger m.contains_key(s)]
                        m.contains_key(s) && s.len() > 0 && s.drop_last() == path_segs(table@, path.id())
                            implies exists|i: int|
                            0 <= i < n@.1.len() && path_segs(table@, (#[trigger] n@.1[i]).0) == s by {
                        let a = choose|a: int| 0 <= a < d.len() && path_segs(table@, (#[trigger] d[a]).0) == s;
                        if a == 0 {
                            assert(path_segs(table@, 0).len() == 0);
                        }
                        let q = table@[d[a].0].0 as int;
                        assert(table@[d[a].0].0 < d[a].0);
                        assert(s.drop_last() == path_segs(table@, q));
                        lemma_segs_injective(table@, q, path.id());
                        let i = choose|i: int| 0 <= i < n.children@.len() && n.children@[i]@ == d[a];
                        assert(n@.1[i] == n.children@[i]@);
                    }
                    assert forall|i: int| 0 <= i < n@.1.len() implies 0 < (#[trigger] n@.1[i]).0 < table@.len()
                        && table@[n@.1[i].0].0 == n@.0.0 by {
                        assert(n@.1[i] == n.children@[i]@);
                    }
                }
                Some(n)
            },
        }
    }
}


impl Document {
    /// Interning more paths keeps a document well formed, with the same tree.
    pub proof fn lemma_table_grows(&self, t1: &PathTable, t2: &PathTable)
        requires
            self.wf(t1),
            t2.wf(),
            extends(t1@, t2@),
        ensures
            self.wf(t2),
            self.tree(t2) == self.tree(t1),
    {
        lemma_tree_extends(t1@, t2@, self@);
    }
}

/// A path is in the tree of well-formed objects exactly when one of them has it.
proof fn lemma_tree_has(v: Seq<(usize, Seq<char>)>, d: Seq<(int, i64)>, q: int)
    requires
        nodes_wf(v),
        objects_wf(v, d),
        0 <= q < v.len(),
    ensures
        tree_of(v, d).contains_key(path_segs(v, q)) == exists|i: int| 0 <= i < d.len() && (#[trigger] d[i]).0 == q,
{
    lemma_tree_of(v, d);
    if tree_of(v, d).contains_key(path_segs(v, q)) {
        let j = choose|j: int| 0 <= j < d.len() && path_segs(v, (#[trigger] d[j]).0) == path_segs(v, q);
        lemma_segs_injective(v, d[j].0, q);
    }
}

impl Document {
    /// The root object.
    pub fn root(&self) -> (r: NamedObject)
        requires
            self@.len() > 0,
        ensures
            r@ == self@[0],
    {
        objects_get(&self.objects, 0)
    }

    /// Whether a node can be created at `path`: not when the path already
    /// has one, nor when its parent path has none.
    pub fn can_create(&self, table: &PathTable, path: ModelPath) -> (r: Result<(), DocumentError>)
        requires
            self.wf(table),
            path.id() < table@.len(),
        ensures
            r == create_check(self.tree(table), path_segs(table@, path.id())),
    {
        let ghost d = self@;
        proof {
            table.lemma_wf();
            path.lemma_id(&path);
            lemma_tree_has(table@, d, path.id());
        }
        match find_object(&self.objects, path) {
            Some(k) => {
                assert(d[k as int] == vector_items(self.objects)[k as int]);
                Err(DocumentError::PathCollision)
            },
            None => {
                proof {
                    assert forall|i: int| 0 <= i < d.len() implies (#[trigger] d[i]).0 != path.id() by {
                        assert(d[i] == vector_items(self.objects)[i]);
                    }
                    assert(d[0].0 == 0);
                }
                let par = path.parent(table).unwrap();
                proof {
                    par.lemma_id(&par);
                    lemma_tree_has(table@, d, par.id());
                    assert(table@[path.id()].0 < path.id());
                    assert(path_segs(table@, path.id()).drop_last() == path_segs(table@, par.id()));
                }
                match find_object(&self.objects, par) {
                    Some(k) => {
                        assert(d[k as int] == vector_items(self.objects)[k as int]);
                        Ok(())
                    },
                    None => {
                        proof {
                            assert forall|i: int| 0 <= i < d.len() implies (#[trigger] d[i]).0 != par.id() by {
                                assert(d[i] == vector_items(self.objects)[i]);
                            }
                        }
                        Err(DocumentError::NotFound)
                    },
                }
            },
        }
    }

    /// Attaches a new node at `path` with the store id `id` under its parent;
    /// fails, leaving the document as it was, when the path already has a
    /// node or its parent path has none.
    pub fn create_node(&mut self, table: &PathTable, path: ModelPath, id: i64) -> (r: Result<
        NamedObject,
        DocumentError,
    >)
        requires
            old(self).wf(table),
            path.id() < table@.len(),
        ensures
            match r {
                Ok(o) => {
                    &&& create_check(old(self).tree(table), path_segs(table@, path.id())) == Ok::<
                        (),
                        DocumentError,
                    >(())
                    &&& o@ == (path.id(), id)
                    &&& final(self).wf(table)
                    &&& final(self).tree(table) == old(self).tree(table).insert(
                        path_segs(table@, path.id()),
                        id,
                    )
                },
                Err(e) => create_check(old(self).tree(table), path_segs(table@, path.id())) == Err::<
                    (),
                    DocumentError,
                >(e) && *final(self) == *old(self),
            },
    {
        match self.can_create(table, path) {
            Err(e) => Err(e),
            Ok(()) => {
                let ghost d0 = self@;
                let o = NamedObject { id, path };
                proof {
                    table.lemma_wf();
                    path.lemma_id(&path);
                    lemma_tree_has(table@, d0, path.id());
                }
                objects_push(&mut self.objects, o);
                proof {
                    let d1 = self@;
                    let s = path_segs(table@, path.id());
                    assert(d1 == d0.push((path.id(), id)));
                    assert forall|j: int| 0 <= j < d0.len() implies (#[trigger] d1[j]) == d0[j] && d0[j].0
                        != path.id() by {}
                    assert(d1[d0.len() as int].0 == path.id());
                    assert(objects_wf(table@, d1));
                    assert(object_pairs(table@, d1).drop_last() =~= object_pairs(table@, d0));
                    let m0 = tree_of(table@, d0);
                    let m1 = tree_of(table@, d1);
                    assert(m1 == m0.insert(s, id));
                    assert forall|t: Seq<Seq<char>>| #[trigger] m1.contains_key(t) && t.len() > 0 implies m1.contains_key(
                        t.drop_last(),
                    ) by {
                        if t != s {
                            assert(m0.contains_key(t));
                        }
                    }
                }
                Ok(o)
            },
        }
    }

    /// The rows that writing the document stores: one per node, root first.
    pub fn records(&self, table: &PathTable) -> (r: Vec<StoreRecord>)
        requires
            self.wf(table),
        ensures
            r@.len() == self@.len(),
            forall|i: int| 0 <= i < r@.len() ==> (#[trigger] r@[i])@ == record_of(table@, self@[i]),
    {
        let mut out: Vec<StoreRecord> = Vec::new();
        let mut i: usize = 0;
        while i < objects_len(&self.objects)
            invariant
                self.wf(table),
                i <= self@.len(),
                out@.len() == i,
                forall|j: int| 0 <= j < i ==> (#[trigger] out@[j])@ == record_of(table@, self@[j]),
            decreases self@.len() - i,
        {
            assert(self@[i as int] == vector_items(self.objects)[i as int]);
            let rec = objects_get(&self.objects, i).record(table);
            out.push(rec);
            i = i + 1;
        }
        out
    }
}

/// Each child of a node sits at the path that joining its segment onto the
/// node's path gives: the node that `join` returns is the child itself.
pub proof fn law_child_path(table: &PathTable, n: &Node, i: int, joined: ModelPath)
    requires
        n.wf(table),
        0 <= i < n@.1.len(),
        1 <= joined.id() < table@.len(),
        table@[joined.id()].0 == n@.0.0,
        table@[joined.id()].1 == table@[n@.1[i].0].1,
    ensures
        joined.id() == n@.1[i].0,
        path_segs(table@, n@.1[i].0) == path_segs(table@, n@.0.0).push(table@[n@.1[i].0].1),
{
    table.lemma_wf();
    let c = n@.1[i].0;
    assert(table@[c].0 < c);
    assert(table@[joined.id()] == table@[c]);
}

/// Segments of a well-formed table hold no slash.
proof fn lemma_segs_slash_free(v: Seq<(usize, Seq<char>)>, i: int)
    requires
        nodes_wf(v),
        0 <= i < v.len(),
    ensures
        slash_free(path_segs(v, i)),
    decreases i,
{
    if i >= 1 {
        let p = v[i].0 as int;
        lemma_segs_slash_free(v, p);
        let s = path_segs(v, i);
        assert forall|j: int| 0 <= j < s.len() implies !(#[trigger] s[j]).contains('/') by {
            if j < s.len() - 1 {
                assert(s[j] == path_segs(v, p)[j]);
            }
        }
    }
}

/// A fold that starts with the root's default entry ends as one that starts
/// empty, once its first pair is for the root.
proof fn lemma_fold_root_base(pairs: Seq<(Seq<Seq<char>>, i64)>)
    requires
        pairs.len() >= 1,
        pairs[0].0 == Seq::<Seq<char>>::empty(),
    ensures
        fold_pairs(map![Seq::<Seq<char>>::empty() => 0i64], pairs) == fold_pairs(Map::empty(), pairs),
    decreases pairs.len(),
{
    let init = pairs.drop_last();
    if pairs.len() == 1 {
        assert(init.len() == 0);
        assert(fold_pairs(map![Seq::<Seq<char>>::empty() => 0i64], init) == map![Seq::<Seq<char>>::empty() => 0i64]);
        assert(fold_pairs(Map::<Seq<Seq<char>>, i64>::empty(), init) == Map::<Seq<Seq<char>>, i64>::empty());
        assert(pairs.last() == pairs[0]);
        assert(map![Seq::<Seq<char>>::empty() => 0i64].insert(pairs[0].0, pairs[0].1) =~= Map::<
            Seq<Seq<char>>,
            i64,
        >::empty().insert(pairs[0].0, pairs[0].1));
    } else {
        assert(init[0] == pairs[0]);
        lemma_fold_root_base(init);
    }
}

/// The rows that writing `d` stores, as loading reads them back.
pub open spec fn written_rows(table: &PathTable, d: &Document) -> Seq<(i64, Option<Seq<char>>)> {
    d@.map_values(|o: (int, i64)| (record_of(table@, o).0, Some(record_of(table@, o).2)))
}

/// Loading the rows that writing a document stores rebuilds the same tree:
/// the same paths with the same ids, and no missing parent.
pub proof fn law_write_then_open(table: &PathTable, d: &Document)
    requires
        d.wf(table),
    ensures
        rows_tree(written_rows(table, d)) == d.tree(table),
        tree_closed(rows_tree(written_rows(table, d))),
{
    table.lemma_wf();
    let v = table@;
    let rows = written_rows(table, d);
    let rp = rows.map_values(|r: (i64, Option<Seq<char>>)| (row_segs(r), r.0));
    let op = object_pairs(v, d@);
    assert forall|i: int| 0 <= i < rp.len() implies #[trigger] rp[i] == op[i] by {
        let o = d@[i];
        lemma_segs_slash_free(v, o.0);
        lemma_parse_render(path_segs(v, o.0));
        assert(rows[i] == (o.1, Some(render_segs(path_segs(v, o.0)))));
    }
    assert(rp =~= op);
    assert(op[0] == (path_segs(v, 0), d@[0].1));
    assert(path_segs(v, 0) == Seq::<Seq<char>>::empty());
    lemma_fold_root_base(op);
}

} // verus!
