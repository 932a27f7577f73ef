use dashmap::DashMap;
use vstd::prelude::*;
use vstd::string::*;

verus! {

#[verifier::external_type_specification]
#[verifier::external_body]
#[verifier::reject_recursive_types(K)]
#[verifier::reject_recursive_types(V)]
#[verifier::reject_recursive_types(S)]
pub struct ExDashMap<K, V, S>(DashMap<K, V, S>);

/// Key of the interning index: the identity of the parent path node and one segment.
#[derive(Clone, Debug, Hash, PartialEq, Eq)]
pub struct PathKey {
    parent: usize,
    part: String,
}

impl PathKey {
    /// The parent node and the segment, as plain values.
    pub closed spec fn key_view(&self) -> (usize, Seq<char>) {
        (self.parent, self.part@)
    }
}

/// What the interning index holds: each (parent, segment) key with the node it leads to.
pub uninterp spec fn index_entries(m: DashMap<PathKey, usize>) -> Map<(usize, Seq<char>), usize>;

/// The map with no entry.
pub open spec fn no_entries() -> Map<(usize, Seq<char>), usize> {
    Map::empty()
}

/// Relies on DashMap::new: a new map holds no entry.
#[verifier::external_body]
fn index_new() -> (r: DashMap<PathKey, usize>)
    ensures
        index_entries(r) == no_entries(),
{
    DashMap::new()
}

/// Relies on DashMap::get: the value stored under an equal key, if any.
#[verifier::external_body]
fn index_get(m: &DashMap<PathKey, usize>, k: &PathKey) -> (r: Option<usize>)
    ensures
        match r {
            Some(v) => index_entries(*m).contains_key(k.key_view()) && index_entries(*m)[k.key_view()] == v,
            None => !index_entries(*m).contains_key(k.key_view()),
        },
{
    m.get(k).map(|e| *e.value())
}

/// Relies on DashMap::insert: afterwards the key maps to the value, other entries stay.
#[verifier::external_body]
fn index_insert(m: &mut DashMap<PathKey, usize>, k: PathKey, v: usize)
    ensures
        index_entries(*final(m)) == index_entries(*old(m)).insert(k.key_view(), v),
{
    m.insert(k, v);
}

struct PathEntry {
    parent: usize,
    name: String,
}

/// The canonical path space: node 0 is the root, every other node is a
/// (parent, segment) pair whose parent was created before it.
pub struct PathTable {
    entries: Vec<PathEntry>,
    index: DashMap<PathKey, usize>,
}

/// Each node's parent comes strictly before it, no segment holds a slash, and
/// no two non-root nodes share a (parent, segment) pair.
pub open spec fn nodes_wf(v: Seq<(usize, Seq<char>)>) -> bool {
    &&& v.len() >= 1
    &&& forall|i: int| 1 <= i < v.len() ==> (#[trigger] v[i]).0 < i && !v[i].1.contains('/')
    &&& forall|i: int, j: int|
        1 <= i < v.len() && 1 <= j < v.len() && i != j ==> #[trigger] v[i] != #[trigger] v[j]
}

/// The segments of node `i`, from the root down.
pub open spec fn path_segs(v: Seq<(usize, Seq<char>)>, i: int) -> Seq<Seq<char>>
    decreases i,
{
    if 1 <= i < v.len() && (v[i].0 as int) < i {
        path_segs(v, v[i].0 as int).push(v[i].1)
    } else {
        Seq::empty()
    }
}

/// Node `a` is node `b` or lies on `b`'s parent chain.
pub open spec fn is_ancestor(v: Seq<(usize, Seq<char>)>, a: int, b: int) -> bool
    decreases b,
{
    if a == b {
        true
    } else if 1 <= b < v.len() && (v[b].0 as int) < b {
        is_ancestor(v, a, v[b].0 as int)
    } else {
        false
    }
}

/// `b` keeps every node of `a` in place and may add more after them.
pub open spec fn extends(a: Seq<(usize, Seq<char>)>, b: Seq<(usize, Seq<char>)>) -> bool {
    a.len() <= b.len() && forall|i: int| 0 <= i < a.len() ==> #[trigger] b[i] == a[i]
}

/// Slash-separated form of a list of segments: "/a/b" for [a, b], "" for none.
pub open spec fn render_segs(s: Seq<Seq<char>>) -> Seq<char>
    decreases s.len(),
{
    if s.len() == 0 {
        Seq::empty()
    } else {
        render_segs(s.drop_last()) + seq!['/'] + s.last()
    }
}

/// The string form of a path: "/" for the root.
pub open spec fn display_segs(s: Seq<Seq<char>>) -> Seq<char> {
    if s.len() == 0 {
        seq!['/']
    } else {
        render_segs(s)
    }
}

/// Position of the last slash in `s`, or -1.
pub open spec fn last_slash(s: Seq<char>) -> int
    decreases s.len(),
{
    if s.len() == 0 {
        -1
    } else if s.last() == '/' {
        s.len() - 1
    } else {
        last_slash(s.drop_last())
    }
}

/// The segments that a path string denotes: split at the last slash, resolve
/// the prefix, append the rest; a string without slash is one segment under
/// the root, the empty string is the root.
pub open spec fn parse_segs(s: Seq<char>) -> Seq<Seq<char>>
    decreases s.len(),
{
    let k = last_slash(s);
    if 0 <= k < s.len() {
        parse_segs(s.subrange(0, k)).push(s.subrange(k + 1, s.len() as int))
    } else if s.len() == 0 {
        Seq::empty()
    } else {
        seq![s]
    }
}

/// The last slash lies within the string and no slash follows it.
pub proof fn lemma_last_slash(s: Seq<char>)
    ensures
        -1 <= last_slash(s) < s.len(),
        last_slash(s) >= 0 ==> s[last_slash(s)] == '/',
        forall|j: int| last_slash(s) < j < s.len() ==> s[j] != '/',
    decreases s.len(),
{
    if s.len() > 0 && s.last() != '/' {
        let t = s.drop_last();
        lemma_last_slash(t);
        assert forall|j: int| last_slash(s) < j < s.len() implies s[j] != '/' by {
            if j < t.len() {
                assert(s[j] == t[j]);
            }
        }
    }
}

/// Adding nodes to a table leaves the segments of the nodes it had unchanged.
pub proof fn lemma_extends_segs(a: Seq<(usize, Seq<char>)>, b: Seq<(usize, Seq<char>)>, i: int)
    requires
        extends(a, b),
        0 <= i < a.len(),
    ensures
        path_segs(b, i) == path_segs(a, i),
    decreases i,
{
    assert(b[i] == a[i]);
    if 1 <= i && (a[i].0 as int) < i {
        lemma_extends_segs(a, b, a[i].0 as int);
    }
}

/// A handle to one canonical path node; two handles are equal exactly when
/// they denote the same node.
#[derive(Clone, Copy, Debug, Hash, PartialEq, Eq, Structural)]
pub struct ModelPath {
    node: usize,
}

impl View for PathTable {
    type V = Seq<(usize, Seq<char>)>;

    closed spec fn view(&self) -> Seq<(usize, Seq<char>)> {
        self.entries@.map_values(|e: PathEntry| (e.parent, e.name@))
    }
}

impl PathTable {
    /// The nodes are well formed and the index maps each (parent, segment)
    /// pair to the node that holds it, and nothing else.
    pub closed spec fn wf(&self) -> bool {
        &&& nodes_wf(self@)
        &&& forall|k: (usize, Seq<char>)| #[trigger]
            index_entries(self.index).contains_key(k) ==> {
                let i = index_entries(self.index)[k] as int;
                1 <= i < self@.len() && self@[i] == k
            }
        &&& forall|i: int|
            1 <= i < self@.len() ==> index_entries(self.index).contains_key(#[trigger] self@[i])
                && index_entries(self.index)[self@[i]] == i
    }

    /// A table that holds the root alone.
    pub fn new() -> (r: PathTable)
        ensures
            r.wf(),
            r@.len() == 1,
    {
        let mut entries: Vec<PathEntry> = Vec::new();
        entries.push(PathEntry { parent: 0, name: String::new() });
        let r = PathTable { entries, index: index_new() };
        r
    }

    /// Number of nodes interned so far, the root included.
    pub fn len(&self) -> (r: usize)
        ensures
            r == self@.len(),
    {
        self.entries.len()
    }
}

impl ModelPath {
    /// The node that this handle denotes.
    pub closed spec fn id(&self) -> int {
        self.node as int
    }

    /// Handles are equal exactly when they denote the same node.
    pub proof fn lemma_id(&self, other: &ModelPath)
        ensures
            0 <= self.id(),
            (self.id() == other.id()) == (*self == *other),
    {
    }

    /// Returns the path to the root object.
    pub fn root() -> (r: ModelPath)
        ensures
            r.id() == 0,
    {
        ModelPath { node: 0 }
    }

    /// The handle on `self` followed by segment `part`, interned on first use.
    pub fn join(&self, table: &mut PathTable, part: &str) -> (r: ModelPath)
        requires
            old(table).wf(),
            self.id() < old(table)@.len(),
            !part@.contains('/'),
        ensures
            final(table).wf(),
            extends(old(table)@, final(table)@),
            1 <= r.id() < final(table)@.len(),
            final(table)@[r.id()].0 == self.id(),
            final(table)@[r.id()].1 == part@,
            path_segs(final(table)@, r.id()) == path_segs(final(table)@, self.id()).push(part@),
    {
        let key = PathKey { parent: self.node, part: String::from_str(part) };
        match index_get(&table.index, &key) {
            Some(i) => {
                proof {
                    assert(table@[i as int] == key.key_view());
                }
                ModelPath { node: i }
            },
            None => {
                let i = table.entries.len();
                let ghost v0 = table@;
                table.entries.push(PathEntry { parent: self.node, name: String::from_str(part) });
                index_insert(&mut table.index, key, i);
                proof {
                    let v1 = table@;
                    assert(v1.len() == v0.len() + 1);
                    assert(forall|j: int| 0 <= j < v0.len() ==> #[trigger] v1[j] == v0[j]);
                    assert(v1[i as int] == key.key_view());
                    assert forall|a: int, b: int|
                        1 <= a < v1.len() && 1 <= b < v1.len() && a != b implies #[trigger] v1[a]
                        != #[trigger] v1[b] by {
                        if a == i {
                            assert(index_entries(table.index).contains_key(v0[b]));
                        } else if b == i {
                            assert(index_entries(table.index).contains_key(v0[a]));
                        }
                    }
                    assert forall|j: int| 1 <= j < v1.len() implies (#[trigger] v1[j]).0 < j
                        && !v1[j].1.contains('/') by {
                        if j < i {
                            assert(v1[j] == v0[j]);
                        }
                    }
                }
                ModelPath { node: i }
            },
        }
    }
}


impl ModelPath {
    /// Whether this is the root path.
    pub fn is_root(&self) -> (r: bool)
        ensures
            r == (self.id() == 0),
    {
        self.node == 0
    }

    /// Paths handed out here are never relative.
    pub fn is_relative(&self) -> (r: bool)
        ensures
            !r,
    {
        false
    }

    /// Every path handed out here is absolute.
    pub fn is_absolute(&self) -> (r: bool)
        ensures
            r,
    {
        true
    }

    /// Returns the parent path: none for the root.
    pub fn parent(&self, table: &PathTable) -> (r: Option<ModelPath>)
        requires
            table.wf(),
            self.id() < table@.len(),
        ensures
            self.id() == 0 ==> r.is_none(),
            self.id() != 0 ==> r.is_some() && r.unwrap().id() == table@[self.id()].0,
    {
        if self.node == 0 {
            None
        } else {
            Some(ModelPath { node: table.entries[self.node].parent })
        }
    }

    /// The parent path and the last segment: none for the root.
    pub fn split_last(&self, table: &PathTable) -> (r: Option<(ModelPath, String)>)
        requires
            table.wf(),
            self.id() < table@.len(),
        ensures
            self.id() == 0 ==> r.is_none(),
            self.id() != 0 ==> r.is_some() && r.unwrap().0.id() == table@[self.id()].0
                && r.unwrap().1@ == table@[self.id()].1,
    {
        if self.node == 0 {
            None
        } else {
            let e = &table.entries[self.node];
            Some((ModelPath { node: e.parent }, e.name.clone()))
        }
    }

    /// The last segment: empty for the root.
    pub fn name(&self, table: &PathTable) -> (r: String)
        requires
            table.wf(),
            self.id() < table@.len(),
        ensures
            self.id() == 0 ==> r@.len() == 0,
            self.id() != 0 ==> r@ == table@[self.id()].1,
            r@ == (if path_segs(table@, self.id()).len() == 0 {
                Seq::<char>::empty()
            } else {
                path_segs(table@, self.id()).last()
            }),
    {
        if self.node == 0 {
            String::new()
        } else {
            table.entries[self.node].name.clone()
        }
    }

    /// Whether `self` is `other` or one of its ancestors.
    pub fn is_prefix(&self, table: &PathTable, other: &ModelPath) -> (r: bool)
        requires
            table.wf(),
            self.id() < table@.len(),
            other.id() < table@.len(),
        ensures
            r == is_ancestor(table@, self.id(), other.id()),
    {
        let mut cur = other.node;
        loop
            invariant
                table.wf(),
                cur < table@.len(),
                is_ancestor(table@, self.id(), other.id()) == is_ancestor(table@, self.id(), cur as int),
            decreases cur,
        {
            if cur == self.node {
                return true;
            }
            if cur == 0 {
                return false;
            }
            cur = table.entries[cur].parent;
        }
    }

    /// The string form: "/" for the root, else "/" before each segment.
    pub fn to_string(&self, table: &PathTable) -> (r: String)
        requires
            table.wf(),
            self.id() < table@.len(),
        ensures
            r@ == display_segs(path_segs(table@, self.id())),
    {
        proof {
            reveal_strlit("/");
        }
        if self.node == 0 {
            String::from_str("/")
        } else {
            node_string(table, self.node)
        }
    }

    /// The handle for a path string, interning each node on the way.
    pub fn parse(table: &mut PathTable, path: &str) -> (r: ModelPath)
        requires
            old(table).wf(),
        ensures
            final(table).wf(),
            extends(old(table)@, final(table)@),
            r.id() < final(table)@.len(),
            path_segs(final(table)@, r.id()) == parse_segs(path@),
        decreases path@.len(),
    {
        let n = path.unicode_len();
        proof {
            lemma_last_slash(path@);
        }
        match find_last_slash(path) {
            None => {
                if n == 0 {
                    ModelPath::root()
                } else {
                    proof {
                        assert forall|j: int| 0 <= j < path@.len() implies path@[j] != '/' by {}
                    }
                    ModelPath::root().join(table, path)
                }
            },
            Some(k) => {
                let prefix = path.substring_char(0, k);
                let last = path.substring_char(k + 1, n);
                assert(!last@.contains('/')) by {
                    assert forall|j: int| 0 <= j < last@.len() implies last@[j] != '/' by {
                        assert(last@[j] == path@[k + 1 + j]);
                    }
                }
                let p = ModelPath::parse(table, prefix);
                let ghost mid = table@;
                let r = p.join(table, last);
                proof {
                    lemma_extends_segs(mid, table@, p.id());
                    assert(prefix@ == path@.subrange(0, k as int));
                }
                r
            },
        }
    }
}

/// The slash-separated form of the non-root node `i`.
fn node_string(table: &PathTable, i: usize) -> (r: String)
    requires
        table.wf(),
        1 <= i < table@.len(),
    ensures
        r@ == render_segs(path_segs(table@, i as int)),
    decreases i,
{
    let e = &table.entries[i];
    assert(table@[i as int] == (e.parent, e.name@));
    proof {
        reveal_strlit("/");
    }
    let mut p = if e.parent == 0 {
        String::new()
    } else {
        node_string(table, e.parent)
    };
    let ghost s = path_segs(table@, i as int);
    assert(s.drop_last() == path_segs(table@, e.parent as int));
    assert(p@ == render_segs(s.drop_last()));
    p.append("/");
    p.append(e.name.as_str());
    assert(s.last() == e.name@);
    assert(p@ == render_segs(s.drop_last()) + seq!['/'] + s.last());
    p
}

/// The position of the last slash in `s`, if it holds one.
fn find_last_slash(s: &str) -> (r: Option<usize>)
    ensures
        match r {
            Some(k) => k == last_slash(s@),
            None => last_slash(s@) == -1,
        },
{
    let n = s.unicode_len();
    let mut k: usize = n;
    assert(s@.subrange(0, n as int) == s@);
    while k > 0
        invariant
            k <= n == s@.len(),
            last_slash(s@.subrange(0, k as int)) == last_slash(s@),
        decreases k,
    {
        if s.get_char(k - 1) == '/' {
            return Some(k - 1);
        }
        assert(s@.subrange(0, k as int).drop_last() == s@.subrange(0, k - 1));
        k = k - 1;
    }
    None
}


/// `a` is an initial part of `b`.
pub open spec fn seq_prefix<A>(a: Seq<A>, b: Seq<A>) -> bool {
    a.len() <= b.len() && b.subrange(0, a.len() as int) == a
}

/// No segment holds a slash.
pub open spec fn slash_free(segs: Seq<Seq<char>>) -> bool {
    forall|i: int| 0 <= i < segs.len() ==> !(#[trigger] segs[i]).contains('/')
}

impl PathTable {
    /// A well-formed table has well-formed nodes.
    pub proof fn lemma_wf(&self)
        requires
            self.wf(),
        ensures
            nodes_wf(self@),
    {
    }
}

/// Distinct nodes of a well-formed table have distinct segments.
pub proof fn lemma_segs_injective(v: Seq<(usize, Seq<char>)>, i: int, j: int)
    requires
        nodes_wf(v),
        0 <= i < v.len(),
        0 <= j < v.len(),
        path_segs(v, i) == path_segs(v, j),
    ensures
        i == j,
    decreases i + j,
{
    if i != j {
        if i == 0 {
            assert(v[j].0 < j);
            assert(path_segs(v, j).len() > 0);
        } else if j == 0 {
            assert(v[i].0 < i);
            assert(path_segs(v, i).len() > 0);
        } else {
            assert(v[i].0 < i && v[j].0 < j);
            let pi = v[i].0 as int;
            let pj = v[j].0 as int;
            assert(path_segs(v, i).drop_last() == path_segs(v, pi));
            assert(path_segs(v, j).drop_last() == path_segs(v, pj));
            lemma_segs_injective(v, pi, pj);
            assert(path_segs(v, i).last() == v[i].1);
            assert(path_segs(v, j).last() == v[j].1);
            assert(v[i].0 == v[j].0 && v[i].1 == v[j].1);
            assert(v[i] == v[j]);
        }
    }
}

/// Parsing the same string again, on the same table or on any later state of
/// it, hands back the same handle.
pub proof fn law_parse_unique(
    t1: &PathTable,
    t2: &PathTable,
    p: Seq<char>,
    a: ModelPath,
    b: ModelPath,
)
    requires
        t1.wf(),
        t2.wf(),
        extends(t1@, t2@),
        a.id() < t1@.len(),
        b.id() < t2@.len(),
        path_segs(t1@, a.id()) == parse_segs(p),
        path_segs(t2@, b.id()) == parse_segs(p),
    ensures
        a == b,
{
    a.lemma_id(&b);
    lemma_extends_segs(t1@, t2@, a.id());
    lemma_segs_injective(t2@, a.id(), b.id());
}

proof fn lemma_last_slash_of_join(a: Seq<char>, x: Seq<char>)
    requires
        !x.contains('/'),
    ensures
        last_slash(a + seq!['/'] + x) == a.len(),
    decreases x.len(),
{
    let s = a + seq!['/'] + x;
    if x.len() > 0 {
        assert(s.last() == x.last());
        assert(!x.contains('/') ==> x.last() != '/') by {
            assert(x[x.len() - 1] == x.last());
        }
        let y = x.drop_last();
        assert(!y.contains('/')) by {
            assert forall|j: int| 0 <= j < y.len() implies y[j] != '/' by {
                assert(y[j] == x[j]);
            }
        }
        assert(s.drop_last() == a + seq!['/'] + y);
        lemma_last_slash_of_join(a, y);
    }
}

/// Parsing the string form of slash-free segments gives those segments back.
pub proof fn lemma_parse_render(segs: Seq<Seq<char>>)
    requires
        slash_free(segs),
    ensures
        parse_segs(render_segs(segs)) == segs,
    decreases segs.len(),
{
    if segs.len() > 0 {
        let init = segs.drop_last();
        let x = segs.last();
        assert(!x.contains('/')) by {
            assert(segs[segs.len() - 1] == x);
        }
        assert(slash_free(init)) by {
            assert forall|i: int| 0 <= i < init.len() implies !(#[trigger] init[i]).contains('/') by {
                assert(init[i] == segs[i]);
            }
        }
        let r = render_segs(init);
        let s = render_segs(segs);
        assert(s == r + seq!['/'] + x);
        lemma_last_slash_of_join(r, x);
        lemma_parse_render(init);
        assert(s.subrange(0, r.len() as int) == r);
        assert(s.subrange(r.len() as int + 1, s.len() as int) == x);
        assert(segs == init.push(x));
    }
}

/// A path string made of non-empty slash-free segments is the string form of
/// the path it parses to.
pub proof fn law_round_trip(p: Seq<char>, segs: Seq<Seq<char>>)
    requires
        p == render_segs(segs),
        segs.len() > 0,
        slash_free(segs),
        forall|i: int| 0 <= i < segs.len() ==> (#[trigger] segs[i]).len() > 0,
    ensures
        display_segs(parse_segs(p)) == p,
{
    lemma_parse_render(segs);
}

/// Joining `a` then `b` to the root gives the handle that parsing "/a/b" gives.
pub proof fn law_join_twice(
    t1: &PathTable,
    t2: &PathTable,
    a: Seq<char>,
    b: Seq<char>,
    joined: ModelPath,
    parsed: ModelPath,
)
    requires
        t1.wf(),
        t2.wf(),
        extends(t1@, t2@),
        !a.contains('/'),
        !b.contains('/'),
        joined.id() < t1@.len(),
        parsed.id() < t2@.len(),
        path_segs(t1@, joined.id()) == seq![a, b],
        path_segs(t2@, parsed.id()) == parse_segs(seq!['/'] + a + seq!['/'] + b),
    ensures
        joined == parsed,
{
    let segs = seq![a, b];
    assert(slash_free(segs));
    assert(segs.drop_last() == seq![a]);
    assert(seq![a].drop_last() == Seq::<Seq<char>>::empty());
    assert(seq![a].last() == a);
    assert(render_segs(Seq::<Seq<char>>::empty()) == Seq::<char>::empty());
    assert(render_segs(seq![a]) =~= seq!['/'] + a);
    assert(segs.last() == b);
    assert(render_segs(segs) =~= seq!['/'] + a + seq!['/'] + b);
    lemma_parse_render(segs);
    law_parse_unique(t1, t2, seq!['/'] + a + seq!['/'] + b, joined, parsed);
}

/// `p` lies on `q`'s parent chain exactly when `p`'s segments begin `q`'s.
pub proof fn lemma_ancestor_segs(v: Seq<(usize, Seq<char>)>, p: int, q: int)
    requires
        nodes_wf(v),
        0 <= p < v.len(),
        0 <= q < v.len(),
    ensures
        is_ancestor(v, p, q) == seq_prefix(path_segs(v, p), path_segs(v, q)),
    decreases q,
{
    let sp = path_segs(v, p);
    let sq = path_segs(v, q);
    if p == q {
        assert(sq.subrange(0, sq.len() as int) == sq);
    } else if q == 0 {
        if seq_prefix(sp, sq) {
            assert(sp.len() == 0);
            lemma_segs_injective(v, p, q);
        }
    } else {
        assert(v[q].0 < q);
        let pq = v[q].0 as int;
        let sr = path_segs(v, pq);
        assert(sq == sr.push(v[q].1));
        lemma_ancestor_segs(v, p, pq);
        if seq_prefix(sp, sq) {
            if sp.len() == sq.len() {
                assert(sq.subrange(0, sq.len() as int) == sq);
                lemma_segs_injective(v, p, q);
            } else {
                assert(sr.subrange(0, sp.len() as int) == sq.subrange(0, sp.len() as int));
            }
        }
        if seq_prefix(sp, sr) {
            assert(sr.subrange(0, sp.len() as int) == sq.subrange(0, sp.len() as int));
        }
    }
}

/// A path is a prefix of every path joined onto it, and of no path whose
/// segments do not begin with its own.
pub proof fn law_prefix(t: &PathTable, p: ModelPath, q: ModelPath)
    requires
        t.wf(),
        p.id() < t@.len(),
        q.id() < t@.len(),
    ensures
        q.id() != 0 && t@[q.id()].0 == p.id() ==> is_ancestor(t@, p.id(), q.id()),
        !seq_prefix(path_segs(t@, p.id()), path_segs(t@, q.id())) ==> !is_ancestor(t@, p.id(), q.id()),
{
    p.lemma_id(&q);
    lemma_ancestor_segs(t@, p.id(), q.id());
    if q.id() != 0 && t@[q.id()].0 == p.id() {
        assert(t@[q.id()].0 < q.id());
        assert(is_ancestor(t@, p.id(), p.id()));
    }
}

} // verus!
