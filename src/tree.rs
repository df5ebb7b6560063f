use vstd::prelude::*;

verus! {

broadcast use vstd::std_specs::vec::group_vec_axioms;

/// How two trees combine: `Shallow` replaces each top-level key whole, `Deep`
/// merges objects found at the same key, recursively.
#[derive(Debug, Clone, Copy, PartialEq, Eq, Structural)]
pub enum MergeStrategy {
    Shallow,
    Deep,
}

/// The mathematical content of a configuration value.
pub enum Tree {
    Null,
    Bool(bool),
    Int(int),
    /// A number that is not a 64-bit integer, by its text.
    Float(Seq<char>),
    Str(Seq<char>),
    Array(Seq<Tree>),
    /// Keyed entries; the order carries no meaning.
    Object(Seq<(Seq<char>, Tree)>),
}

/// A configuration value: a document of objects, arrays and scalars.
#[derive(Debug)]
pub enum Value {
    Null,
    Bool(bool),
    Int(i64),
    /// A number that is not a 64-bit integer, by its text.
    Float(String),
    Str(String),
    Array(Vec<Value>),
    Object(Vec<(String, Value)>),
}

pub open spec fn tree_of(v: Value) -> Tree
    decreases v,
{
    match v {
        Value::Null => Tree::Null,
        Value::Bool(b) => Tree::Bool(b),
        Value::Int(i) => Tree::Int(i as int),
        Value::Float(s) => Tree::Float(s@),
        Value::Str(s) => Tree::Str(s@),
        Value::Array(a) => Tree::Array(
            Seq::new(a.len() as nat, |i: int| if 0 <= i < a.len() { tree_of(a[i]) } else { Tree::Null }),
        ),
        Value::Object(o) => Tree::Object(
            Seq::new(
                o.len() as nat,
                |i: int| if 0 <= i < o.len() { (o[i].0@, tree_of(o[i].1)) } else { (Seq::empty(), Tree::Null) },
            ),
        ),
    }
}

impl View for Value {
    type V = Tree;

    open spec fn view(&self) -> Tree {
        tree_of(*self)
    }
}


/// Entries of an object, as the model sees them.
pub open spec fn entries_of(o: Seq<(String, Value)>) -> Seq<(Seq<char>, Tree)> {
    o.map_values(|p: (String, Value)| (p.0@, tree_of(p.1)))
}

/// A path of keys, as character sequences.
pub open spec fn keys_of(path: Seq<String>) -> Seq<Seq<char>> {
    path.map_values(|k: String| k@)
}

/// The models of a list of values.
pub open spec fn trees_of(vs: Seq<Value>) -> Seq<Tree> {
    vs.map_values(|v: Value| v@)
}

pub proof fn lemma_object_view(o: Vec<(String, Value)>)
    ensures
        Value::Object(o)@ == Tree::Object(entries_of(o@)),
{
    assert(entries_of(o@) =~= Value::Object(o)@->Object_0);
}

/// Position of the first entry with key `k`, or -1.
pub open spec fn key_pos<V>(e: Seq<(Seq<char>, V)>, k: Seq<char>) -> int
    decreases e.len(),
{
    if e.len() == 0 {
        -1
    } else {
        let p = key_pos(e.drop_last(), k);
        if p >= 0 {
            p
        } else if e.last().0 == k {
            e.len() - 1
        } else {
            -1
        }
    }
}

/// No two entries share a key.
pub open spec fn keys_unique<V>(e: Seq<(Seq<char>, V)>) -> bool {
    forall|i: int, j: int| 0 <= i < j < e.len() ==> e[i].0 != e[j].0
}

/// Keys are unique in every object of the tree.
pub open spec fn well_formed(t: Tree) -> bool
    decreases t,
{
    match t {
        Tree::Array(a) => forall|i: int| 0 <= i < a.len() ==> well_formed(#[trigger] a[i]),
        Tree::Object(e) => keys_unique(e) && forall|i: int|
            0 <= i < e.len() ==> well_formed(#[trigger] e[i].1),
        _ => true,
    }
}

/// An object at the top of the tree holds each key once.
pub open spec fn top_unique(t: Tree) -> bool {
    t is Object ==> keys_unique(t->Object_0)
}

/// `e` with key `k` bound to `v`: in place where `k` is present, appended where not.
pub open spec fn put<V>(e: Seq<(Seq<char>, V)>, k: Seq<char>, v: V) -> Seq<(Seq<char>, V)> {
    let p = key_pos(e, k);
    if p >= 0 {
        e.update(p, (k, v))
    } else {
        e.push((k, v))
    }
}

/// The value at `path`, if every step finds an object holding the key.
pub open spec fn tree_get(t: Tree, path: Seq<Seq<char>>) -> Option<Tree>
    decreases path.len(),
{
    if path.len() == 0 {
        Some(t)
    } else {
        match t {
            Tree::Object(e) => {
                let p = key_pos(e, path[0]);
                if p >= 0 {
                    tree_get(e[p].1, path.drop_first())
                } else {
                    None
                }
            },
            _ => None,
        }
    }
}

/// The entries of the object found under key `k` in `e`, or none.
pub open spec fn child_entries(e: Seq<(Seq<char>, Tree)>, k: Seq<char>) -> Seq<(Seq<char>, Tree)> {
    let p = key_pos(e, k);
    if p >= 0 && e[p].1 is Object {
        e[p].1->Object_0
    } else {
        Seq::empty()
    }
}

/// `e` with `v` stored at `path`; objects are created on the way, and a
/// non-object found on the way is replaced by a fresh object.
pub open spec fn entries_set(e: Seq<(Seq<char>, Tree)>, path: Seq<Seq<char>>, v: Tree) -> Seq<
    (Seq<char>, Tree),
>
    decreases path.len(),
{
    if path.len() == 0 {
        e
    } else if path.len() == 1 {
        put(e, path[0], v)
    } else {
        put(e, path[0], Tree::Object(entries_set(child_entries(e, path[0]), path.drop_first(), v)))
    }
}

/// `t` with `v` stored at `path`; an empty path changes nothing.
pub open spec fn tree_set(t: Tree, path: Seq<Seq<char>>, v: Tree) -> Tree {
    if path.len() == 0 {
        t
    } else {
        let e = if t is Object {
            t->Object_0
        } else {
            Seq::empty()
        };
        Tree::Object(entries_set(e, path, v))
    }
}

/// `b` laid over `a`.
pub open spec fn merge_trees(a: Tree, b: Tree, s: MergeStrategy) -> Tree
    decreases b,
{
    match b {
        Tree::Object(eb) => match a {
            Tree::Object(ea) => Tree::Object(merge_entries(ea, eb, s)),
            _ => b,
        },
        _ => b,
    }
}

/// The entries `eb` laid one after another over `ea`.
pub open spec fn merge_entries(
    ea: Seq<(Seq<char>, Tree)>,
    eb: Seq<(Seq<char>, Tree)>,
    s: MergeStrategy,
) -> Seq<(Seq<char>, Tree)>
    decreases eb,
{
    if eb.len() == 0 {
        ea
    } else {
        let acc = merge_entries(ea, eb.drop_last(), s);
        let k = eb.last().0;
        let p = key_pos(acc, k);
        if p >= 0 && s == MergeStrategy::Deep {
            acc.update(p, (k, merge_trees(acc[p].1, eb.last().1, s)))
        } else {
            put(acc, k, eb.last().1)
        }
    }
}

/// The trees laid over an empty object, first to last.
pub open spec fn merge_all_trees(ts: Seq<Tree>, s: MergeStrategy) -> Tree
    decreases ts.len(),
{
    if ts.len() == 0 {
        Tree::Object(Seq::empty())
    } else {
        merge_trees(merge_all_trees(ts.drop_last(), s), ts.last(), s)
    }
}

pub proof fn lemma_key_pos<V>(e: Seq<(Seq<char>, V)>, k: Seq<char>)
    ensures
        -1 <= key_pos(e, k) < e.len(),
        key_pos(e, k) >= 0 ==> e[key_pos(e, k)].0 == k,
        forall|j: int|
            #![trigger e[j]]
            0 <= j < e.len() && (key_pos(e, k) < 0 || j < key_pos(e, k)) ==> e[j].0 != k,
    decreases e.len(),
{
    if e.len() > 0 {
        lemma_key_pos(e.drop_last(), k);
        assert(forall|j: int| 0 <= j < e.len() - 1 ==> e.drop_last()[j] == e[j]);
    }
}

/// Position of the first entry of `e` whose key is `k`.
pub fn find_key(e: &Vec<(String, Value)>, k: &String) -> (r: Option<usize>)
    ensures
        r == (if key_pos(entries_of(e@), k@) >= 0 {
            Some(key_pos(entries_of(e@), k@) as usize)
        } else {
            None::<usize>
        }),
        r matches Some(i) ==> i < e.len(),
{
    let ghost ev = entries_of(e@);
    proof {
        lemma_key_pos(ev, k@);
    }
    assert(ev.len() == e@.len());
    let mut i: usize = 0;
    while i < e.len()
        invariant
            i <= e.len(),
            ev == entries_of(e@),
            forall|j: int| 0 <= j < i ==> ev[j].0 != k@,
        decreases e.len() - i,
    {
        proof {
            lemma_key_pos(ev, k@);
        }
        if e[i].0 == *k {
            assert(ev[i as int].0 == k@);
            let ghost q = key_pos(ev, k@);
            assert(q == i) by {
                if q < 0 {
                    assert(ev[i as int].0 != k@);
                } else if q < i {
                    assert(ev[q].0 == k@);
                } else if q > i {
                    assert(ev[i as int].0 != k@);
                }
            }
            return Some(i);
        }
        i = i + 1;
    }
    let ghost q = key_pos(ev, k@);
    assert(q < 0) by {
        if q >= 0 {
            assert(ev[q].0 == k@);
        }
    }
    None
}

/// Binds `k` to `v` in `e` (see `put`).
pub fn put_entry(e: &mut Vec<(String, Value)>, k: String, v: Value)
    ensures
        entries_of(final(e)@) == put(entries_of(old(e)@), k@, v@),
{
    let ghost ev = entries_of(e@);
    proof {
        lemma_key_pos(ev, k@);
    }
    match find_key(e, &k) {
        Some(p) => {
            e.remove(p);
            e.insert(p, (k, v));
            assert(entries_of(e@) =~= ev.update(p as int, (k@, v@)));
        },
        None => {
            e.push((k, v));
            assert(entries_of(e@) =~= ev.push((k@, v@)));
        },
    }
}

/// Stores `value` at the path `parts[i..]` inside the entries `map`,
/// creating objects on the way and replacing non-objects met on the way.
pub fn insert_nested(map: &mut Vec<(String, Value)>, parts: &Vec<String>, i: usize, value: Value)
    requires
        i <= parts.len(),
    ensures
        entries_of(final(map)@) == entries_set(
            entries_of(old(map)@),
            keys_of(parts@).subrange(i as int, parts.len() as int),
            value@,
        ),
    decreases parts.len() - i,
{
    let ghost path = keys_of(parts@).subrange(i as int, parts.len() as int);
    let ghost ev = entries_of(map@);
    if i >= parts.len() {
        return;
    }
    assert(path[0] == parts[i as int]@);
    if i + 1 == parts.len() {
        put_entry(map, parts[i].clone(), value);
        return;
    }
    assert(path.drop_first() =~= keys_of(parts@).subrange(i + 1, parts.len() as int));
    let key = parts[i].clone();
    proof {
        lemma_key_pos(ev, path[0]);
    }
    match find_key(map, &key) {
        Some(p) => {
            let (k0, old) = map.remove(p);
            let mut inner: Vec<(String, Value)> = match old {
                Value::Object(e) => e,
                _ => Vec::new(),
            };
            proof {
                if ev[p as int].1 is Object {
                    lemma_object_view(inner);
                }
                assert(entries_of(inner@) =~= child_entries(ev, path[0]));
            }
            insert_nested(&mut inner, parts, i + 1, value);
            let ghost nv = Value::Object(inner)@;
            proof {
                lemma_object_view(inner);
            }
            map.insert(p, (k0, Value::Object(inner)));
            assert(entries_of(map@) =~= ev.update(p as int, (path[0], nv)));
        },
        None => {
            let mut inner: Vec<(String, Value)> = Vec::new();
            assert(entries_of(inner@) =~= child_entries(ev, path[0]));
            insert_nested(&mut inner, parts, i + 1, value);
            proof {
                lemma_object_view(inner);
            }
            let ghost nv = Value::Object(inner)@;
            map.push((key, Value::Object(inner)));
            assert(entries_of(map@) =~= ev.push((path[0], nv)));
        },
    }
}

impl Value {
    /// An object without entries.
    pub fn empty_object() -> (r: Value)
        ensures
            r@ == Tree::Object(Seq::empty()),
    {
        let e: Vec<(String, Value)> = Vec::new();
        proof {
            lemma_object_view(e);
        }
        assert(entries_of(e@) =~= Seq::empty());
        Value::Object(e)
    }

    /// The value at `path`, if there is one.
    pub fn get(&self, path: &Vec<String>) -> (r: Option<&Value>)
        ensures
            match r {
                Some(v) => tree_get(self@, keys_of(path@)) == Some(v@),
                None => tree_get(self@, keys_of(path@)) is None,
            },
    {
        let ghost full = keys_of(path@);
        let mut cur: &Value = self;
        let mut i: usize = 0;
        assert(full.subrange(0, path.len() as int) =~= full);
        while i < path.len()
            invariant
                i <= path.len(),
                full == keys_of(path@),
                tree_get(self@, full) == tree_get(cur@, full.subrange(i as int, path.len() as int)),
            decreases path.len() - i,
        {
            let ghost rest = full.subrange(i as int, path.len() as int);
            assert(rest.drop_first() =~= full.subrange(i + 1, path.len() as int));
            assert(rest[0] == path[i as int]@);
            match cur {
                Value::Object(e) => {
                    proof {
                        lemma_object_view(*e);
                        lemma_key_pos(entries_of(e@), path[i as int]@);
                    }
                    match find_key(e, &path[i]) {
                        Some(p) => {
                            cur = &e[p].1;
                        },
                        None => {
                            return None;
                        },
                    }
                },
                _ => {
                    return None;
                },
            }
            i = i + 1;
        }
        Some(cur)
    }

    /// Stores `value` at `path` (see `tree_set`).
    pub fn set(&mut self, path: &Vec<String>, value: Value)
        ensures
            final(self)@ == tree_set(old(self)@, keys_of(path@), value@),
    {
        if path.len() == 0 {
            return;
        }
        let mut cur = Value::Null;
        std::mem::swap(self, &mut cur);
        let mut e: Vec<(String, Value)> = match cur {
            Value::Object(e) => e,
            _ => Vec::new(),
        };
        proof {
            if old(self)@ is Object {
                lemma_object_view(e);
            }
            assert(entries_of(e@) =~= (if old(self)@ is Object {
                old(self)@->Object_0
            } else {
                Seq::empty()
            }));
            assert(keys_of(path@).subrange(0, path.len() as int) =~= keys_of(path@));
        }
        insert_nested(&mut e, path, 0, value);
        proof {
            lemma_object_view(e);
        }
        *self = Value::Object(e);
    }
}

/// A measure of the nesting of objects in a tree.
pub open spec fn tree_size(t: Tree) -> nat
    decreases t,
{
    match t {
        Tree::Object(e) => 2 + entries_size(e),
        _ => 1,
    }
}

pub open spec fn entries_size(e: Seq<(Seq<char>, Tree)>) -> nat
    decreases e,
{
    if e.len() == 0 {
        0
    } else {
        entries_size(e.drop_last()) + tree_size(e.last().1)
    }
}

pub proof fn lemma_entry_size(e: Seq<(Seq<char>, Tree)>, k: int)
    requires
        0 <= k < e.len(),
    ensures
        tree_size(e[k].1) <= entries_size(e),
    decreases e.len(),
{
    if k < e.len() - 1 {
        lemma_entry_size(e.drop_last(), k);
    }
}

/// Lays `top` over `base` under `strategy` (see `merge_trees`).
pub fn merge(base: Value, top: Value, strategy: MergeStrategy) -> (r: Value)
    ensures
        r@ == merge_trees(base@, top@, strategy),
    decreases tree_size(top@),
{
    match top {
        Value::Object(eb) => {
            proof {
                lemma_object_view(eb);
            }
            match base {
                Value::Object(ea) => {
                    proof {
                        lemma_object_view(ea);
                    }
                    let mut acc = ea;
                    merge_into(&mut acc, eb, strategy);
                    proof {
                        lemma_object_view(acc);
                    }
                    Value::Object(acc)
                },
                _ => Value::Object(eb),
            }
        },
        other => other,
    }
}

/// Lays the entries `eb`, one after another, over the entries `acc`.
fn merge_into(acc: &mut Vec<(String, Value)>, eb: Vec<(String, Value)>, strategy: MergeStrategy)
    ensures
        entries_of(final(acc)@) == merge_entries(entries_of(old(acc)@), entries_of(eb@), strategy),
    decreases entries_size(entries_of(eb@)) + 1,
{
    let ghost ea = entries_of(acc@);
    let ghost all = entries_of(eb@);
    let n = eb.len();
    let mut rest = eb;
    let mut k: usize = 0;
    assert(all.subrange(0, 0) =~= Seq::<(Seq<char>, Tree)>::empty());
    assert(entries_of(rest@) =~= all.subrange(0, n as int));
    while rest.len() > 0
        invariant
            k <= n,
            n == all.len(),
            all == entries_of(eb@),
            rest@.len() == n - k,
            entries_of(rest@) == all.subrange(k as int, n as int),
            entries_of(acc@) == merge_entries(ea, all.subrange(0, k as int), strategy),
        decreases n - k,
    {
        let ghost before = entries_of(acc@);
        let ghost rv = rest@;
        let (key, v) = rest.remove(0);
        proof {
            assert(entries_of(rv)[0] == all[k as int]);
            assert(entries_of(rest@) =~= all.subrange(k + 1, n as int)) by {
                assert(rest@ =~= rv.subrange(1, rv.len() as int));
                assert forall|j: int| 0 <= j < rest@.len() implies entries_of(rest@)[j] == all[k + 1 + j] by {
                    assert(rest@[j] == rv[j + 1]);
                    assert(entries_of(rv)[j + 1] == all.subrange(k as int, n as int)[j + 1]);
                }
            }
            lemma_key_pos(before, key@);
            assert(all.subrange(0, k + 1).drop_last() =~= all.subrange(0, k as int));
            assert(all.subrange(0, k + 1).last() == all[k as int]);
            assert(v@ == all[k as int].1);
            lemma_entry_size(all, k as int);
        }
        match find_key(acc, &key) {
            Some(p) => {
                if strategy == MergeStrategy::Deep {
                    let (k0, old) = acc.remove(p);
                    let nv = merge(old, v, strategy);
                    acc.insert(p, (k0, nv));
                    assert(entries_of(acc@) =~= before.update(p as int, (key@, nv@)));
                } else {
                    acc.remove(p);
                    acc.insert(p, (key, v));
                    assert(entries_of(acc@) =~= before.update(p as int, (key@, v@)));
                }
            },
            None => {
                acc.push((key, v));
                assert(entries_of(acc@) =~= before.push((key@, v@)));
            },
        }
        k = k + 1;
    }
    assert(all.subrange(0, n as int) =~= all);
}

/// Lays the trees, first to last, over an empty object (see `merge_all_trees`).
pub fn merge_all(trees: Vec<Value>, strategy: MergeStrategy) -> (r: Value)
    ensures
        r@ == merge_all_trees(trees_of(trees@), strategy),
{
    let ghost all = trees_of(trees@);
    let n = trees.len();
    let mut rest = trees;
    let mut acc = Value::empty_object();
    let mut k: usize = 0;
    assert(trees_of(rest@) =~= all.subrange(0, n as int));
    assert(all.subrange(0, 0).len() == 0);
    while rest.len() > 0
        invariant
            k <= n,
            n == all.len(),
            rest@.len() == n - k,
            trees_of(rest@) == all.subrange(k as int, n as int),
            acc@ == merge_all_trees(all.subrange(0, k as int), strategy),
        decreases n - k,
    {
        let ghost rv = rest@;
        let t = rest.remove(0);
        proof {
            assert(trees_of(rv)[0] == all[k as int]);
            assert(trees_of(rest@) =~= all.subrange(k + 1, n as int)) by {
                assert(rest@ =~= rv.subrange(1, rv.len() as int));
                assert forall|j: int| 0 <= j < rest@.len() implies trees_of(rest@)[j] == all[k + 1 + j] by {
                    assert(rest@[j] == rv[j + 1]);
                    assert(trees_of(rv)[j + 1] == all.subrange(k as int, n as int)[j + 1]);
                }
            }
            assert(all.subrange(0, k + 1).drop_last() =~= all.subrange(0, k as int));
        }
        acc = merge(acc, t, strategy);
        k = k + 1;
    }
    assert(all.subrange(0, n as int) =~= all);
    acc
}

/// A measure of a whole tree: every node counts.
pub open spec fn full_size(t: Tree) -> nat
    decreases t,
{
    match t {
        Tree::Array(a) => 1 + trees_size(a),
        Tree::Object(e) => 1 + entries_full_size(e),
        _ => 1,
    }
}

pub open spec fn trees_size(a: Seq<Tree>) -> nat
    decreases a,
{
    if a.len() == 0 {
        0
    } else {
        trees_size(a.drop_last()) + full_size(a.last())
    }
}

pub open spec fn entries_full_size(e: Seq<(Seq<char>, Tree)>) -> nat
    decreases e,
{
    if e.len() == 0 {
        0
    } else {
        entries_full_size(e.drop_last()) + full_size(e.last().1)
    }
}

pub proof fn lemma_trees_size(a: Seq<Tree>, k: int)
    requires
        0 <= k < a.len(),
    ensures
        full_size(a[k]) <= trees_size(a),
    decreases a.len(),
{
    if k < a.len() - 1 {
        lemma_trees_size(a.drop_last(), k);
    }
}

pub proof fn lemma_entries_full_size(e: Seq<(Seq<char>, Tree)>, k: int)
    requires
        0 <= k < e.len(),
    ensures
        full_size(e[k].1) <= entries_full_size(e),
    decreases e.len(),
{
    if k < e.len() - 1 {
        lemma_entries_full_size(e.drop_last(), k);
    }
}

impl Value {
    /// A copy of this value, with the same content.
    pub fn duplicate(&self) -> (r: Value)
        ensures
            r@ == self@,
        decreases full_size(self@),
    {
        match self {
            Value::Null => Value::Null,
            Value::Bool(b) => Value::Bool(*b),
            Value::Int(i) => Value::Int(*i),
            Value::Float(t) => Value::Float(t.clone()),
            Value::Str(t) => Value::Str(t.clone()),
            Value::Array(a) => {
                let ghost all = trees_of(a@);
                assert(self@ == Tree::Array(all)) by {
                    assert(self@->Array_0 =~= all);
                }
                let mut out: Vec<Value> = Vec::new();
                let mut i: usize = 0;
                while i < a.len()
                    invariant
                        i <= a.len(),
                        all == trees_of(a@),
                        self@ == Tree::Array(all),
                        trees_of(out@) == all.subrange(0, i as int),
                    decreases a.len() - i,
                {
                    proof {
                        lemma_trees_size(all, i as int);
                    }
                    let ghost before = trees_of(out@);
                    let c = a[i].duplicate();
                    out.push(c);
                    assert(trees_of(out@) =~= before.push(all[i as int]));
                    assert(all.subrange(0, i + 1) =~= all.subrange(0, i as int).push(all[i as int]));
                    i = i + 1;
                }
                assert(all.subrange(0, a.len() as int) =~= all);
                let r = Value::Array(out);
                assert(r@->Array_0 =~= trees_of(out@));
                r
            },
            Value::Object(o) => {
                let ghost all = entries_of(o@);
                proof {
                    lemma_object_view(*o);
                }
                let mut out: Vec<(String, Value)> = Vec::new();
                let mut i: usize = 0;
                while i < o.len()
                    invariant
                        i <= o.len(),
                        all == entries_of(o@),
                        self@ == Tree::Object(all),
                        entries_of(out@) == all.subrange(0, i as int),
                    decreases o.len() - i,
                {
                    proof {
                        lemma_entries_full_size(all, i as int);
                    }
                    let ghost before = entries_of(out@);
                    let c = o[i].1.duplicate();
                    out.push((o[i].0.clone(), c));
                    assert(entries_of(out@) =~= before.push(all[i as int]));
                    assert(all.subrange(0, i + 1) =~= all.subrange(0, i as int).push(all[i as int]));
                    i = i + 1;
                }
                assert(all.subrange(0, o.len() as int) =~= all);
                proof {
                    lemma_object_view(out);
                }
                Value::Object(out)
            },
        }
    }
}

/// Structural equality of trees; objects compare as maps: each entry of
/// one finds an entry with the same key and an equal value in the other,
/// and each key of the other occurs in the one.
pub open spec fn same_tree(a: Tree, b: Tree) -> bool
    decreases a,
{
    match a {
        Tree::Array(xs) => match b {
            Tree::Array(ys) => xs.len() == ys.len() && forall|i: int|
                0 <= i < xs.len() ==> same_tree(#[trigger] xs[i], ys[i]),
            _ => false,
        },
        Tree::Object(ea) => match b {
            Tree::Object(eb) => (forall|i: int|
                0 <= i < ea.len() ==> 0 <= key_pos(eb, (#[trigger] ea[i]).0) < eb.len() && same_tree(
                    ea[i].1,
                    eb[key_pos(eb, ea[i].0)].1,
                )) && (forall|j: int| 0 <= j < eb.len() ==> key_pos(ea, (#[trigger] eb[j]).0) >= 0),
            _ => false,
        },
        _ => a == b,
    }
}

/// Whether two values are equal (see `same_tree`).
pub fn values_equal(a: &Value, b: &Value) -> (r: bool)
    ensures
        r == same_tree(a@, b@),
    decreases full_size(a@),
{
    match (a, b) {
        (Value::Null, Value::Null) => true,
        (Value::Bool(x), Value::Bool(y)) => *x == *y,
        (Value::Int(x), Value::Int(y)) => *x == *y,
        (Value::Float(x), Value::Float(y)) => *x == *y,
        (Value::Str(x), Value::Str(y)) => *x == *y,
        (Value::Array(xs), Value::Array(ys)) => {
            let ghost ta = trees_of(xs@);
            let ghost tb = trees_of(ys@);
            assert(a@ == Tree::Array(ta)) by {
                assert(a@->Array_0 =~= ta);
            }
            assert(b@ == Tree::Array(tb)) by {
                assert(b@->Array_0 =~= tb);
            }
            if xs.len() != ys.len() {
                return false;
            }
            let mut i: usize = 0;
            while i < xs.len()
                invariant
                    i <= xs.len() == ys.len(),
                    ta == trees_of(xs@),
                    tb == trees_of(ys@),
                    a@ == Tree::Array(ta),
                    b@ == Tree::Array(tb),
                    forall|j: int| 0 <= j < i ==> same_tree(#[trigger] ta[j], tb[j]),
                decreases xs.len() - i,
            {
                proof {
                    lemma_trees_size(ta, i as int);
                }
                assert(ta[i as int] == xs@[i as int]@ && tb[i as int] == ys@[i as int]@);
                if !values_equal(&xs[i], &ys[i]) {
                    assert(!same_tree(ta[i as int], tb[i as int]));
                    return false;
                }
                i = i + 1;
            }
            true
        },
        (Value::Object(ea), Value::Object(eb)) => {
            let ghost va = entries_of(ea@);
            let ghost vb = entries_of(eb@);
            proof {
                lemma_object_view(*ea);
                lemma_object_view(*eb);
            }
            let mut i: usize = 0;
            while i < ea.len()
                invariant
                    i <= ea.len(),
                    va == entries_of(ea@),
                    vb == entries_of(eb@),
                    a@ == Tree::Object(va),
                    b@ == Tree::Object(vb),
                    forall|j: int|
                        0 <= j < i ==> 0 <= key_pos(vb, (#[trigger] va[j]).0) < vb.len() && same_tree(
                            va[j].1,
                            vb[key_pos(vb, va[j].0)].1,
                        ),
                decreases ea.len() - i,
            {
                proof {
                    lemma_entries_full_size(va, i as int);
                    lemma_key_pos(vb, va[i as int].0);
                }
                assert(va[i as int] == (ea@[i as int].0@, ea@[i as int].1@));
                match find_key(eb, &ea[i].0) {
                    Some(p) => {
                        assert(vb[p as int] == (eb@[p as int].0@, eb@[p as int].1@));
                        if !values_equal(&ea[i].1, &eb[p].1) {
                            assert(!same_tree(va[i as int].1, vb[key_pos(vb, va[i as int].0)].1));
                            return false;
                        }
                    },
                    None => {
                        assert(!(0 <= key_pos(vb, va[i as int].0) < vb.len()));
                        return false;
                    },
                }
                i = i + 1;
            }
            let mut j: usize = 0;
            while j < eb.len()
                invariant
                    j <= eb.len(),
                    va == entries_of(ea@),
                    vb == entries_of(eb@),
                    a@ == Tree::Object(va),
                    b@ == Tree::Object(vb),
                    forall|i: int|
                        0 <= i < va.len() ==> 0 <= key_pos(vb, (#[trigger] va[i]).0) < vb.len() && same_tree(
                            va[i].1,
                            vb[key_pos(vb, va[i].0)].1,
                        ),
                    forall|k: int| 0 <= k < j ==> key_pos(va, (#[trigger] vb[k]).0) >= 0,
                decreases eb.len() - j,
            {
                assert(vb[j as int].0 == eb@[j as int].0@);
                if find_key(ea, &eb[j].0).is_none() {
                    assert(key_pos(va, vb[j as int].0) < 0);
                    return false;
                }
                j = j + 1;
            }
            true
        },
        _ => false,
    }
}

impl PartialEq for Value {
    fn eq(&self, o: &Value) -> (r: bool) {
        values_equal(self, o)
    }
}

impl vstd::std_specs::cmp::PartialEqSpecImpl for Value {
    open spec fn obeys_eq_spec() -> bool {
        true
    }

    open spec fn eq_spec(&self, o: &Value) -> bool {
        same_tree(self@, o@)
    }
}

}
