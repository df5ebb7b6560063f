use vstd::prelude::*;
use crate::coerce::coerce;
use crate::environment::{EnvModel, lookup, lower_each};
use crate::text::{lemma_split_nonempty, split_on};
use crate::tree::{
    MergeStrategy, Tree, entries_full_size, full_size, key_pos, keys_unique, lemma_entries_full_size,
    lemma_key_pos, merge_all_trees, merge_entries, merge_trees, put, top_unique, tree_get,
    well_formed, entries_set, child_entries, tree_set,
};

verus! {

/// The trees laid, first to last, over `acc`.
pub open spec fn merge_from(acc: Tree, ts: Seq<Tree>, s: MergeStrategy) -> Tree
    decreases ts.len(),
{
    if ts.len() == 0 {
        acc
    } else {
        merge_trees(merge_from(acc, ts.drop_last(), s), ts.last(), s)
    }
}

proof fn lemma_merge_all_from(ts: Seq<Tree>, s: MergeStrategy)
    ensures
        merge_all_trees(ts, s) == merge_from(Tree::Object(Seq::empty()), ts, s),
    decreases ts.len(),
{
    if ts.len() > 0 {
        lemma_merge_all_from(ts.drop_last(), s);
    }
}

proof fn lemma_merge_from_append(acc: Tree, xs: Seq<Tree>, ys: Seq<Tree>, s: MergeStrategy)
    ensures
        merge_from(acc, xs + ys, s) == merge_from(merge_from(acc, xs, s), ys, s),
    decreases ys.len(),
{
    if ys.len() == 0 {
        assert(xs + ys =~= xs);
    } else {
        assert((xs + ys).drop_last() =~= xs + ys.drop_last());
        lemma_merge_from_append(acc, xs, ys.drop_last(), s);
    }
}

proof fn lemma_put_unique<V>(e: Seq<(Seq<char>, V)>, k: Seq<char>, v: V)
    requires
        keys_unique(e),
    ensures
        keys_unique(put(e, k, v)),
{
    lemma_key_pos(e, k);
}

proof fn lemma_merge_entries_unique(ea: Seq<(Seq<char>, Tree)>, eb: Seq<(Seq<char>, Tree)>, s: MergeStrategy)
    requires
        keys_unique(ea),
    ensures
        keys_unique(merge_entries(ea, eb, s)),
    decreases eb.len(),
{
    if eb.len() > 0 {
        let acc = merge_entries(ea, eb.drop_last(), s);
        lemma_merge_entries_unique(ea, eb.drop_last(), s);
        lemma_key_pos(acc, eb.last().0);
        lemma_put_unique(acc, eb.last().0, eb.last().1);
    }
}

proof fn lemma_merge_from_top_unique(ts: Seq<Tree>, s: MergeStrategy)
    requires
        forall|i: int| 0 <= i < ts.len() ==> top_unique(#[trigger] ts[i]),
    ensures
        top_unique(merge_from(Tree::Object(Seq::empty()), ts, s)),
    decreases ts.len(),
{
    if ts.len() > 0 {
        let acc = merge_from(Tree::Object(Seq::empty()), ts.drop_last(), s);
        lemma_merge_from_top_unique(ts.drop_last(), s);
        assert(top_unique(ts[ts.len() - 1]));
        if acc is Object && ts.last() is Object {
            lemma_merge_entries_unique(acc->Object_0, ts.last()->Object_0, s);
        }
    }
}

proof fn lemma_merge_onto_empty(e: Seq<(Seq<char>, Tree)>, j: int, s: MergeStrategy)
    requires
        keys_unique(e),
        0 <= j <= e.len(),
    ensures
        merge_entries(Seq::empty(), e.subrange(0, j), s) == e.subrange(0, j),
    decreases j,
{
    if j > 0 {
        let pre = e.subrange(0, j - 1);
        assert(e.subrange(0, j).drop_last() =~= pre);
        lemma_merge_onto_empty(e, j - 1, s);
        lemma_key_pos(pre, e[j - 1].0);
        assert(key_pos(pre, e[j - 1].0) < 0) by {
            let q = key_pos(pre, e[j - 1].0);
            if q >= 0 {
                assert(pre[q].0 == e[q].0);
            }
        }
        assert(pre.push(e[j - 1]) =~= e.subrange(0, j));
    }
}

proof fn lemma_merge_empty_left(m: Tree, s: MergeStrategy)
    requires
        top_unique(m),
    ensures
        merge_trees(Tree::Object(Seq::empty()), m, s) == m,
{
    if m is Object {
        let e = m->Object_0;
        lemma_merge_onto_empty(e, e.len() as int, s);
        assert(e.subrange(0, e.len() as int) =~= e);
    }
}

/// Merging is a left fold: merging the first `k` trees, then merging that
/// result with the remaining trees, gives the same tree as merging all of
/// them at once, for trees whose objects hold each key once.
pub proof fn lemma_merge_prefix_then_rest(ts: Seq<Tree>, k: int, s: MergeStrategy)
    requires
        0 <= k <= ts.len(),
        forall|i: int| 0 <= i < ts.len() ==> well_formed(#[trigger] ts[i]),
    ensures
        merge_all_trees(ts, s) == merge_all_trees(
            seq![merge_all_trees(ts.subrange(0, k), s)] + ts.subrange(k, ts.len() as int),
            s,
        ),
{
    let empty = Tree::Object(Seq::empty());
    let pre = ts.subrange(0, k);
    let rest = ts.subrange(k, ts.len() as int);
    let m = merge_all_trees(pre, s);
    assert(ts =~= pre + rest);
    lemma_merge_all_from(ts, s);
    lemma_merge_all_from(pre, s);
    lemma_merge_from_append(empty, pre, rest, s);
    assert forall|i: int| 0 <= i < pre.len() implies top_unique(#[trigger] pre[i]) by {
        assert(well_formed(ts[i]));
    }
    lemma_merge_from_top_unique(pre, s);
    lemma_merge_all_from(seq![m] + rest, s);
    lemma_merge_from_append(empty, seq![m], rest, s);
    assert(seq![m].drop_last() =~= Seq::<Tree>::empty());
    assert(merge_from(empty, Seq::<Tree>::empty(), s) == empty);
    assert(merge_from(empty, seq![m], s) == merge_trees(empty, m, s));
    lemma_merge_empty_left(m, s);
}

proof fn lemma_merge_self_entries(e: Seq<(Seq<char>, Tree)>, j: int, s: MergeStrategy)
    requires
        keys_unique(e),
        forall|i: int| 0 <= i < e.len() ==> well_formed(#[trigger] e[i].1),
        0 <= j <= e.len(),
    ensures
        merge_entries(e, e.subrange(0, j), s) == e,
    decreases entries_full_size(e), j + 1,
{
    if j > 0 {
        assert(e.subrange(0, j).drop_last() =~= e.subrange(0, j - 1));
        lemma_merge_self_entries(e, j - 1, s);
        let k = e[j - 1].0;
        lemma_key_pos(e, k);
        assert(key_pos(e, k) == j - 1);
        if s == MergeStrategy::Deep {
            lemma_entries_full_size(e, j - 1);
            assert(well_formed(e[j - 1].1));
            lemma_merge_self(e[j - 1].1, s);
        }
        assert(e.update(j - 1, (k, e[j - 1].1)) =~= e);
    }
}

/// Merging a tree with itself gives that tree, under either strategy, for a
/// tree whose objects hold each key once.
pub proof fn lemma_merge_self(t: Tree, s: MergeStrategy)
    requires
        well_formed(t),
    ensures
        merge_trees(t, t, s) == t,
    decreases full_size(t), 0nat,
{
    if t is Object {
        let e = t->Object_0;
        lemma_merge_self_entries(e, e.len() as int, s);
        assert(e.subrange(0, e.len() as int) =~= e);
    }
}

proof fn lemma_key_pos_frame<V>(e: Seq<(Seq<char>, V)>, e2: Seq<(Seq<char>, V)>, k: Seq<char>)
    requires
        e.len() <= e2.len(),
        forall|i: int| 0 <= i < e.len() ==> #[trigger] e2[i].0 == e[i].0,
        forall|i: int| e.len() <= i < e2.len() ==> #[trigger] e2[i].0 != k,
    ensures
        key_pos(e2, k) == key_pos(e, k),
{
    lemma_key_pos(e, k);
    lemma_key_pos(e2, k);
    let p = key_pos(e, k);
    let q2 = key_pos(e2, k);
    if p >= 0 {
        assert(e2[p].0 == k);
        if q2 < p {
            assert(e2[q2].0 == e[q2].0);
        }
    } else if q2 >= 0 {
        if q2 < e.len() {
            assert(e2[q2].0 == e[q2].0);
        }
    }
}

/// One step of `merge_entries`: entry `(k2, v)` laid over `acc`.
spec fn merge_step(acc: Seq<(Seq<char>, Tree)>, k2: Seq<char>, v: Tree, s: MergeStrategy) -> Seq<(Seq<char>, Tree)> {
    let p = key_pos(acc, k2);
    if p >= 0 && s == MergeStrategy::Deep {
        acc.update(p, (k2, merge_trees(acc[p].1, v, s)))
    } else {
        put(acc, k2, v)
    }
}

proof fn lemma_step_keeps_other_key(acc: Seq<(Seq<char>, Tree)>, k2: Seq<char>, v: Tree, s: MergeStrategy, k: Seq<char>)
    requires
        k2 != k,
    ensures
        key_pos(merge_step(acc, k2, v, s), k) == key_pos(acc, k),
        key_pos(acc, k) >= 0 ==> merge_step(acc, k2, v, s)[key_pos(acc, k)] == acc[key_pos(acc, k)],
{
    lemma_key_pos(acc, k2);
    lemma_key_pos(acc, k);
    let r = merge_step(acc, k2, v, s);
    lemma_key_pos_frame(acc, r, k);
}

proof fn lemma_step_sets_key(acc: Seq<(Seq<char>, Tree)>, k: Seq<char>, v: Tree, s: MergeStrategy)
    requires
        s == MergeStrategy::Shallow || !(v is Object),
    ensures
        key_pos(merge_step(acc, k, v, s), k) >= 0,
        merge_step(acc, k, v, s)[key_pos(merge_step(acc, k, v, s), k)].1 == v,
{
    lemma_key_pos(acc, k);
    let r = merge_step(acc, k, v, s);
    let p = key_pos(acc, k);
    if p >= 0 {
        lemma_key_pos_frame(acc, r, k);
    } else {
        lemma_key_pos_frame(acc, acc, k);
        lemma_key_pos(r, k);
        assert(r[acc.len() as int].0 == k);
        let q = key_pos(r, k);
        if q < acc.len() {
            assert(r[q].0 == acc[q].0);
        }
    }
}

proof fn lemma_merge_entries_at(d: Seq<(Seq<char>, Tree)>, h: Seq<(Seq<char>, Tree)>, k: Seq<char>, s: MergeStrategy, j: int)
    requires
        keys_unique(h),
        0 <= j <= h.len(),
    ensures
        key_pos(h, k) < 0 ==> key_pos(merge_entries(d, h.subrange(0, j), s), k) == key_pos(d, k) && (key_pos(d, k) >= 0
            ==> merge_entries(d, h.subrange(0, j), s)[key_pos(d, k)] == d[key_pos(d, k)]),
        0 <= key_pos(h, k) < j && (s == MergeStrategy::Shallow || !(h[key_pos(h, k)].1 is Object)) ==> {
            let acc = merge_entries(d, h.subrange(0, j), s);
            key_pos(acc, k) >= 0 && acc[key_pos(acc, k)].1 == h[key_pos(h, k)].1
        },
    decreases j,
{
    lemma_key_pos(h, k);
    if j > 0 {
        let pre = h.subrange(0, j - 1);
        assert(h.subrange(0, j).drop_last() =~= pre);
        assert(h.subrange(0, j).last() == h[j - 1]);
        lemma_merge_entries_at(d, h, k, s, j - 1);
        let acc = merge_entries(d, pre, s);
        assert(merge_entries(d, h.subrange(0, j), s) == merge_step(acc, h[j - 1].0, h[j - 1].1, s));
        let q = key_pos(h, k);
        if h[j - 1].0 != k {
            lemma_step_keeps_other_key(acc, h[j - 1].0, h[j - 1].1, s, k);
        } else {
            assert(q == j - 1) by {
                if q < 0 || q > j - 1 {
                    assert(h[j - 1].0 != k);
                } else if q < j - 1 {
                    assert(h[q].0 == k);
                }
            }
            if s == MergeStrategy::Shallow || !(h[q].1 is Object) {
                lemma_step_sets_key(acc, k, h[j - 1].1, s);
            }
        }
    } else {
        assert(h.subrange(0, 0).len() == 0);
    }
}

/// A lower-precedence value (a default) stays at a key exactly where the
/// higher-precedence object lacks that key: without the key, the merged
/// object holds what the lower one held there; with it, under the shallow
/// strategy or when the higher value is not an object, the higher value.
pub proof fn lemma_default_precedence(
    low: Seq<(Seq<char>, Tree)>,
    high: Seq<(Seq<char>, Tree)>,
    k: Seq<char>,
    s: MergeStrategy,
)
    requires
        keys_unique(high),
    ensures
        key_pos(high, k) < 0 ==> tree_get(merge_trees(Tree::Object(low), Tree::Object(high), s), seq![k])
            == tree_get(Tree::Object(low), seq![k]),
        key_pos(high, k) >= 0 && (s == MergeStrategy::Shallow || !(high[key_pos(high, k)].1 is Object))
            ==> tree_get(merge_trees(Tree::Object(low), Tree::Object(high), s), seq![k]) == Some(
            high[key_pos(high, k)].1,
        ),
{
    lemma_key_pos(high, k);
    lemma_merge_entries_at(low, high, k, s, high.len() as int);
    assert(high.subrange(0, high.len() as int) =~= high);
    let m = merge_entries(low, high, s);
    assert(seq![k].drop_first() =~= Seq::<Seq<char>>::empty());
    lemma_key_pos(m, k);
    lemma_key_pos(low, k);
    if key_pos(m, k) >= 0 {
        assert(tree_get(m[key_pos(m, k)].1, Seq::<Seq<char>>::empty()) == Some(m[key_pos(m, k)].1));
    }
    if key_pos(low, k) >= 0 {
        assert(tree_get(low[key_pos(low, k)].1, Seq::<Seq<char>>::empty()) == Some(low[key_pos(low, k)].1));
    }
}

/// Two paths part somewhere: at some position both have a part, and the parts differ.
pub open spec fn paths_diverge(p: Seq<Seq<char>>, q: Seq<Seq<char>>) -> bool {
    exists|d: int| 0 <= d < p.len() && d < q.len() && p[d] != q[d]
}

/// The path that a flat key becomes in nested mode.
pub open spec fn nested_path(env: EnvModel, k: Seq<char>) -> Seq<Seq<char>> {
    lower_each(split_on(k, env.separator))
}

proof fn lemma_put_other<V>(e: Seq<(Seq<char>, V)>, k2: Seq<char>, v: V, k: Seq<char>)
    requires
        k2 != k,
    ensures
        key_pos(put(e, k2, v), k) == key_pos(e, k),
        key_pos(e, k) >= 0 ==> put(e, k2, v)[key_pos(e, k)] == e[key_pos(e, k)],
{
    lemma_key_pos(e, k2);
    lemma_key_pos(e, k);
    lemma_key_pos_frame(e, put(e, k2, v), k);
}

proof fn lemma_put_same<V>(e: Seq<(Seq<char>, V)>, k: Seq<char>, v: V)
    ensures
        key_pos(put(e, k, v), k) >= 0,
        put(e, k, v)[key_pos(put(e, k, v), k)].1 == v,
{
    lemma_key_pos(e, k);
    let r = put(e, k, v);
    if key_pos(e, k) >= 0 {
        lemma_key_pos_frame(e, r, k);
    } else {
        lemma_key_pos_frame(e, e, k);
        lemma_key_pos(r, k);
        let q = key_pos(r, k);
        assert(r[e.len() as int].0 == k);
        if q < e.len() {
            assert(r[q].0 == e[q].0);
        }
    }
}

proof fn lemma_get_after_set(e: Seq<(Seq<char>, Tree)>, path: Seq<Seq<char>>, v: Tree)
    requires
        path.len() >= 1,
    ensures
        tree_get(Tree::Object(entries_set(e, path, v)), path) == Some(v),
    decreases path.len(),
{
    if path.len() == 1 {
        lemma_put_same(e, path[0], v);
        let r = put(e, path[0], v);
        assert(tree_get(r[key_pos(r, path[0])].1, path.drop_first()) == Some(v));
    } else {
        let inner = entries_set(child_entries(e, path[0]), path.drop_first(), v);
        lemma_put_same(e, path[0], Tree::Object(inner));
        lemma_get_after_set(child_entries(e, path[0]), path.drop_first(), v);
    }
}

proof fn lemma_get_frame_set(e: Seq<(Seq<char>, Tree)>, q: Seq<Seq<char>>, w: Tree, p: Seq<Seq<char>>)
    requires
        q.len() >= 1,
        paths_diverge(p, q),
    ensures
        tree_get(Tree::Object(entries_set(e, q, w)), p) == tree_get(Tree::Object(e), p),
    decreases p.len(),
{
    let d = choose|d: int| 0 <= d < p.len() && d < q.len() && p[d] != q[d];
    let x = if q.len() == 1 {
        w
    } else {
        Tree::Object(entries_set(child_entries(e, q[0]), q.drop_first(), w))
    };
    assert(entries_set(e, q, w) == put(e, q[0], x));
    lemma_key_pos(e, p[0]);
    if p[0] != q[0] {
        lemma_put_other(e, q[0], x, p[0]);
    } else {
        assert(d > 0);
        assert(q.len() >= 2);
        lemma_put_same(e, q[0], x);
        let r = put(e, q[0], x);
        assert(r[key_pos(r, p[0])].1 == x);
        assert(paths_diverge(p.drop_first(), q.drop_first())) by {
            assert(p.drop_first()[d - 1] != q.drop_first()[d - 1]);
        }
        let c = child_entries(e, q[0]);
        let pd = p.drop_first();
        assert(pd.len() >= 1);
        lemma_get_frame_set(c, q.drop_first(), w, pd);
        assert(tree_get(Tree::Object(r), p) == tree_get(x, pd));
        assert(x == Tree::Object(entries_set(c, q.drop_first(), w)));
        let none = Seq::<(Seq<char>, Tree)>::empty();
        lemma_key_pos(none, pd[0]);
        assert(tree_get(Tree::Object(none), pd) is None);
        let pos = key_pos(e, p[0]);
        if pos >= 0 {
            assert(tree_get(Tree::Object(e), p) == tree_get(e[pos].1, pd));
            if e[pos].1 is Object {
                assert(Tree::Object(c) == e[pos].1);
            } else {
                assert(c == none);
                assert(tree_get(e[pos].1, pd) is None);
            }
        } else {
            assert(c == none);
            assert(tree_get(Tree::Object(e), p) is None);
        }
    }
}

proof fn lemma_scan_unique(env: EnvModel, acc: Seq<(Seq<char>, Seq<char>)>, vars: Seq<(Seq<char>, Seq<char>)>)
    requires
        keys_unique(acc),
    ensures
        keys_unique(env.scan_into(acc, vars)),
    decreases vars.len(),
{
    if vars.len() > 0 {
        lemma_scan_unique(env, acc, vars.drop_last());
        let a = env.scan_into(acc, vars.drop_last());
        if env.scan_key(vars.last().0) is Some {
            lemma_put_unique(a, env.scan_key(vars.last().0)->Some_0, vars.last().1);
        }
    }
}

/// Some variable of `vars` enters the flat map as the pair `kv`.
spec fn scanned_from(env: EnvModel, vars: Seq<(Seq<char>, Seq<char>)>, kv: (Seq<char>, Seq<char>)) -> bool {
    exists|j: int| 0 <= j < vars.len() && env.scan_key(#[trigger] vars[j].0) == Some(kv.0) && vars[j].1 == kv.1
}

proof fn lemma_scan_keys(env: EnvModel, vars: Seq<(Seq<char>, Seq<char>)>, flat: Seq<(Seq<char>, Seq<char>)>)
    requires
        flat == env.scan_into(Seq::empty(), vars),
    ensures
        forall|m: int| 0 <= m < flat.len() ==> scanned_from(env, vars, #[trigger] flat[m]),
    decreases vars.len(),
{
    if vars.len() > 0 {
        let pre = vars.drop_last();
        let a = env.scan_into(Seq::empty(), pre);
        lemma_scan_keys(env, pre, a);
        assert forall|m: int| 0 <= m < flat.len() implies scanned_from(env, vars, #[trigger] flat[m]) by {
            let k = env.scan_key(vars.last().0);
            let last = vars.len() - 1;
            if k is Some {
                lemma_key_pos(a, k->Some_0);
            }
            if k is Some && ((key_pos(a, k->Some_0) >= 0 && m == key_pos(a, k->Some_0)) || (key_pos(
                a,
                k->Some_0,
            ) < 0 && m == a.len())) {
                assert(flat[m] == (k->Some_0, vars[last].1));
                assert(env.scan_key(vars[last].0) == Some(flat[m].0) && vars[last].1 == flat[m].1);
            } else {
                assert(m < a.len() && flat[m] == a[m]);
                assert(scanned_from(env, pre, a[m]));
                let j = choose|j: int|
                    0 <= j < pre.len() && env.scan_key(#[trigger] pre[j].0) == Some(a[m].0) && pre[j].1 == a[m].1;
                assert(pre[j] == vars[j]);
            }
        }
    }
}

proof fn lemma_scan_last(env: EnvModel, acc: Seq<(Seq<char>, Seq<char>)>, vars: Seq<(Seq<char>, Seq<char>)>, i: int)
    requires
        0 <= i < vars.len(),
        env.scan_key(vars[i].0) is Some,
        forall|j: int| i < j < vars.len() ==> env.scan_key(#[trigger] vars[j].0) != env.scan_key(vars[i].0),
    ensures
        lookup(env.scan_into(acc, vars), env.scan_key(vars[i].0)->Some_0) == Some(vars[i].1),
    decreases vars.len(),
{
    let k = env.scan_key(vars[i].0)->Some_0;
    let a = env.scan_into(acc, vars.drop_last());
    if i == vars.len() - 1 {
        lemma_put_same(a, k, vars[i].1);
    } else {
        assert forall|j: int| i < j < vars.drop_last().len() implies env.scan_key(
            #[trigger] vars.drop_last()[j].0,
        ) != env.scan_key(vars.drop_last()[i].0) by {
            assert(vars.drop_last()[j] == vars[j]);
        }
        lemma_scan_last(env, acc, vars.drop_last(), i);
        lemma_key_pos(a, k);
        let last = vars[vars.len() - 1];
        if env.scan_key(last.0) is Some {
            lemma_put_other(a, env.scan_key(last.0)->Some_0, last.1, k);
        }
    }
}

proof fn lemma_place_keeps(env: EnvModel, flat: Seq<(Seq<char>, Seq<char>)>, p: int, m: int)
    requires
        env.nested,
        0 <= p < m <= flat.len(),
        forall|q: int|
            p < q < flat.len() ==> paths_diverge(
                #[trigger] nested_path(env, flat[q].0),
                nested_path(env, flat[p].0),
            ),
    ensures
        tree_get(Tree::Object(env.place_all(flat.subrange(0, m))), nested_path(env, flat[p].0)) == Some(
            coerce(flat[p].1),
        ),
    decreases m,
{
    let path = nested_path(env, flat[p].0);
    lemma_split_nonempty(flat[p].0, env.separator);
    assert(flat.subrange(0, m).drop_last() =~= flat.subrange(0, m - 1));
    assert(flat.subrange(0, m).last() == flat[m - 1]);
    if m == p + 1 {
        lemma_get_after_set(env.place_all(flat.subrange(0, p)), path, coerce(flat[p].1));
    } else {
        lemma_place_keeps(env, flat, p, m - 1);
        let q = nested_path(env, flat[m - 1].0);
        lemma_split_nonempty(flat[m - 1].0, env.separator);
        assert(paths_diverge(q, path));
        assert(paths_diverge(path, q)) by {
            let d = choose|d: int| 0 <= d < q.len() && d < path.len() && q[d] != path[d];
            assert(path[d] != q[d]);
        }
        lemma_get_frame_set(env.place_all(flat.subrange(0, m - 1)), q, coerce(flat[m - 1].1), path);
    }
}

/// In nested mode (no overrides, no field mappings), each qualifying variable
/// can be read back from the tree: its path, its flat key (the name after the
/// prefix) split at the separator and lower-cased, leads to its value, provided no later
/// variable has the same flat key and every variable with another flat key
/// has a path that parts from it (so that neither path runs through the
/// other).
pub proof fn lemma_nested_names_read_back(env: EnvModel, vars: Seq<(Seq<char>, Seq<char>)>, i: int)
    requires
        env.nested,
        env.overrides.len() == 0,
        env.field_mappings.len() == 0,
        0 <= i < vars.len(),
        env.scan_key(vars[i].0) is Some,
        forall|j: int| i < j < vars.len() ==> env.scan_key(#[trigger] vars[j].0) != env.scan_key(vars[i].0),
        forall|j: int|
            0 <= j < vars.len() && env.scan_key(#[trigger] vars[j].0) is Some && env.scan_key(vars[j].0)
                != env.scan_key(vars[i].0) ==> paths_diverge(
                nested_path(env, env.scan_key(vars[j].0)->Some_0),
                nested_path(env, env.scan_key(vars[i].0)->Some_0),
            ),
    ensures
        tree_get(env.collect_tree(vars), nested_path(env, env.scan_key(vars[i].0)->Some_0)) == Some(
            coerce(vars[i].1),
        ),
{
    let e = Seq::<(Seq<char>, Seq<char>)>::empty();
    let r = env.scan_key(vars[i].0)->Some_0;
    let flat = env.scan_into(e, vars);
    assert(env.scan_into(flat, e) == flat);
    assert(env.flat_pairs(vars) == flat);
    lemma_scan_last(env, e, vars, i);
    lemma_scan_unique(env, e, vars);
    lemma_scan_keys(env, vars, flat);
    lemma_key_pos(flat, r);
    let p = key_pos(flat, r);
    assert forall|q: int| p < q < flat.len() implies paths_diverge(
        #[trigger] nested_path(env, flat[q].0),
        nested_path(env, flat[p].0),
    ) by {
        assert(scanned_from(env, vars, flat[q]));
        let j = choose|j: int|
            0 <= j < vars.len() && env.scan_key(#[trigger] vars[j].0) == Some(flat[q].0) && vars[j].1 == flat[q].1;
        assert(flat[q].0 != flat[p].0);
    }
    lemma_place_keeps(env, flat, p, flat.len() as int);
    assert(flat.subrange(0, flat.len() as int) =~= flat);
}

proof fn lemma_leaf_after_set(e: Seq<(Seq<char>, Tree)>, path: Seq<Seq<char>>, v: Tree, p: Seq<Seq<char>>, x: Tree)
    requires
        path.len() >= 1,
        !(v is Object),
        !(x is Object),
        tree_get(Tree::Object(entries_set(e, path, v)), p) == Some(x),
    ensures
        p == path || tree_get(Tree::Object(e), p) == Some(x),
    decreases path.len(),
{
    let n = entries_set(e, path, v);
    if p.len() > 0 {
        let pd = p.drop_first();
        let y = if path.len() == 1 {
            v
        } else {
            Tree::Object(entries_set(child_entries(e, path[0]), path.drop_first(), v))
        };
        assert(n == put(e, path[0], y));
        lemma_key_pos(e, p[0]);
        if p[0] != path[0] {
            lemma_put_other(e, path[0], y, p[0]);
        } else {
            lemma_put_same(e, path[0], y);
            assert(tree_get(Tree::Object(n), p) == tree_get(y, pd));
            if path.len() == 1 {
                if pd.len() == 0 {
                    assert(p =~= path);
                }
            } else {
                assert(pd.len() > 0);
                let c = child_entries(e, path[0]);
                lemma_leaf_after_set(c, path.drop_first(), v, pd, x);
                if pd == path.drop_first() {
                    assert(p.len() == path.len());
                    assert forall|i: int| 0 <= i < p.len() implies p[i] == path[i] by {
                        if i > 0 {
                            assert(p[i] == pd[i - 1]);
                            assert(path[i] == path.drop_first()[i - 1]);
                        }
                    }
                    assert(p =~= path);
                } else {
                    let none = Seq::<(Seq<char>, Tree)>::empty();
                    lemma_key_pos(none, pd[0]);
                    let pos = key_pos(e, p[0]);
                    if pos >= 0 && e[pos].1 is Object {
                        assert(Tree::Object(c) == e[pos].1);
                        assert(tree_get(Tree::Object(e), p) == tree_get(e[pos].1, pd));
                    } else {
                        assert(c == none);
                    }
                }
            }
        }
    }
}

proof fn lemma_leaves_of_place_all(env: EnvModel, flat: Seq<(Seq<char>, Seq<char>)>, p: Seq<Seq<char>>, x: Tree)
    requires
        env.nested,
        forall|q: int| 0 <= q < flat.len() ==> !(#[trigger] coerce(flat[q].1) is Object),
        !(x is Object),
        tree_get(Tree::Object(env.place_all(flat)), p) == Some(x),
    ensures
        exists|q: int| 0 <= q < flat.len() && p == #[trigger] nested_path(env, flat[q].0),
    decreases flat.len(),
{
    if flat.len() == 0 {
        let none = Seq::<(Seq<char>, Tree)>::empty();
        if p.len() > 0 {
            lemma_key_pos(none, p[0]);
        }
    } else {
        let pre = flat.drop_last();
        let k = flat.last().0;
        lemma_split_nonempty(k, env.separator);
        assert(!(coerce(flat[flat.len() - 1].1) is Object));
        lemma_leaf_after_set(env.place_all(pre), nested_path(env, k), coerce(flat.last().1), p, x);
        if p == nested_path(env, k) {
            assert(p == nested_path(env, flat[flat.len() - 1].0));
        } else {
            assert forall|q: int| 0 <= q < pre.len() implies !(#[trigger] coerce(pre[q].1) is Object) by {
                assert(pre[q] == flat[q]);
                assert(!(coerce(flat[q].1) is Object));
            }
            lemma_leaves_of_place_all(env, pre, p, x);
            let q = choose|q: int| 0 <= q < pre.len() && p == #[trigger] nested_path(env, pre[q].0);
            assert(pre[q] == flat[q]);
            assert(p == nested_path(env, flat[q].0));
        }
    }
}

/// In nested mode (no overrides, no field mappings, and no value that reads
/// as a JSON object), every non-object value in the tree stands at the path
/// of some qualifying variable: its flat key (the name after the prefix),
/// split at the separator and lower-cased.
pub proof fn lemma_nested_leaves_come_from_names(
    env: EnvModel,
    vars: Seq<(Seq<char>, Seq<char>)>,
    p: Seq<Seq<char>>,
    x: Tree,
)
    requires
        env.nested,
        env.overrides.len() == 0,
        env.field_mappings.len() == 0,
        forall|j: int| 0 <= j < vars.len() ==> !(#[trigger] coerce(vars[j].1) is Object),
        !(x is Object),
        tree_get(env.collect_tree(vars), p) == Some(x),
    ensures
        exists|j: int|
            0 <= j < vars.len() && env.scan_key(#[trigger] vars[j].0) is Some && p == nested_path(
                env,
                env.scan_key(vars[j].0)->Some_0,
            ),
{
    let e = Seq::<(Seq<char>, Seq<char>)>::empty();
    let flat = env.scan_into(e, vars);
    assert(env.scan_into(flat, e) == flat);
    assert(env.flat_pairs(vars) == flat);
    lemma_scan_keys(env, vars, flat);
    assert forall|q: int| 0 <= q < flat.len() implies !(#[trigger] coerce(flat[q].1) is Object) by {
        assert(scanned_from(env, vars, flat[q]));
        let j = choose|j: int|
            0 <= j < vars.len() && env.scan_key(#[trigger] vars[j].0) == Some(flat[q].0) && vars[j].1 == flat[q].1;
        assert(!(coerce(vars[j].1) is Object));
    }
    lemma_leaves_of_place_all(env, flat, p, x);
    let q = choose|q: int| 0 <= q < flat.len() && p == #[trigger] nested_path(env, flat[q].0);
    assert(scanned_from(env, vars, flat[q]));
    let j = choose|j: int|
        0 <= j < vars.len() && env.scan_key(#[trigger] vars[j].0) == Some(flat[q].0) && vars[j].1 == flat[q].1;
    assert(env.scan_key(vars[j].0) == Some(flat[q].0));
}

/// The tree that holds `v` at `path` and nothing else.
pub open spec fn path_tree(path: Seq<Seq<char>>, v: Tree) -> Tree {
    Tree::Object(entries_set(Seq::empty(), path, v))
}

proof fn lemma_set_is_deep_merge_entries(e: Seq<(Seq<char>, Tree)>, path: Seq<Seq<char>>, v: Tree)
    requires
        path.len() >= 1,
        !(v is Object),
    ensures
        entries_set(e, path, v) == merge_entries(e, entries_set(Seq::empty(), path, v), MergeStrategy::Deep),
    decreases path.len(),
{
    let none = Seq::<(Seq<char>, Tree)>::empty();
    let k = path[0];
    lemma_key_pos(none, k);
    lemma_key_pos(e, k);
    let x = if path.len() == 1 {
        v
    } else {
        Tree::Object(entries_set(none, path.drop_first(), v))
    };
    assert(child_entries(none, k) == none);
    assert(entries_set(none, path, v) == put(none, k, x));
    assert(put(none, k, x) =~= seq![(k, x)]);
    let one = seq![(k, x)];
    assert(one.drop_last() =~= none);
    assert(merge_entries(e, none, MergeStrategy::Deep) == e);
    assert(one.last() == (k, x));
    let p = key_pos(e, k);
    let m = merge_entries(e, one, MergeStrategy::Deep);
    assert(m == (if p >= 0 {
        e.update(p, (k, merge_trees(e[p].1, x, MergeStrategy::Deep)))
    } else {
        put(e, k, x)
    }));
    let y = if path.len() == 1 {
        v
    } else {
        Tree::Object(entries_set(child_entries(e, k), path.drop_first(), v))
    };
    assert(entries_set(e, path, v) == put(e, k, y));
    if p >= 0 {
        if path.len() > 1 {
            if e[p].1 is Object {
                lemma_set_is_deep_merge_entries(e[p].1->Object_0, path.drop_first(), v);
                assert(merge_trees(e[p].1, x, MergeStrategy::Deep) == y);
            } else {
                assert(child_entries(e, k) == none);
                assert(merge_trees(e[p].1, x, MergeStrategy::Deep) == y);
            }
        }
    } else {
        assert(child_entries(e, k) == none);
        assert(x == y);
    }
}

/// Storing a value that is not an object at a path is a deep merge with the
/// tree that holds only that value at that path.
pub proof fn lemma_set_is_deep_merge(t: Tree, path: Seq<Seq<char>>, v: Tree)
    requires
        path.len() >= 1,
        !(v is Object),
    ensures
        tree_set(t, path, v) == merge_trees(t, path_tree(path, v), MergeStrategy::Deep),
{
    if t is Object {
        lemma_set_is_deep_merge_entries(t->Object_0, path, v);
    }
}

proof fn lemma_set_existing_entries(e: Seq<(Seq<char>, Tree)>, path: Seq<Seq<char>>, v: Tree)
    requires
        path.len() >= 1,
        tree_get(Tree::Object(e), path) == Some(v),
    ensures
        entries_set(e, path, v) == e,
    decreases path.len(),
{
    let k = path[0];
    lemma_key_pos(e, k);
    let p = key_pos(e, k);
    assert(p >= 0);
    if path.len() == 1 {
        assert(tree_get(e[p].1, path.drop_first()) == Some(e[p].1));
        assert(e.update(p, (k, v)) =~= e);
    } else {
        let rest = path.drop_first();
        assert(tree_get(e[p].1, rest) == Some(v));
        assert(e[p].1 is Object);
        lemma_set_existing_entries(e[p].1->Object_0, rest, v);
        assert(e.update(p, (k, e[p].1)) =~= e);
    }
}

/// Storing at a path the value already found there leaves the tree as it is.
pub proof fn lemma_set_existing_keeps(t: Tree, path: Seq<Seq<char>>, v: Tree)
    requires
        path.len() >= 1,
        tree_get(t, path) == Some(v),
    ensures
        tree_set(t, path, v) == t,
{
    assert(t is Object);
    lemma_set_existing_entries(t->Object_0, path, v);
}

/// `t` with each value of `ops` stored at its path, first to last.
pub open spec fn insert_all(t: Tree, ops: Seq<(Seq<Seq<char>>, Tree)>) -> Tree
    decreases ops.len(),
{
    if ops.len() == 0 {
        t
    } else {
        tree_set(insert_all(t, ops.drop_last()), ops.last().0, ops.last().1)
    }
}

/// The path trees of `ops`.
pub open spec fn path_trees(ops: Seq<(Seq<Seq<char>>, Tree)>) -> Seq<Tree> {
    ops.map_values(|op: (Seq<Seq<char>>, Tree)| path_tree(op.0, op.1))
}

proof fn lemma_insert_all_merge(t: Tree, ops: Seq<(Seq<Seq<char>>, Tree)>)
    requires
        forall|i: int| 0 <= i < ops.len() ==> (#[trigger] ops[i]).0.len() >= 1 && !(ops[i].1 is Object),
    ensures
        insert_all(t, ops) == merge_from(t, path_trees(ops), MergeStrategy::Deep),
    decreases ops.len(),
{
    if ops.len() > 0 {
        let pre = ops.drop_last();
        assert forall|i: int| 0 <= i < pre.len() implies (#[trigger] pre[i]).0.len() >= 1 && !(pre[i].1 is Object) by {
            assert(pre[i] == ops[i]);
        }
        lemma_insert_all_merge(t, pre);
        assert(path_trees(ops).drop_last() =~= path_trees(pre));
        let last = ops[ops.len() - 1];
        lemma_set_is_deep_merge(insert_all(t, pre), last.0, last.1);
    }
}

/// Inserting values one after another is a deep-merge fold of their path
/// trees over the starting tree, and so the inserts can be split anywhere:
/// doing the first `k`, then the rest, gives the same tree as doing all.
pub proof fn lemma_inserts_fold(t: Tree, ops: Seq<(Seq<Seq<char>>, Tree)>, k: int)
    requires
        0 <= k <= ops.len(),
        forall|i: int| 0 <= i < ops.len() ==> (#[trigger] ops[i]).0.len() >= 1 && !(ops[i].1 is Object),
    ensures
        insert_all(t, ops) == merge_from(t, path_trees(ops), MergeStrategy::Deep),
        insert_all(insert_all(t, ops.take(k)), ops.skip(k)) == insert_all(t, ops),
{
    let a = ops.take(k);
    let b = ops.skip(k);
    assert forall|i: int| 0 <= i < a.len() implies (#[trigger] a[i]).0.len() >= 1 && !(a[i].1 is Object) by {
        assert(a[i] == ops[i]);
    }
    assert forall|i: int| 0 <= i < b.len() implies (#[trigger] b[i]).0.len() >= 1 && !(b[i].1 is Object) by {
        assert(b[i] == ops[k + i]);
    }
    lemma_insert_all_merge(t, ops);
    lemma_insert_all_merge(t, a);
    lemma_insert_all_merge(insert_all(t, a), b);
    assert(path_trees(ops) =~= path_trees(a) + path_trees(b));
    lemma_merge_from_append(t, path_trees(a), path_trees(b), MergeStrategy::Deep);
}

}
