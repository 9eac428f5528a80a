use vstd::prelude::*;

use crate::text::{join_key, split_key, SEP};
use crate::tree::{build_members, build_tree, find_key, lemma_find_key, flat_members, flat_of, flat_tree, insert_at, Flat, Tree};

verus! {

/// Flat entries whose keys are sequences of segments.
pub type Paths = Seq<(Seq<Seq<char>>, Seq<char>)>;

/// The entries of `e`, each with `pre` put before its path.
pub open spec fn prepend(pre: Seq<Seq<char>>, e: Paths) -> Paths {
    Seq::new(e.len(), |i: int| (pre + e[i].0, e[i].1))
}

/// The entries of `f`, each key cut into its segments.
pub open spec fn split_all(f: Flat) -> Paths {
    Seq::new(f.len(), |i: int| (split_key(f[i].0), f[i].1))
}

/// Places the entries of `e` one after another below `acc`.
pub open spec fn fold_ins(acc: Seq<(Seq<char>, Tree)>, e: Paths) -> Option<Seq<(Seq<char>, Tree)>>
    decreases e.len(),
{
    if e.len() == 0 {
        Some(acc)
    } else {
        match fold_ins(acc, e.drop_last()) {
            Some(a) => insert_at(a, e.last().0, e.last().1),
            None => None,
        }
    }
}

/// The string leaves of `t`, each under its path of segments below `t`.
pub open spec fn seg_flat(t: Tree) -> Paths
    decreases t,
{
    match t {
        Tree::Object(ms) => seg_members(ms),
        Tree::Text(s) => seq![(Seq::<Seq<char>>::empty(), s)],
        Tree::Other => seq![],
    }
}

pub open spec fn seg_members(ms: Seq<(Seq<char>, Tree)>) -> Paths
    decreases ms,
{
    if ms.len() == 0 {
        seq![]
    } else {
        seg_members(ms.subrange(0, ms.len() - 1)) + prepend(
            seq![ms[ms.len() - 1].0],
            seg_flat(ms[ms.len() - 1].1),
        )
    }
}

/// A tree below the root that flattening describes completely: objects and
/// string leaves only, member keys free of the separator and distinct within
/// their object, and no empty object.
pub open spec fn valid_tree(t: Tree) -> bool
    decreases t,
{
    match t {
        Tree::Object(ms) => ms.len() > 0 && valid_members(ms, false),
        Tree::Text(_) => true,
        Tree::Other => false,
    }
}

/// Members that are each a valid tree under distinct keys free of the
/// separator. At the root (`root`), an empty key names a string leaf only.
pub open spec fn valid_members(ms: Seq<(Seq<char>, Tree)>, root: bool) -> bool
    decreases ms,
{
    if ms.len() == 0 {
        true
    } else {
        let k = ms[ms.len() - 1].0;
        &&& valid_members(ms.subrange(0, ms.len() - 1), root)
        &&& !k.contains(SEP)
        &&& find_key(ms.subrange(0, ms.len() - 1), k) < 0
        &&& valid_tree(ms[ms.len() - 1].1)
        &&& (root ==> k.len() > 0 || ms[ms.len() - 1].1 is Text)
    }
}

proof fn lemma_split_single(k: Seq<char>)
    requires
        !k.contains(SEP),
    ensures
        split_key(k) == seq![k],
    decreases k.len(),
{
    if k.len() > 0 {
        let p = k.drop_last();
        assert(!p.contains(SEP)) by {
            if p.contains(SEP) {
                let i = choose|i: int| 0 <= i < p.len() && p[i] == SEP;
                assert(k[i] == SEP);
            }
        }
        lemma_split_single(p);
        assert(k[k.len() - 1] != SEP);
        assert(p.push(k.last()) =~= k);
        assert(seq![p].update(0, p.push(k.last())) =~= seq![k]);
    } else {
        assert(k =~= Seq::<char>::empty());
    }
}

proof fn lemma_split_join(p: Seq<char>, k: Seq<char>)
    requires
        !k.contains(SEP),
    ensures
        split_key(p + seq![SEP] + k) == split_key(p).push(k),
    decreases k.len(),
{
    let s = p + seq![SEP] + k;
    if k.len() == 0 {
        assert(s.drop_last() =~= p);
        assert(k =~= Seq::<char>::empty());
    } else {
        let k2 = k.drop_last();
        assert(!k2.contains(SEP)) by {
            if k2.contains(SEP) {
                let i = choose|i: int| 0 <= i < k2.len() && k2[i] == SEP;
                assert(k[i] == SEP);
            }
        }
        lemma_split_join(p, k2);
        assert(s.drop_last() =~= p + seq![SEP] + k2);
        assert(k[k.len() - 1] != SEP);
        let r = split_key(p).push(k2);
        assert(k2.push(k.last()) =~= k);
        assert(r.update(r.len() - 1, k2.push(k.last())) =~= split_key(p).push(k));
    }
}

proof fn lemma_build_is_fold(f: Flat)
    ensures
        build_members(f) == fold_ins(seq![], split_all(f)),
    decreases f.len(),
{
    if f.len() > 0 {
        lemma_build_is_fold(f.drop_last());
        assert(split_all(f).drop_last() =~= split_all(f.drop_last()));
    }
}

proof fn lemma_fold_append(acc: Seq<(Seq<char>, Tree)>, e1: Paths, e2: Paths)
    ensures
        fold_ins(acc, e1 + e2) == match fold_ins(acc, e1) {
            Some(a) => fold_ins(a, e2),
            None => None,
        },
    decreases e2.len(),
{
    if e2.len() == 0 {
        assert(e1 + e2 =~= e1);
    } else {
        lemma_fold_append(acc, e1, e2.drop_last());
        assert((e1 + e2).drop_last() =~= e1 + e2.drop_last());
    }
}

proof fn lemma_find_none(ms: Seq<(Seq<char>, Tree)>, k: Seq<char>)
    ensures
        find_key(ms, k) < 0 <==> forall|i: int| 0 <= i < ms.len() ==> #[trigger] ms[i].0 != k,
    decreases ms.len(),
{
    if ms.len() > 0 {
        let p = ms.drop_last();
        lemma_find_none(p, k);
        if find_key(ms, k) < 0 {
            assert forall|i: int| 0 <= i < ms.len() implies #[trigger] ms[i].0 != k by {
                if i < p.len() {
                    assert(p[i] == ms[i]);
                }
            }
        } else if find_key(p, k) >= 0 {
            lemma_find_key(p, k);
            assert(ms[find_key(p, k)] == p[find_key(p, k)]);
        }
    }
}

proof fn lemma_prepend_append(pre: Seq<Seq<char>>, a: Paths, b: Paths)
    ensures
        prepend(pre, a + b) == prepend(pre, a) + prepend(pre, b),
{
    assert(prepend(pre, a + b) =~= prepend(pre, a) + prepend(pre, b));
}

proof fn lemma_split_all_append(a: Flat, b: Flat)
    ensures
        split_all(a + b) == split_all(a) + split_all(b),
{
    assert(split_all(a + b) =~= split_all(a) + split_all(b));
}

/// The prefix that the flat key `p` stands for.
pub open spec fn prefix_path(p: Seq<char>) -> Seq<Seq<char>> {
    if p.len() == 0 {
        seq![]
    } else {
        split_key(p)
    }
}

proof fn lemma_flat_split(t: Tree, p: Seq<char>)
    requires
        valid_tree(t),
        p.len() > 0,
    ensures
        split_all(flat_tree(t, p)) == prepend(prefix_path(p), seg_flat(t)),
    decreases t,
{
    match t {
        Tree::Object(ms) => {
            lemma_flat_split_members(ms, p, false);
        },
        Tree::Text(s) => {
            let e = seq![(Seq::<Seq<char>>::empty(), s)];
            assert(prefix_path(p) + e[0].0 =~= split_key(p));
            assert(split_all(flat_tree(t, p)) =~= prepend(prefix_path(p), e));
        },
        Tree::Other => {},
    }
}

proof fn lemma_flat_split_members(ms: Seq<(Seq<char>, Tree)>, p: Seq<char>, root: bool)
    requires
        valid_members(ms, root),
        root == (p.len() == 0),
    ensures
        split_all(flat_members(ms, p)) == prepend(prefix_path(p), seg_members(ms)),
    decreases ms,
{
    if ms.len() == 0 {
        assert(split_all(flat_members(ms, p)) =~= prepend(prefix_path(p), seg_members(ms)));
    } else {
        let q = ms.subrange(0, ms.len() - 1);
        let k = ms[ms.len() - 1].0;
        let c = ms[ms.len() - 1].1;
        lemma_flat_split_members(q, p, root);
        let jk = join_key(p, k);
        if p.len() == 0 {
            lemma_split_single(k);
        } else {
            lemma_split_join(p, k);
        }
        if jk.len() == 0 {
            let s = c->Text_0;
            assert(split_all(flat_tree(c, jk)) =~= prepend(prefix_path(p) + seq![k], seg_flat(c)));
        } else {
            assert(prefix_path(jk) =~= prefix_path(p) + seq![k]);
            lemma_flat_split(c, jk);
        }
        lemma_split_all_append(flat_members(q, p), flat_tree(c, jk));
        lemma_prepend_append(prefix_path(p), seg_members(q), prepend(seq![k], seg_flat(c)));
        let x = seg_flat(c);
        assert(prepend(prefix_path(p), prepend(seq![k], x)) =~= prepend(prefix_path(p) + seq![k], x))
            by {
            assert forall|i: int| 0 <= i < x.len() implies prefix_path(p) + (seq![k] + x[i].0)
                =~= prefix_path(p) + seq![k] + x[i].0 by {}
        }
    }
}

proof fn lemma_fold_new_object(
    acc: Seq<(Seq<char>, Tree)>,
    k: Seq<char>,
    e: Paths,
    d: Seq<(Seq<char>, Tree)>,
)
    requires
        find_key(acc, k) < 0,
        e.len() > 0,
        forall|i: int| 0 <= i < e.len() ==> (#[trigger] e[i].0).len() > 0,
        fold_ins(seq![], e) == Some(d),
    ensures
        fold_ins(acc, prepend(seq![k], e)) == Some(acc.push((k, Tree::Object(d)))),
    decreases e.len(),
{
    let pe = prepend(seq![k], e);
    assert(pe.drop_last() =~= prepend(seq![k], e.drop_last()));
    let path = pe.last().0;
    assert(path.drop_first() =~= e.last().0);
    assert(path[0] == k);
    if e.len() == 1 {
        assert(e.drop_last() =~= Seq::<(Seq<Seq<char>>, Seq<char>)>::empty());
        assert(pe.drop_last() =~= Seq::<(Seq<Seq<char>>, Seq<char>)>::empty());
    } else {
        let d0 = fold_ins(seq![], e.drop_last())->0;
        assert forall|i: int| 0 <= i < e.drop_last().len() implies (#[trigger] e.drop_last()[i].0).len()
            > 0 by {
            assert(e.drop_last()[i] == e[i]);
        }
        lemma_fold_new_object(acc, k, e.drop_last(), d0);
        let a = acc.push((k, Tree::Object(d0)));
        assert(a.drop_last() =~= acc);
        assert(find_key(a, k) == acc.len());
        assert(a.update(acc.len() as int, (k, Tree::Object(d))) =~= acc.push((k, Tree::Object(d))));
    }
}

proof fn lemma_fold_member(acc: Seq<(Seq<char>, Tree)>, k: Seq<char>, c: Tree)
    requires
        find_key(acc, k) < 0,
        valid_tree(c),
    ensures
        fold_ins(acc, prepend(seq![k], seg_flat(c))) == Some(acc.push((k, c))),
        seg_flat(c).len() > 0,
    decreases c,
{
    match c {
        Tree::Text(s) => {
            assert(seg_flat(c) == seq![(Seq::<Seq<char>>::empty(), s)]);
            let e = prepend(seq![k], seg_flat(c));
            assert(e.len() == 1);
            assert(e.drop_last() =~= Seq::<(Seq<Seq<char>>, Seq<char>)>::empty());
            assert(fold_ins(acc, e.drop_last()) == Some(acc));
            assert(e.last().0 =~= seq![k]);
            assert(e.last().1 == s);
            assert(e.last().0[0] == k);
        },
        Tree::Object(d) => {
            lemma_fold_members(seq![], d, false);
            assert(Seq::<(Seq<char>, Tree)>::empty() + d =~= d);
            lemma_seg_paths_nonempty(d);
            lemma_fold_new_object(acc, k, seg_members(d), d);
        },
        Tree::Other => {},
    }
}

proof fn lemma_seg_paths_nonempty(ms: Seq<(Seq<char>, Tree)>)
    ensures
        forall|i: int| 0 <= i < seg_members(ms).len() ==> (#[trigger] seg_members(ms)[i].0).len() > 0,
    decreases ms.len(),
{
    if ms.len() > 0 {
        let q = ms.subrange(0, ms.len() - 1);
        lemma_seg_paths_nonempty(q);
        let a = seg_members(q);
        let b = prepend(seq![ms[ms.len() - 1].0], seg_flat(ms[ms.len() - 1].1));
        assert forall|i: int| 0 <= i < seg_members(ms).len() implies (
        #[trigger] seg_members(ms)[i].0).len() > 0 by {
            if i >= a.len() {
                assert(seg_members(ms)[i] == b[i - a.len()]);
            } else {
                assert(seg_members(ms)[i] == a[i]);
            }
        }
    }
}

proof fn lemma_fold_members(acc: Seq<(Seq<char>, Tree)>, ms: Seq<(Seq<char>, Tree)>, root: bool)
    requires
        valid_members(ms, root),
        forall|i: int| 0 <= i < ms.len() ==> find_key(acc, #[trigger] ms[i].0) < 0,
    ensures
        fold_ins(acc, seg_members(ms)) == Some(acc + ms),
        seg_members(ms).len() >= ms.len(),
    decreases ms,
{
    if ms.len() == 0 {
        assert(acc + ms =~= acc);
    } else {
        let q = ms.subrange(0, ms.len() - 1);
        let k = ms[ms.len() - 1].0;
        let c = ms[ms.len() - 1].1;
        assert forall|i: int| 0 <= i < q.len() implies find_key(acc, #[trigger] q[i].0) < 0 by {
            assert(q[i] == ms[i]);
        }
        lemma_fold_members(acc, q, root);
        lemma_fold_append(acc, seg_members(q), prepend(seq![k], seg_flat(c)));
        let a = acc + q;
        lemma_find_none(acc, k);
        lemma_find_none(q, k);
        lemma_find_none(a, k);
        assert(find_key(a, k) < 0) by {
            assert forall|i: int| 0 <= i < a.len() implies #[trigger] a[i].0 != k by {
                if i < acc.len() {
                    assert(a[i] == acc[i]);
                } else {
                    assert(a[i] == q[i - acc.len()]);
                }
            }
        }
        lemma_fold_member(a, k, c);
        assert(a.push((k, c)) =~= acc + ms);
    }
}

/// Rebuilding a document from its flat mapping gives the document back,
/// for every document whose root is an object and that flattening
/// describes completely: objects and string leaves only, member keys free
/// of the separator and distinct within their object, no empty object below
/// the root, and no object under the empty key at the root.
pub proof fn lemma_tree_round_trip(ms: Seq<(Seq<char>, Tree)>)
    requires
        valid_members(ms, true),
    ensures
        build_tree(flat_of(Tree::Object(ms))) == Some(Tree::Object(ms)),
{
    let f = flat_of(Tree::Object(ms));
    lemma_flat_split_members(ms, seq![], true);
    assert(prepend(seq![], seg_members(ms)) =~= seg_members(ms)) by {
        assert forall|i: int| 0 <= i < seg_members(ms).len() implies Seq::<Seq<char>>::empty()
            + seg_members(ms)[i].0 =~= seg_members(ms)[i].0 by {}
    }
    lemma_build_is_fold(f);
    lemma_fold_members(seq![], ms, true);
    assert(Seq::<(Seq<char>, Tree)>::empty() + ms =~= ms);
}

/// The text found by following the path `p` from the members `ms`, taking
/// at each step the first member of the segment's name.
pub open spec fn lookup(ms: Seq<(Seq<char>, Tree)>, p: Seq<Seq<char>>) -> Option<Seq<char>>
    decreases p.len(),
{
    if p.len() == 0 {
        None
    } else {
        let j = find_key(ms, p[0]);
        if j < 0 {
            None
        } else {
            match ms[j].1 {
                Tree::Text(s) => if p.len() == 1 {
                    Some(s)
                } else {
                    None
                },
                Tree::Object(c) => if p.len() == 1 {
                    None
                } else {
                    lookup(c, p.drop_first())
                },
                Tree::Other => None,
            }
        }
    }
}

/// `a` is a prefix of `b`, or equal to it.
pub open spec fn is_prefix(a: Seq<Seq<char>>, b: Seq<Seq<char>>) -> bool {
    a.len() <= b.len() && b.subrange(0, a.len() as int) == a
}

/// Some leaf below `ms` stands at a path that is a prefix of `p`, or has
/// `p` as a prefix.
pub open spec fn clashes(ms: Seq<(Seq<char>, Tree)>, p: Seq<Seq<char>>) -> bool {
    exists|q: Seq<Seq<char>>| #[trigger] lookup(ms, q) is Some && (is_prefix(q, p) || is_prefix(p, q))
}

proof fn lemma_valid_index(ms: Seq<(Seq<char>, Tree)>, root: bool, i: int)
    requires
        valid_members(ms, root),
        0 <= i < ms.len(),
    ensures
        valid_tree(ms[i].1),
        root ==> ms[i].0.len() > 0 || ms[i].1 is Text,
    decreases ms.len(),
{
    if i < ms.len() - 1 {
        let q = ms.subrange(0, ms.len() - 1);
        lemma_valid_index(q, root, i);
        assert(q[i] == ms[i]);
    }
}

proof fn lemma_valid_push(ms: Seq<(Seq<char>, Tree)>, root: bool, x: (Seq<char>, Tree))
    requires
        valid_members(ms, root),
        valid_tree(x.1),
        !x.0.contains(SEP),
        find_key(ms, x.0) < 0,
        root ==> x.0.len() > 0 || x.1 is Text,
    ensures
        valid_members(ms.push(x), root),
{
    assert(ms.push(x).subrange(0, ms.len() as int) =~= ms);
}

proof fn lemma_valid_update(ms: Seq<(Seq<char>, Tree)>, root: bool, j: int, y: Tree)
    requires
        valid_members(ms, root),
        valid_tree(y),
        0 <= j < ms.len(),
        root ==> ms[j].0.len() > 0 || y is Text,
    ensures
        valid_members(ms.update(j, (ms[j].0, y)), root),
    decreases ms.len(),
{
    let u = ms.update(j, (ms[j].0, y));
    let q = ms.subrange(0, ms.len() - 1);
    if j < ms.len() - 1 {
        lemma_valid_update(q, root, j, y);
        assert(u.subrange(0, u.len() - 1) =~= q.update(j, (q[j].0, y)));
        lemma_find_update(q, j, y, ms[ms.len() - 1].0);
    } else {
        assert(u.subrange(0, u.len() - 1) =~= q);
    }
}

proof fn lemma_find_push(ms: Seq<(Seq<char>, Tree)>, x: (Seq<char>, Tree), k: Seq<char>)
    ensures
        find_key(ms.push(x), k) == if find_key(ms, k) >= 0 {
            find_key(ms, k)
        } else if x.0 == k {
            ms.len() as int
        } else {
            -1
        },
{
    assert(ms.push(x).drop_last() =~= ms);
}

proof fn lemma_find_update(ms: Seq<(Seq<char>, Tree)>, j: int, y: Tree, k: Seq<char>)
    requires
        0 <= j < ms.len(),
    ensures
        find_key(ms.update(j, (ms[j].0, y)), k) == find_key(ms, k),
    decreases ms.len(),
{
    let u = ms.update(j, (ms[j].0, y));
    let q = ms.subrange(0, ms.len() - 1);
    if j < ms.len() - 1 {
        lemma_find_update(q, j, y, k);
        assert(u.drop_last() =~= q.update(j, (q[j].0, y)));
    } else {
        assert(u.drop_last() =~= q);
    }
}

proof fn lemma_find_first(ms: Seq<(Seq<char>, Tree)>)
    requires
        ms.len() > 0,
    ensures
        find_key(ms, ms[0].0) == 0,
    decreases ms.len(),
{
    if ms.len() > 1 {
        lemma_find_first(ms.drop_last());
        assert(ms.drop_last()[0] == ms[0]);
    } else {
        assert(find_key(ms.drop_last(), ms[0].0) == -1);
    }
}

proof fn lemma_has_leaf(ms: Seq<(Seq<char>, Tree)>, root: bool)
    requires
        valid_members(ms, root),
        ms.len() > 0,
    ensures
        exists|r: Seq<Seq<char>>| #[trigger] lookup(ms, r) is Some,
    decreases ms,
{
    lemma_find_first(ms);
    lemma_valid_index(ms, root, 0);
    let k = ms[0].0;
    match ms[0].1 {
        Tree::Text(_) => {
            assert(lookup(ms, seq![k]) is Some);
        },
        Tree::Object(c) => {
            assert(decreases_to!(ms => ms[0].1));
            lemma_has_leaf(c, false);
            let r = choose|r: Seq<Seq<char>>| #[trigger] lookup(c, r) is Some;
            let p = seq![k] + r;
            assert(p.drop_first() =~= r);
            assert(lookup(ms, p) is Some);
        },
        Tree::Other => {},
    }
}

/// Placing a text at a path that clashes with no leaf succeeds, keeps the
/// shape, and adds exactly that path.
proof fn lemma_insert_fresh(
    ms: Seq<(Seq<char>, Tree)>,
    root: bool,
    p: Seq<Seq<char>>,
    v: Seq<char>,
)
    requires
        valid_members(ms, root),
        p.len() > 0,
        forall|i: int| 0 <= i < p.len() ==> !(#[trigger] p[i]).contains(SEP),
        root && p.len() > 1 ==> p[0].len() > 0,
        !clashes(ms, p),
    ensures
        insert_at(ms, p, v) is Some,
        valid_members(insert_at(ms, p, v)->0, root),
        forall|q: Seq<Seq<char>>|
            #[trigger] lookup(insert_at(ms, p, v)->0, q) == if q == p {
                Some(v)
            } else {
                lookup(ms, q)
            },
    decreases p.len(),
{
    let k = p[0];
    let j = find_key(ms, k);
    let rest = p.drop_first();
    lemma_find_key(ms, k);
    if j >= 0 {
        lemma_valid_index(ms, root, j);
        match ms[j].1 {
            Tree::Text(_) => {
                let q = seq![k];
                assert(lookup(ms, q) is Some);
                assert(p.subrange(0, 1) =~= q);
                assert(is_prefix(q, p));
                assert(false);
            },
            Tree::Object(c) => {
                if p.len() == 1 {
                    lemma_has_leaf(c, false);
                    let r = choose|r: Seq<Seq<char>>| #[trigger] lookup(c, r) is Some;
                    let q = seq![k] + r;
                    assert(q.drop_first() =~= r);
                    assert(lookup(ms, q) is Some);
                    assert(q.subrange(0, 1) =~= p);
                    assert(is_prefix(p, q));
                    assert(false);
                }
                assert(!clashes(c, rest)) by {
                    if clashes(c, rest) {
                        let r = choose|r: Seq<Seq<char>>|
                            #[trigger] lookup(c, r) is Some && (is_prefix(r, rest) || is_prefix(rest, r));
                        let q = seq![k] + r;
                        assert(q.drop_first() =~= r);
                        assert(lookup(ms, q) is Some);
                        if is_prefix(r, rest) {
                            assert(p.subrange(0, q.len() as int) =~= seq![k] + rest.subrange(0, r.len() as int));
                            assert(p =~= seq![k] + rest);
                            assert(is_prefix(q, p));
                        } else {
                            assert(q.subrange(0, p.len() as int) =~= seq![k] + r.subrange(0, rest.len() as int));
                            assert(p =~= seq![k] + rest);
                            assert(is_prefix(p, q));
                        }
                        assert(false);
                    }
                }
                assert(forall|i: int| 0 <= i < rest.len() ==> rest[i] == p[i + 1]);
                lemma_insert_fresh(c, false, rest, v);
                let c2 = insert_at(c, rest, v)->0;
                let u = ms.update(j, (k, Tree::Object(c2)));
                assert(insert_at(ms, p, v) == Some(u));
                assert(c2.len() > 0) by {
                    if c2.len() == 0 {
                        assert(lookup(c2, rest) == Some(v));
                    }
                }
                lemma_valid_update(ms, root, j, Tree::Object(c2));
                assert forall|q: Seq<Seq<char>>| #[trigger] lookup(u, q) == if q == p {
                    Some(v)
                } else {
                    lookup(ms, q)
                } by {
                    if q.len() > 0 {
                        lemma_find_update(ms, j, Tree::Object(c2), q[0]);
                        let i = find_key(ms, q[0]);
                        lemma_find_key(ms, q[0]);
                        if i >= 0 && i != j {
                            assert(u[i] == ms[i]);
                        }
                        if q[0] == k && q.len() > 1 {
                            assert(lookup(c2, q.drop_first()) == if q.drop_first() == rest {
                                Some(v)
                            } else {
                                lookup(c, q.drop_first())
                            });
                            if q.drop_first() == rest {
                                assert(q =~= seq![q[0]] + q.drop_first());
                                assert(p =~= seq![p[0]] + rest);
                            }
                        }
                        if q == p {
                            assert(q.drop_first() == rest);
                        }
                    }
                }
            },
            Tree::Other => {},
        }
    } else {
        if p.len() == 1 {
            let u = ms.push((k, Tree::Text(v)));
            assert(insert_at(ms, p, v) == Some(u));
            lemma_valid_push(ms, root, (k, Tree::Text(v)));
            assert forall|q: Seq<Seq<char>>| #[trigger] lookup(u, q) == if q == p {
                Some(v)
            } else {
                lookup(ms, q)
            } by {
                if q.len() > 0 {
                    lemma_find_push(ms, (k, Tree::Text(v)), q[0]);
                    lemma_find_key(ms, q[0]);
                    let i = find_key(ms, q[0]);
                    if i >= 0 {
                        assert(u[i] == ms[i]);
                    }
                    if q[0] == k && q.len() == 1 {
                        assert(q =~= seq![k]);
                        assert(p =~= seq![k]);
                    }
                }
            }
        } else {
            assert(!clashes(seq![], rest)) by {
                if clashes(seq![], rest) {
                    let r = choose|r: Seq<Seq<char>>|
                        #[trigger] lookup(seq![], r) is Some && (is_prefix(r, rest) || is_prefix(rest, r));
                }
            }
            assert(forall|i: int| 0 <= i < rest.len() ==> rest[i] == p[i + 1]);
            lemma_insert_fresh(seq![], false, rest, v);
            let c2 = insert_at(seq![], rest, v)->0;
            let u = ms.push((k, Tree::Object(c2)));
            assert(insert_at(ms, p, v) == Some(u));
            assert(c2.len() > 0) by {
                if c2.len() == 0 {
                    assert(lookup(c2, rest) == Some(v));
                }
            }
            lemma_valid_push(ms, root, (k, Tree::Object(c2)));
            assert forall|q: Seq<Seq<char>>| #[trigger] lookup(u, q) == if q == p {
                Some(v)
            } else {
                lookup(ms, q)
            } by {
                if q.len() > 0 {
                    lemma_find_push(ms, (k, Tree::Object(c2)), q[0]);
                    lemma_find_key(ms, q[0]);
                    let i = find_key(ms, q[0]);
                    if i >= 0 {
                        assert(u[i] == ms[i]);
                    }
                    if q[0] == k && q.len() > 1 {
                        assert(lookup(c2, q.drop_first()) == if q.drop_first() == rest {
                            Some(v)
                        } else {
                            lookup(seq![], q.drop_first())
                        });
                        if q.drop_first() == rest {
                            assert(q =~= seq![q[0]] + q.drop_first());
                            assert(p =~= seq![p[0]] + rest);
                        }
                    }
                    if q == p {
                        assert(q.drop_first() == rest);
                    }
                }
            }
        }
    }
}

/// No path of `e` is empty, and none is a prefix of another or equal to it:
/// no key stands both for a leaf and for one of its ancestors.
pub open spec fn clash_free(e: Paths) -> bool {
    &&& forall|i: int| 0 <= i < e.len() ==> (#[trigger] e[i].0).len() > 0
    &&& forall|a: int, b: int|
        0 <= a < e.len() && 0 <= b < e.len() && a != b ==> !is_prefix(#[trigger] e[a].0, #[trigger] e[b].0)
}

/// The text of the last entry of `e` at path `q`.
pub open spec fn path_lookup(e: Paths, q: Seq<Seq<char>>) -> Option<Seq<char>>
    decreases e.len(),
{
    if e.len() == 0 {
        None
    } else if e.last().0 == q {
        Some(e.last().1)
    } else {
        path_lookup(e.drop_last(), q)
    }
}

proof fn lemma_path_lookup_some(e: Paths, q: Seq<Seq<char>>)
    requires
        path_lookup(e, q) is Some,
    ensures
        exists|i: int| 0 <= i < e.len() && #[trigger] e[i].0 == q && e[i].1 == path_lookup(e, q)->0,
    decreases e.len(),
{
    if e.last().0 != q {
        lemma_path_lookup_some(e.drop_last(), q);
        let i = choose|i: int|
            0 <= i < e.drop_last().len() && #[trigger] e.drop_last()[i].0 == q && e.drop_last()[i].1
                == path_lookup(e.drop_last(), q)->0;
        assert(e[i] == e.drop_last()[i]);
    } else {
        assert(e[e.len() - 1].0 == q);
    }
}

proof fn lemma_path_lookup_unique(e: Paths, i: int)
    requires
        clash_free(e),
        0 <= i < e.len(),
    ensures
        path_lookup(e, e[i].0) == Some(e[i].1),
    decreases e.len(),
{
    let last = e.len() - 1;
    if i < last {
        let d = e.drop_last();
        assert(!is_prefix(e[last].0, e[i].0));
        assert(e[last].0 != e[i].0) by {
            if e[last].0 == e[i].0 {
                assert(e[i].0.subrange(0, e[i].0.len() as int) =~= e[i].0);
            }
        }
        assert(clash_free(d)) by {
            assert forall|x: int| 0 <= x < d.len() implies (#[trigger] d[x].0).len() > 0 by {
                assert(d[x] == e[x]);
            }
            assert forall|a: int, b: int|
                0 <= a < d.len() && 0 <= b < d.len() && a != b implies !is_prefix(
                #[trigger] d[a].0,
                #[trigger] d[b].0,
            ) by {
                assert(d[a] == e[a]);
                assert(d[b] == e[b]);
            }
        }
        lemma_path_lookup_unique(d, i);
        assert(d[i] == e[i]);
    }
}

proof fn lemma_fold_fresh(e: Paths)
    requires
        clash_free(e),
        forall|i: int, j: int|
            0 <= i < e.len() && 0 <= j < e[i].0.len() ==> !(#[trigger] e[i].0[j]).contains(SEP),
        forall|i: int| 0 <= i < e.len() && (#[trigger] e[i].0).len() > 1 ==> e[i].0[0].len() > 0,
    ensures
        fold_ins(seq![], e) is Some,
        valid_members(fold_ins(seq![], e)->0, true),
        forall|q: Seq<Seq<char>>| #[trigger] lookup(fold_ins(seq![], e)->0, q) == path_lookup(e, q),
    decreases e.len(),
{
    if e.len() == 0 {
        assert forall|q: Seq<Seq<char>>| #[trigger] lookup(seq![], q) == path_lookup(e, q) by {
            if q.len() > 0 {
                assert(find_key(seq![], q[0]) == -1);
            }
        }
    } else {
        let d = e.drop_last();
        assert(clash_free(d)) by {
            assert forall|i: int| 0 <= i < d.len() implies (#[trigger] d[i].0).len() > 0 by {
                assert(d[i] == e[i]);
            }
            assert forall|a: int, b: int|
                0 <= a < d.len() && 0 <= b < d.len() && a != b implies !is_prefix(
                #[trigger] d[a].0,
                #[trigger] d[b].0,
            ) by {
                assert(d[a] == e[a]);
                assert(d[b] == e[b]);
            }
        }
        lemma_fold_fresh(d);
        let r = fold_ins(seq![], d)->0;
        let p = e.last().0;
        let last = e.len() - 1;
        assert(p == e[last].0);
        assert(!clashes(r, p)) by {
            if clashes(r, p) {
                let q = choose|q: Seq<Seq<char>>|
                    #[trigger] lookup(r, q) is Some && (is_prefix(q, p) || is_prefix(p, q));
                lemma_path_lookup_some(d, q);
                let i = choose|i: int| 0 <= i < d.len() && #[trigger] d[i].0 == q;
                assert(e[i].0 == q);
                assert(!is_prefix(e[i].0, e[last].0));
                assert(!is_prefix(e[last].0, e[i].0));
            }
        }
        assert(forall|j: int| 0 <= j < p.len() ==> p[j] == e[last].0[j]);
        lemma_insert_fresh(r, true, p, e.last().1);
    }
}

proof fn lemma_build_places_every_entry(f: Flat)
    requires
        clash_free(split_all(f)),
        forall|i: int| 0 <= i < f.len() && (#[trigger] split_key(f[i].0)).len() > 1 ==> split_key(f[i].0)[0].len() > 0,
    ensures
        valid_members(build_tree(f)->0->Object_0, true),
        build_tree(f) is Some,
        forall|q: Seq<Seq<char>>|
            #[trigger] lookup(build_tree(f)->0->Object_0, q) == path_lookup(split_all(f), q),
{
    lemma_build_is_fold(f);
    let e = split_all(f);
    assert forall|i: int, j: int| 0 <= i < e.len() && 0 <= j < e[i].0.len() implies !(
    #[trigger] e[i].0[j]).contains(SEP) by {
        lemma_split_dot_free(f[i].0);
    }
    assert forall|i: int| 0 <= i < e.len() && (#[trigger] e[i].0).len() > 1 implies e[i].0[0].len()
        > 0 by {
        assert(e[i].0 == split_key(f[i].0));
    }
    lemma_fold_fresh(e);
}

proof fn lemma_split_dot_free(s: Seq<char>)
    ensures
        forall|j: int| 0 <= j < split_key(s).len() ==> !(#[trigger] split_key(s)[j]).contains(SEP),
    decreases s.len(),
{
    if s.len() > 0 {
        let r = split_key(s.drop_last());
        lemma_split_dot_free(s.drop_last());
        crate::text::lemma_split_nonempty(s.drop_last());
        if s.last() != SEP {
            let w = r.last().push(s.last());
            assert(!w.contains(SEP)) by {
                if w.contains(SEP) {
                    let x = choose|x: int| 0 <= x < w.len() && w[x] == SEP;
                    if x < r.last().len() {
                        assert(r.last()[x] == SEP);
                        assert(r.last().contains(SEP));
                    }
                }
            }
        } else {
            assert(!Seq::<char>::empty().contains(SEP));
        }
    }
}

/// What `t` holds at the path `r` below it.
pub open spec fn tree_lookup(t: Tree, r: Seq<Seq<char>>) -> Option<Seq<char>> {
    match t {
        Tree::Text(s) => if r.len() == 0 {
            Some(s)
        } else {
            None
        },
        Tree::Object(d) => lookup(d, r),
        Tree::Other => None,
    }
}

proof fn lemma_seg_lookup_tree(t: Tree)
    requires
        valid_tree(t),
    ensures
        forall|r: Seq<Seq<char>>, v: Seq<char>|
            #[trigger] seg_flat(t).contains((r, v)) <==> tree_lookup(t, r) == Some(v),
    decreases t,
{
    match t {
        Tree::Text(s) => {
            assert(seg_flat(t) == seq![(Seq::<Seq<char>>::empty(), s)]);
            assert forall|r: Seq<Seq<char>>, v: Seq<char>|
                #[trigger] seg_flat(t).contains((r, v)) <==> tree_lookup(t, r) == Some(v) by {
                if seg_flat(t).contains((r, v)) {
                    let i = choose|i: int| 0 <= i < seg_flat(t).len() && seg_flat(t)[i] == (r, v);
                    assert(i == 0);
                }
                if tree_lookup(t, r) == Some(v) {
                    assert(r =~= Seq::<Seq<char>>::empty());
                    assert(seg_flat(t)[0] == (r, v));
                }
            }
        },
        Tree::Object(d) => {
            lemma_seg_lookup(d, false);
            assert(seg_flat(t) == seg_members(d));
            assert forall|r: Seq<Seq<char>>, v: Seq<char>|
                #[trigger] seg_flat(t).contains((r, v)) <==> tree_lookup(t, r) == Some(v) by {
                assert(seg_members(d).contains((r, v)) <==> lookup(d, r) == Some(v));
            }
        },
        Tree::Other => {},
    }
}

proof fn lemma_seg_lookup(ms: Seq<(Seq<char>, Tree)>, root: bool)
    requires
        valid_members(ms, root),
    ensures
        forall|q: Seq<Seq<char>>, v: Seq<char>|
            #[trigger] seg_members(ms).contains((q, v)) <==> lookup(ms, q) == Some(v),
    decreases ms,
{
    if ms.len() == 0 {
        assert forall|q: Seq<Seq<char>>, v: Seq<char>|
            #[trigger] seg_members(ms).contains((q, v)) <==> lookup(ms, q) == Some(v) by {
            if q.len() > 0 {
                assert(find_key(ms, q[0]) == -1);
            }
        }
    } else {
        let pre = ms.subrange(0, ms.len() - 1);
        let k = ms[ms.len() - 1].0;
        let c = ms[ms.len() - 1].1;
        lemma_seg_lookup(pre, root);
        lemma_seg_lookup_tree(c);
        assert(ms =~= pre.push((k, c)));
        let a = seg_members(pre);
        let b = prepend(seq![k], seg_flat(c));
        assert(seg_members(ms) == a + b);
        assert forall|q: Seq<Seq<char>>, v: Seq<char>|
            #[trigger] seg_members(ms).contains((q, v)) <==> lookup(ms, q) == Some(v) by {
            let in_a = a.contains((q, v));
            let in_b = b.contains((q, v));
            assert(seg_members(ms).contains((q, v)) <==> in_a || in_b) by {
                if seg_members(ms).contains((q, v)) {
                    let i = choose|i: int| 0 <= i < (a + b).len() && (a + b)[i] == (q, v);
                    if i < a.len() {
                        assert(a[i] == (q, v));
                    } else {
                        assert(b[i - a.len()] == (q, v));
                    }
                }
                if in_a {
                    let i = choose|i: int| 0 <= i < a.len() && a[i] == (q, v);
                    assert((a + b)[i] == (q, v));
                }
                if in_b {
                    let i = choose|i: int| 0 <= i < b.len() && b[i] == (q, v);
                    assert((a + b)[i + a.len()] == (q, v));
                }
            }
            let sf = seg_flat(c);
            assert(in_b <==> q.len() > 0 && q[0] == k && sf.contains((q.drop_first(), v))) by {
                if in_b {
                    let i = choose|i: int| 0 <= i < b.len() && b[i] == (q, v);
                    assert(q == seq![k] + sf[i].0);
                    assert(q.drop_first() =~= sf[i].0);
                    assert(sf[i] == (q.drop_first(), v));
                }
                if q.len() > 0 && q[0] == k && sf.contains((q.drop_first(), v)) {
                    let i = choose|i: int| 0 <= i < sf.len() && sf[i] == (q.drop_first(), v);
                    assert(seq![k] + q.drop_first() =~= q);
                    assert(b[i] == (q, v));
                }
            }
            if q.len() > 0 {
                lemma_find_push(pre, (k, c), q[0]);
                lemma_find_key(pre, q[0]);
                let i = find_key(pre, q[0]);
                if q[0] == k {
                    assert(find_key(ms, k) == pre.len());
                    assert(lookup(pre, q) is None);
                    assert(lookup(ms, q) == tree_lookup(c, q.drop_first()));
                } else {
                    if i >= 0 {
                        assert(ms[i] == pre[i]);
                    }
                    assert(lookup(ms, q) == lookup(pre, q));
                }
            } else {
                assert(lookup(pre, q) is None);
                assert(!in_b) by {
                    if in_b {
                        let i = choose|i: int| 0 <= i < b.len() && b[i] == (q, v);
                        assert(b[i].0.len() > 0);
                    }
                }
            }
        }
    }
}

/// The flat key made of the segments `segs`, joined by the separator.
pub open spec fn join_segs(segs: Seq<Seq<char>>) -> Seq<char>
    decreases segs.len(),
{
    if segs.len() == 0 {
        seq![]
    } else if segs.len() == 1 {
        segs[0]
    } else {
        join_segs(segs.drop_last()) + seq![SEP] + segs.last()
    }
}

proof fn lemma_join_push_last(r: Seq<Seq<char>>, c: char)
    requires
        r.len() > 0,
    ensures
        join_segs(r.update(r.len() - 1, r.last().push(c))) == join_segs(r).push(c),
{
    let u = r.update(r.len() - 1, r.last().push(c));
    if r.len() > 1 {
        assert(u.drop_last() =~= r.drop_last());
        assert(join_segs(r.drop_last()) + seq![SEP] + r.last().push(c) =~= (join_segs(r.drop_last())
            + seq![SEP] + r.last()).push(c));
    }
}

proof fn lemma_join_split(s: Seq<char>)
    ensures
        join_segs(split_key(s)) == s,
    decreases s.len(),
{
    if s.len() == 0 {
        assert(s =~= Seq::<char>::empty());
    } else {
        let p = s.drop_last();
        lemma_join_split(p);
        crate::text::lemma_split_nonempty(p);
        let r = split_key(p);
        if s.last() == SEP {
            assert(r.push(seq![]).drop_last() =~= r);
            assert(p + seq![SEP] + Seq::<char>::empty() =~= s);
        } else {
            lemma_join_push_last(r, s.last());
            assert(p.push(s.last()) =~= s);
        }
    }
}

/// Flattening the document rebuilt from a flat mapping gives the same
/// entries, for every mapping in which no key stands both for a leaf and
/// for one of its ancestors (after cutting the keys at the separator) and
/// no key of several segments starts with an empty one. The rebuild
/// succeeds on every such mapping; the entries come back grouped by object.
pub proof fn lemma_flat_round_trip(f: Flat)
    requires
        clash_free(split_all(f)),
        forall|i: int| 0 <= i < f.len() && (#[trigger] split_key(f[i].0)).len() > 1 ==> split_key(f[i].0)[0].len() > 0,
    ensures
        build_tree(f) is Some,
        forall|x: (Seq<char>, Seq<char>)| #[trigger] flat_of(build_tree(f)->0).contains(x) <==> f.contains(x),
{
    lemma_build_places_every_entry(f);
    let ms = build_tree(f)->0->Object_0;
    assert(build_tree(f)->0 == Tree::Object(ms));
    let g = flat_of(Tree::Object(ms));
    assert(g == flat_members(ms, seq![]));
    lemma_flat_split_members(ms, seq![], true);
    let sm = seg_members(ms);
    assert(prepend(seq![], sm) =~= sm) by {
        assert forall|i: int| 0 <= i < sm.len() implies Seq::<Seq<char>>::empty() + sm[i].0 =~= sm[i].0 by {}
    }
    assert(split_all(g) == sm);
    lemma_seg_lookup(ms, true);
    let e = split_all(f);
    assert forall|x: (Seq<char>, Seq<char>)| #[trigger] g.contains(x) <==> f.contains(x) by {
        if g.contains(x) {
            let i = choose|i: int| 0 <= i < g.len() && g[i] == x;
            assert(sm[i] == (split_key(x.0), x.1));
            assert(sm.contains((split_key(x.0), x.1)));
            assert(lookup(ms, split_key(x.0)) == Some(x.1));
            lemma_path_lookup_some(e, split_key(x.0));
            let j = choose|j: int|
                0 <= j < e.len() && #[trigger] e[j].0 == split_key(x.0) && e[j].1 == path_lookup(
                    e,
                    split_key(x.0),
                )->0;
            lemma_join_split(f[j].0);
            lemma_join_split(x.0);
            assert(f[j] == x);
        }
        if f.contains(x) {
            let j = choose|j: int| 0 <= j < f.len() && f[j] == x;
            lemma_path_lookup_unique(e, j);
            assert(e[j] == (split_key(x.0), x.1));
            assert(sm.contains((split_key(x.0), x.1)));
            let i = choose|i: int| 0 <= i < sm.len() && sm[i] == (split_key(x.0), x.1);
            assert(split_all(g)[i] == (split_key(g[i].0), g[i].1));
            lemma_join_split(g[i].0);
            lemma_join_split(x.0);
            assert(g[i] == x);
        }
    }
}

} // verus!
