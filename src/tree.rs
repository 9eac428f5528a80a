use vstd::prelude::*;

use crate::text::{join_key, join_key_exec, split_key, split_key_exec, strings_view};

verus! {

/// A node of a localization document: an object of named members, a string
/// leaf, or any other leaf (number, boolean, null, array), which carries no
/// translatable text.
#[derive(Debug)]
pub enum Node {
    Object(Vec<(String, Node)>),
    Text(String),
    Other,
}

/// The mathematical model of a `Node`.
pub enum Tree {
    Object(Seq<(Seq<char>, Tree)>),
    Text(Seq<char>),
    Other,
}

/// A flat mapping, in order: pairs of flat key and leaf text.
pub type Flat = Seq<(Seq<char>, Seq<char>)>;

pub open spec fn tree_of(n: Node) -> Tree
    decreases n,
{
    match n {
        Node::Object(ms) => Tree::Object(members_of(ms@)),
        Node::Text(s) => Tree::Text(s@),
        Node::Other => Tree::Other,
    }
}

pub open spec fn members_of(ms: Seq<(String, Node)>) -> Seq<(Seq<char>, Tree)>
    decreases ms,
{
    if ms.len() == 0 {
        seq![]
    } else {
        members_of(ms.subrange(0, ms.len() - 1)).push(
            (ms[ms.len() - 1].0@, tree_of(ms[ms.len() - 1].1)),
        )
    }
}

/// The model of a list of key/text pairs.
pub open spec fn pairs_view(v: Seq<(String, String)>) -> Flat {
    v.map_values(|p: (String, String)| (p.0@, p.1@))
}

/// The flat mapping of `t` when `t` stands at flat key `prefix`: one entry per
/// string leaf, in depth-first order; other leaves give none.
pub open spec fn flat_tree(t: Tree, prefix: Seq<char>) -> Flat
    decreases t,
{
    match t {
        Tree::Object(ms) => flat_members(ms, prefix),
        Tree::Text(s) => seq![(prefix, s)],
        Tree::Other => seq![],
    }
}

pub open spec fn flat_members(ms: Seq<(Seq<char>, Tree)>, prefix: Seq<char>) -> Flat
    decreases ms,
{
    if ms.len() == 0 {
        seq![]
    } else {
        flat_members(ms.subrange(0, ms.len() - 1), prefix) + flat_tree(
            ms[ms.len() - 1].1,
            join_key(prefix, ms[ms.len() - 1].0),
        )
    }
}

/// The flat mapping of a whole document.
pub open spec fn flat_of(t: Tree) -> Flat {
    flat_tree(t, seq![])
}

/// A leaf that is not a string (number, boolean, null, array) adds no entry
/// to the flat mapping, wherever it stands among an object's members.
pub proof fn lemma_other_leaves_dropped(
    ms: Seq<(Seq<char>, Tree)>,
    k: Seq<char>,
    prefix: Seq<char>,
)
    ensures
        flat_tree(Tree::Other, prefix) == Seq::<(Seq<char>, Seq<char>)>::empty(),
        flat_members(ms.push((k, Tree::Other)), prefix) == flat_members(ms, prefix),
{
    let q = ms.push((k, Tree::Other));
    assert(q.subrange(0, q.len() - 1) =~= ms);
    assert(q[q.len() - 1].1 == Tree::Other);
    assert(flat_tree(Tree::Other, join_key(prefix, k)) == Seq::<(Seq<char>, Seq<char>)>::empty());
    assert(flat_members(ms, prefix) + Seq::<(Seq<char>, Seq<char>)>::empty() =~= flat_members(ms, prefix));
}

proof fn lemma_members_prefix(ms: Seq<(String, Node)>, i: int)
    requires
        0 <= i < ms.len(),
    ensures
        members_of(ms.subrange(0, i + 1)) == members_of(ms.subrange(0, i)).push(
            (ms[i].0@, tree_of(ms[i].1)),
        ),
{
    assert(ms.subrange(0, i + 1).subrange(0, i) =~= ms.subrange(0, i));
}

/// Appends the flat mapping of `n`, standing at flat key `prefix`, to `out`.
pub fn flatten_into(n: &Node, prefix: &String, out: &mut Vec<(String, String)>)
    ensures
        pairs_view(final(out)@) == pairs_view(old(out)@) + flat_tree(tree_of(*n), prefix@),
    decreases n,
{
    match n {
        Node::Object(ms) => {
            let ghost start = pairs_view(out@);
            let mut i: usize = 0;
            while i < ms.len()
                invariant
                    *n is Object,
                    (*n)->Object_0 == *ms,
                    i <= ms@.len(),
                    pairs_view(out@) == start + flat_members(
                        members_of(ms@.subrange(0, i as int)),
                        prefix@,
                    ),
                decreases ms@.len() - i,
            {
                let key = join_key_exec(prefix, &ms[i].0);
                proof {
                    lemma_members_prefix(ms@, i as int);
                    let m = members_of(ms@.subrange(0, i + 1));
                    assert(m.subrange(0, m.len() - 1) =~= members_of(ms@.subrange(0, i as int)));
                    let nv = *n;
                    let v = nv->Object_0;
                    assert(decreases_to!(nv => v));
                    vstd::std_specs::vec::axiom_vec_index_decreases(v, i as int);
                    assert(decreases_to!(v => v[i as int]));
                    assert(decreases_to!(v[i as int] => v[i as int].1));
                    assert(decreases_to!(*n => ms@[i as int].1));
                }
                flatten_into(&ms[i].1, &key, out);
                proof {
                    let a = flat_members(members_of(ms@.subrange(0, i as int)), prefix@);
                    let b = flat_tree(tree_of(ms@[i as int].1), key@);
                    assert(start + a + b =~= start + (a + b));
                }
                i = i + 1;
            }
            assert(ms@.subrange(0, ms@.len() as int) =~= ms@);
        },
        Node::Text(s) => {
            let ghost before = out@;
            out.push((prefix.clone(), s.clone()));
            assert(pairs_view(out@) =~= pairs_view(before) + seq![(prefix@, s@)]);
        },
        Node::Other => {},
    }
}

/// The flat mapping of a document: each string leaf under its dotted key, in
/// depth-first order. Non-string leaves give no entry.
pub fn flatten(n: &Node) -> (r: Vec<(String, String)>)
    ensures
        pairs_view(r@) == flat_of(tree_of(*n)),
{
    let mut out: Vec<(String, String)> = Vec::new();
    flatten_into(n, &String::new(), &mut out);
    assert(pairs_view(Seq::<(String, String)>::empty()) =~= Seq::empty());
    out
}

/// Two flat keys that need one path to be both a string leaf and an object.
/// `key` is the first entry, in the order given, that could not be placed.
#[derive(Debug)]
pub struct Conflict {
    pub key: String,
}

/// The position of the first member named `k`, or -1 when there is none.
pub open spec fn find_key(ms: Seq<(Seq<char>, Tree)>, k: Seq<char>) -> int
    decreases ms.len(),
{
    if ms.len() == 0 {
        -1
    } else {
        let r = find_key(ms.drop_last(), k);
        if r >= 0 {
            r
        } else if ms.last().0 == k {
            ms.len() - 1
        } else {
            -1
        }
    }
}

/// Places text `v` at the path `segs` below the members `ms`: missing
/// objects on the way are created and appended, an existing string leaf at
/// the end is replaced. `None` when the path runs through a leaf, or ends at
/// a member that is not a string leaf.
pub open spec fn insert_at(ms: Seq<(Seq<char>, Tree)>, segs: Seq<Seq<char>>, v: Seq<char>) -> Option<
    Seq<(Seq<char>, Tree)>,
>
    decreases segs.len(),
{
    if segs.len() == 0 {
        None
    } else {
        let k = segs[0];
        let j = find_key(ms, k);
        if segs.len() == 1 {
            if j < 0 {
                Some(ms.push((k, Tree::Text(v))))
            } else if ms[j].1 is Text {
                Some(ms.update(j, (k, Tree::Text(v))))
            } else {
                None
            }
        } else if j < 0 {
            match insert_at(seq![], segs.drop_first(), v) {
                Some(c) => Some(ms.push((k, Tree::Object(c)))),
                None => None,
            }
        } else {
            match ms[j].1 {
                Tree::Object(c) => match insert_at(c, segs.drop_first(), v) {
                    Some(c2) => Some(ms.update(j, (k, Tree::Object(c2)))),
                    None => None,
                },
                _ => None,
            }
        }
    }
}

/// The members built from the entries of `f`, placed one after another.
pub open spec fn build_members(f: Flat) -> Option<Seq<(Seq<char>, Tree)>>
    decreases f.len(),
{
    if f.len() == 0 {
        Some(seq![])
    } else {
        match build_members(f.drop_last()) {
            Some(ms) => insert_at(ms, split_key(f.last().0), f.last().1),
            None => None,
        }
    }
}

/// The document built from a flat mapping, or `None` on a conflict.
pub open spec fn build_tree(f: Flat) -> Option<Tree> {
    match build_members(f) {
        Some(ms) => Some(Tree::Object(ms)),
        None => None,
    }
}

proof fn lemma_members_index(ms: Seq<(String, Node)>)
    ensures
        members_of(ms).len() == ms.len(),
        forall|j: int|
            0 <= j < ms.len() ==> #[trigger] members_of(ms)[j] == (ms[j].0@, tree_of(ms[j].1)),
    decreases ms.len(),
{
    if ms.len() > 0 {
        let p = ms.subrange(0, ms.len() - 1);
        lemma_members_index(p);
        assert forall|j: int| 0 <= j < ms.len() implies #[trigger] members_of(ms)[j] == (
            ms[j].0@,
            tree_of(ms[j].1),
        ) by {
            if j < ms.len() - 1 {
                assert(p[j] == ms[j]);
            }
        }
    }
}

proof fn lemma_members_update(ms: Seq<(String, Node)>, j: int, x: (String, Node))
    requires
        0 <= j < ms.len(),
    ensures
        members_of(ms.update(j, x)) == members_of(ms).update(j, (x.0@, tree_of(x.1))),
{
    lemma_members_index(ms);
    lemma_members_index(ms.update(j, x));
    assert(members_of(ms.update(j, x)) =~= members_of(ms).update(j, (x.0@, tree_of(x.1))));
}

proof fn lemma_members_push(ms: Seq<(String, Node)>, x: (String, Node))
    ensures
        members_of(ms.push(x)) == members_of(ms).push((x.0@, tree_of(x.1))),
{
    assert(ms.push(x).subrange(0, ms.len() as int) =~= ms);
}

proof fn lemma_find_stable(ms: Seq<(Seq<char>, Tree)>, k: Seq<char>, i: int)
    requires
        0 <= i <= ms.len(),
        find_key(ms.subrange(0, i), k) >= 0,
    ensures
        find_key(ms, k) == find_key(ms.subrange(0, i), k),
    decreases ms.len() - i,
{
    if i < ms.len() {
        let q = ms.subrange(0, i + 1);
        assert(q.drop_last() =~= ms.subrange(0, i));
        lemma_find_stable(ms, k, i + 1);
    } else {
        assert(ms.subrange(0, i) =~= ms);
    }
}

pub proof fn lemma_find_key(ms: Seq<(Seq<char>, Tree)>, k: Seq<char>)
    ensures
        -1 <= find_key(ms, k) < ms.len(),
        find_key(ms, k) >= 0 ==> ms[find_key(ms, k)].0 == k,
    decreases ms.len(),
{
    if ms.len() > 0 {
        lemma_find_key(ms.drop_last(), k);
    }
}

/// The position of the first member named `k`.
fn find_member(ms: &Vec<(String, Node)>, k: &String) -> (r: Option<usize>)
    ensures
        match r {
            Some(j) => j < ms@.len() && find_key(members_of(ms@), k@) == j,
            None => find_key(members_of(ms@), k@) == -1,
        },
{
    let ghost m = members_of(ms@);
    proof {
        lemma_members_index(ms@);
    }
    let mut j: usize = 0;
    assert(m.subrange(0, 0) =~= Seq::<(Seq<char>, Tree)>::empty());
    while j < ms.len()
        invariant
            m == members_of(ms@),
            m.len() == ms@.len(),
            forall|i: int| 0 <= i < ms.len() ==> #[trigger] m[i] == (ms@[i].0@, tree_of(ms@[i].1)),
            j <= ms@.len(),
            find_key(m.subrange(0, j as int), k@) == -1,
        decreases ms@.len() - j,
    {
        let ghost q = m.subrange(0, j + 1);
        assert(q.drop_last() =~= m.subrange(0, j as int));
        if ms[j].0 == *k {
            assert(find_key(q, k@) == j);
            proof {
                lemma_find_stable(m, k@, j + 1);
            }
            return Some(j);
        }
        j = j + 1;
    }
    assert(m.subrange(0, j as int) =~= m);
    None
}

/// Places `v` at the path `segs[d..]` below the members `ms`.
fn insert_path(ms: Vec<(String, Node)>, segs: &Vec<String>, d: usize, v: &String) -> (r: Option<
    Vec<(String, Node)>,
>)
    requires
        d < segs@.len(),
    ensures
        match insert_at(members_of(ms@), strings_view(segs@).subrange(d as int, segs@.len() as int), v@) {
            Some(x) => r is Some && members_of(r->0@) == x,
            None => r is None,
        },
    decreases segs@.len() - d,
{
    let ghost path = strings_view(segs@).subrange(d as int, segs@.len() as int);
    let ghost rest = strings_view(segs@).subrange(d + 1, segs@.len() as int);
    assert(path.drop_first() =~= rest);
    assert(path[0] == segs@[d as int]@);
    let k = &segs[d];
    let found = find_member(&ms, k);
    let mut ms = ms;
    proof {
        lemma_members_index(ms@);
        lemma_find_key(members_of(ms@), k@);
    }
    if d == segs.len() - 1 {
        match found {
            None => {
                let item = (k.clone(), Node::Text(v.clone()));
                proof {
                    lemma_members_push(ms@, item);
                }
                ms.push(item);
                Some(ms)
            },
            Some(j) => {
                let is_text = match &ms[j].1 {
                    Node::Text(_) => true,
                    _ => false,
                };
                assert(is_text == (tree_of(ms@[j as int].1) is Text));
                if is_text {
                    let ghost before = ms@;
                    let item = (k.clone(), Node::Text(v.clone()));
                    proof {
                        lemma_members_update(before, j as int, item);
                    }
                    ms.remove(j);
                    ms.insert(j, item);
                    assert(ms@ =~= before.update(j as int, item));
                    Some(ms)
                } else {
                    None
                }
            },
        }
    } else {
        match found {
            None => {
                assert(members_of(Seq::<(String, Node)>::empty()) =~= Seq::<(Seq<char>, Tree)>::empty());
                match insert_path(Vec::new(), segs, d + 1, v) {
                    Some(c) => {
                        let item = (k.clone(), Node::Object(c));
                        proof {
                            lemma_members_push(ms@, item);
                        }
                        ms.push(item);
                        Some(ms)
                    },
                    None => None,
                }
            },
            Some(j) => {
                let ghost before = ms@;
                let (key, child) = ms.remove(j);
                assert(members_of(before)[j as int].1 == tree_of(child));
                match child {
                    Node::Object(c) => {
                        assert(tree_of(child) == Tree::Object(members_of(c@)));
                        match insert_path(c, segs, d + 1, v) {
                            Some(c2) => {
                                let item = (key, Node::Object(c2));
                                proof {
                                    lemma_members_update(before, j as int, item);
                                }
                                ms.insert(j, item);
                                assert(ms@ =~= before.update(j as int, item));
                                Some(ms)
                            },
                            None => None,
                        }
                    },
                    _ => None,
                }
            },
        }
    }
}

proof fn lemma_build_stays_none(f: Flat, i: int)
    requires
        0 <= i <= f.len(),
        build_members(f.subrange(0, i)) is None,
    ensures
        build_members(f) is None,
    decreases f.len() - i,
{
    if i < f.len() {
        assert(f.subrange(0, i + 1).drop_last() =~= f.subrange(0, i));
        lemma_build_stays_none(f, i + 1);
    } else {
        assert(f.subrange(0, i) =~= f);
    }
}

/// Rebuilds a document from a flat mapping, placing the entries in the order
/// given: each key is cut at the separator, missing objects are created, and
/// the text is set at the last segment. A key that would run through a string
/// leaf, or end on an object, is a conflict, reported with that key.
pub fn build(flat: &Vec<(String, String)>) -> (r: Result<Node, Conflict>)
    ensures
        match r {
            Ok(t) => build_tree(pairs_view(flat@)) == Some(tree_of(t)),
            Err(e) => {
                let f = pairs_view(flat@);
                &&& build_tree(f) is None
                &&& exists|i: int|
                    0 <= i < f.len() && build_members(#[trigger] f.subrange(0, i)) is Some
                        && build_members(f.subrange(0, i + 1)) is None && e.key@ == f[i].0
            },
        },
{
    let ghost f = pairs_view(flat@);
    let mut root: Vec<(String, Node)> = Vec::new();
    let mut i: usize = 0;
    assert(f.subrange(0, 0) =~= Seq::<(Seq<char>, Seq<char>)>::empty());
    assert(members_of(root@) =~= Seq::<(Seq<char>, Tree)>::empty());
    while i < flat.len()
        invariant
            f == pairs_view(flat@),
            i <= flat@.len(),
            build_members(f.subrange(0, i as int)) == Some(members_of(root@)),
        decreases flat@.len() - i,
    {
        let segs = split_key_exec(&flat[i].0);
        proof {
            crate::text::lemma_split_nonempty(flat@[i as int].0@);
        }
        let ghost q = f.subrange(0, i + 1);
        assert(q.drop_last() =~= f.subrange(0, i as int));
        assert(strings_view(segs@).subrange(0, segs@.len() as int) =~= strings_view(segs@));
        match insert_path(root, &segs, 0, &flat[i].1) {
            Some(next) => {
                root = next;
            },
            None => {
                proof {
                    lemma_build_stays_none(f, i + 1);
                    assert(build_members(f.subrange(0, i as int)) is Some);
                }
                return Err(Conflict { key: flat[i].0.clone() });
            },
        }
        i = i + 1;
    }
    assert(f.subrange(0, i as int) =~= f);
    Ok(Node::Object(root))
}

} // verus!
