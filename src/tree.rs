//! The header tree as a value: placing entries at paths, and finding them.

use vstd::prelude::*;
use crate::header::{FileView, Header};
use crate::reader::{child_file_leaves, file_leaves, join, strings_equal};

verus! {

/// A header tree as a value.
pub enum Node {
    File(FileView),
    Dir(Seq<(Seq<char>, Node)>),
    Link(Seq<char>),
}

/// The value of the tree `h`.
pub open spec fn node_of(h: Header) -> Node
    decreases h,
{
    match h {
        Header::File(f) => Node::File(f@),
        Header::Directory { files } => Node::Dir(nodes_of(files@)),
        Header::Link { link } => Node::Link(link@),
    }
}

/// The values of the children `s` of a directory.
pub open spec fn nodes_of(s: Seq<(String, Header)>) -> Seq<(Seq<char>, Node)>
    decreases s,
{
    if s.len() == 0 {
        Seq::empty()
    } else {
        nodes_of(s.drop_last()).push((s.last().0@, node_of(s.last().1)))
    }
}

pub(crate) proof fn lemma_nodes_of(s: Seq<(String, Header)>)
    ensures
        nodes_of(s).len() == s.len(),
        forall|i: int| 0 <= i < s.len() ==> #[trigger] nodes_of(s)[i] == (s[i].0@, node_of(s[i].1)),
    decreases s.len(),
{
    if s.len() > 0 {
        lemma_nodes_of(s.drop_last());
    }
}

/// The index of the first child named `name` at or after `k`, or -1.
pub open spec fn index_from(s: Seq<(Seq<char>, Node)>, name: Seq<char>, k: int) -> int
    decreases s.len() - k,
{
    if k < 0 || k >= s.len() {
        -1
    } else if s[k].0 == name {
        k
    } else {
        index_from(s, name, k + 1)
    }
}

proof fn lemma_index_from(s: Seq<(Seq<char>, Node)>, name: Seq<char>, k: int)
    requires
        0 <= k,
    ensures
        index_from(s, name, k) >= 0 ==> k <= index_from(s, name, k) < s.len() && s[index_from(
            s,
            name,
            k,
        )].0 == name,
        index_from(s, name, k) == -1 || index_from(s, name, k) >= 0,
    decreases s.len() - k,
{
    if k < s.len() && s[k].0 != name {
        lemma_index_from(s, name, k + 1);
    }
}

/// The tree `n` with `leaf` placed at the path `segs`, creating the missing
/// directories on the way. A name already present is replaced at the last
/// segment and entered before it; where a file or link stands in the way,
/// the tree is left as it is.
pub open spec fn insert_node(n: Node, segs: Seq<Seq<char>>, leaf: Node) -> Node
    decreases segs.len(),
{
    match n {
        Node::Dir(s) => if segs.len() == 0 {
            n
        } else {
            let name = segs[0];
            let k = index_from(s, name, 0);
            if segs.len() == 1 {
                if k >= 0 {
                    Node::Dir(s.update(k, (name, leaf)))
                } else {
                    Node::Dir(s.push((name, leaf)))
                }
            } else if k >= 0 {
                Node::Dir(s.update(k, (name, insert_node(s[k].1, segs.drop_first(), leaf))))
            } else {
                Node::Dir(s.push((name, insert_node(Node::Dir(Seq::empty()), segs.drop_first(), leaf))))
            }
        },
        _ => n,
    }
}

/// The tree found at the path `segs` below `n`: at each step, the first child
/// with the segment's name.
pub open spec fn lookup_node(n: Node, segs: Seq<Seq<char>>) -> Option<Node>
    decreases segs.len(),
{
    if segs.len() == 0 {
        Some(n)
    } else {
        match n {
            Node::Dir(s) => {
                let k = index_from(s, segs[0], 0);
                if k >= 0 {
                    lookup_node(s[k].1, segs.drop_first())
                } else {
                    None
                }
            },
            _ => None,
        }
    }
}

/// Whether each proper prefix of `segs` leads below `n` to a directory or to
/// nothing.
pub open spec fn open_path(n: Node, segs: Seq<Seq<char>>) -> bool {
    forall|j: int|
        0 <= j < segs.len() ==> match #[trigger] lookup_node(n, segs.subrange(0, j)) {
            None => true,
            Some(Node::Dir(_)) => true,
            _ => false,
        }
}

proof fn lemma_index_from_update(s: Seq<(Seq<char>, Node)>, name: Seq<char>, k: int, x: Node)
    requires
        0 <= k < s.len(),
        index_from(s, name, 0) == k,
    ensures
        index_from(s.update(k, (name, x)), name, 0) == k,
{
    let t = s.update(k, (name, x));
    lemma_index_from(s, name, 0);
    assert forall|j: int| 0 <= j < k implies t[j].0 != name by {
        lemma_index_before(s, name, 0, j);
    }
    lemma_index_found(t, name, 0, k);
}

proof fn lemma_index_from_push(s: Seq<(Seq<char>, Node)>, name: Seq<char>, x: Node)
    requires
        index_from(s, name, 0) == -1,
    ensures
        index_from(s.push((name, x)), name, 0) == s.len(),
{
    let t = s.push((name, x));
    assert forall|j: int| 0 <= j < s.len() implies t[j].0 != name by {
        lemma_index_none(s, name, 0, j);
    }
    lemma_index_found(t, name, 0, s.len() as int);
}

/// No child before the first match has the name.
proof fn lemma_index_before(s: Seq<(Seq<char>, Node)>, name: Seq<char>, k: int, j: int)
    requires
        0 <= k <= j,
        j < index_from(s, name, k) || index_from(s, name, k) == -1,
        j < s.len(),
    ensures
        s[j].0 != name,
    decreases j - k,
{
    if s[k].0 != name && k < j {
        lemma_index_before(s, name, k + 1, j);
    }
}

proof fn lemma_index_none(s: Seq<(Seq<char>, Node)>, name: Seq<char>, k: int, j: int)
    requires
        0 <= k <= j < s.len(),
        index_from(s, name, k) == -1,
    ensures
        s[j].0 != name,
{
    lemma_index_before(s, name, k, j);
}

/// A name at `k` with none before it is found at `k`.
proof fn lemma_index_found(s: Seq<(Seq<char>, Node)>, name: Seq<char>, j: int, k: int)
    requires
        0 <= j <= k < s.len(),
        s[k].0 == name,
        forall|i: int| j <= i < k ==> s[i].0 != name,
    ensures
        index_from(s, name, j) == k,
    decreases k - j,
{
    if j < k {
        lemma_index_found(s, name, j + 1, k);
    }
}

/// Placing `leaf` at a path whose proper prefixes lead to directories or to
/// nothing makes `leaf` what is found at that path.
pub proof fn lemma_insert_then_lookup(n: Node, segs: Seq<Seq<char>>, leaf: Node)
    requires
        n is Dir,
        segs.len() > 0,
        open_path(n, segs),
    ensures
        lookup_node(insert_node(n, segs, leaf), segs) == Some(leaf),
    decreases segs.len(),
{
    let s = n->Dir_0;
    let name = segs[0];
    let k = index_from(s, name, 0);
    lemma_index_from(s, name, 0);
    let rest = segs.drop_first();
    if segs.len() == 1 {
        assert(rest.len() == 0);
        assert(lookup_node(leaf, rest) == Some(leaf));
        if k >= 0 {
            lemma_index_from_update(s, name, k, leaf);
            assert(insert_node(n, segs, leaf) == Node::Dir(s.update(k, (name, leaf))));
        } else {
            lemma_index_from_push(s, name, leaf);
            assert(insert_node(n, segs, leaf) == Node::Dir(s.push((name, leaf))));
        }
    } else {
        let child = if k >= 0 {
            s[k].1
        } else {
            Node::Dir(Seq::empty())
        };
        assert(open_path(child, rest)) by {
            assert forall|j: int| 0 <= j < rest.len() implies match #[trigger] lookup_node(
                child,
                rest.subrange(0, j),
            ) {
                None => true,
                Some(Node::Dir(_)) => true,
                _ => false,
            } by {
                if k >= 0 {
                    let p = segs.subrange(0, j + 1);
                    assert(p.drop_first() =~= rest.subrange(0, j));
                    assert(p[0] == name);
                    assert(lookup_node(n, p) == lookup_node(child, rest.subrange(0, j)));
                } else if j > 0 {
                    assert(lookup_node(child, rest.subrange(0, j)) is None);
                }
            }
        }
        assert(child is Dir) by {
            if k >= 0 {
                let p = segs.subrange(0, 1);
                assert(p.drop_first() =~= Seq::<Seq<char>>::empty());
                assert(p[0] == name);
                assert(lookup_node(child, Seq::<Seq<char>>::empty()) == Some(child));
                assert(lookup_node(n, p) == Some(child));
            }
        }
        lemma_insert_then_lookup(child, rest, leaf);
        let placed = insert_node(child, rest, leaf);
        if k >= 0 {
            lemma_index_from_update(s, name, k, placed);
            assert(insert_node(n, segs, leaf) == Node::Dir(s.update(k, (name, placed))));
        } else {
            lemma_index_from_push(s, name, placed);
            assert(insert_node(n, segs, leaf) == Node::Dir(s.push((name, placed))));
        }
    }
}

/// Whether `a` is a prefix of `b`.
pub open spec fn is_prefix(a: Seq<Seq<char>>, b: Seq<Seq<char>>) -> bool {
    a.len() <= b.len() && b.subrange(0, a.len() as int) == a
}

proof fn lemma_index_same_names(s: Seq<(Seq<char>, Node)>, t: Seq<(Seq<char>, Node)>, nm: Seq<char>, k: int)
    requires
        s.len() == t.len(),
        forall|i: int| 0 <= i < s.len() ==> #[trigger] s[i].0 == t[i].0,
    ensures
        index_from(s, nm, k) == index_from(t, nm, k),
    decreases s.len() - k,
{
    if 0 <= k < s.len() && s[k].0 != nm {
        lemma_index_same_names(s, t, nm, k + 1);
    }
}

proof fn lemma_index_push_other(s: Seq<(Seq<char>, Node)>, x: (Seq<char>, Node), nm: Seq<char>, k: int)
    requires
        x.0 != nm,
        0 <= k,
    ensures
        index_from(s.push(x), nm, k) == index_from(s, nm, k),
    decreases s.len() + 1 - k,
{
    let t = s.push(x);
    if k < s.len() {
        assert(t[k] == s[k]);
        if s[k].0 != nm {
            lemma_index_push_other(s, x, nm, k + 1);
        }
    } else if k == s.len() {
        assert(index_from(t, nm, k + 1) == -1);
    }
}

/// What is found below `n` after placing `leaf`, neither a directory nor
/// empty-pathed, at `segs`: `leaf` at `segs`, a directory above it, nothing
/// below it, and elsewhere what was there before.
pub proof fn lemma_lookup_after_insert(n: Node, segs: Seq<Seq<char>>, leaf: Node, q: Seq<Seq<char>>)
    requires
        n is Dir,
        segs.len() > 0,
        open_path(n, segs),
        !(leaf is Dir),
    ensures
        q == segs ==> lookup_node(insert_node(n, segs, leaf), q) == Some(leaf),
        is_prefix(q, segs) && q.len() < segs.len() ==> lookup_node(insert_node(n, segs, leaf), q) matches Some(
            Node::Dir(_),
        ),
        is_prefix(segs, q) && q.len() > segs.len() ==> lookup_node(insert_node(n, segs, leaf), q) is None,
        !is_prefix(q, segs) && !is_prefix(segs, q) ==> lookup_node(insert_node(n, segs, leaf), q)
            == lookup_node(n, q),
    decreases segs.len(),
{
    let s = n->Dir_0;
    let name = segs[0];
    let k = index_from(s, name, 0);
    lemma_index_from(s, name, 0);
    let rest = segs.drop_first();
    let child = if k >= 0 {
        s[k].1
    } else {
        Node::Dir(Seq::empty())
    };
    let x = if segs.len() == 1 {
        leaf
    } else {
        insert_node(child, rest, leaf)
    };
    let t = if k >= 0 {
        s.update(k, (name, x))
    } else {
        s.push((name, x))
    };
    let kk = if k >= 0 {
        k
    } else {
        s.len() as int
    };
    if k >= 0 {
        lemma_index_from_update(s, name, k, x);
    } else {
        lemma_index_from_push(s, name, x);
    }
    assert(insert_node(n, segs, leaf) == Node::Dir(t));
    assert(index_from(t, name, 0) == kk && t[kk] == (name, x));
    if segs.len() > 1 {
        assert(open_path(child, rest)) by {
            assert forall|j: int| 0 <= j < rest.len() implies match #[trigger] lookup_node(
                child,
                rest.subrange(0, j),
            ) {
                None => true,
                Some(Node::Dir(_)) => true,
                _ => false,
            } by {
                if k >= 0 {
                    let p = segs.subrange(0, j + 1);
                    assert(p.drop_first() =~= rest.subrange(0, j));
                    assert(p[0] == name);
                    assert(lookup_node(n, p) == lookup_node(child, rest.subrange(0, j)));
                } else if j > 0 {
                    assert(lookup_node(child, rest.subrange(0, j)) is None);
                }
            }
        }
        assert(child is Dir) by {
            if k >= 0 {
                let p = segs.subrange(0, 1);
                assert(p.drop_first() =~= Seq::<Seq<char>>::empty());
                assert(p[0] == name);
                assert(lookup_node(child, Seq::<Seq<char>>::empty()) == Some(child));
                assert(lookup_node(n, p) == Some(child));
            }
        }
    }
    let ins = insert_node(n, segs, leaf);
    if q.len() == 0 {
        assert(is_prefix(q, segs)) by {
            assert(segs.subrange(0, 0) =~= q);
        }
        assert(lookup_node(ins, q) == Some(ins));
    } else if q[0] == name {
        let q1 = q.drop_first();
        assert(lookup_node(ins, q) == lookup_node(x, q1));
        if segs.len() == 1 {
            assert(is_prefix(segs, q)) by {
                assert(q.subrange(0, 1) =~= segs);
            }
            if q == segs {
                assert(q1.len() == 0);
                assert(lookup_node(x, q1) == Some(x));
            } else {
                assert(is_prefix(segs, q)) by {
                    assert(q.subrange(0, 1) =~= segs);
                }
                if q.len() == 1 {
                    assert(q =~= segs);
                }
                assert(lookup_node(leaf, q1) is None);
            }
        } else {
            lemma_lookup_after_insert(child, rest, leaf, q1);
            if k >= 0 {
                assert(lookup_node(n, q) == lookup_node(child, q1));
            } else {
                assert(lookup_node(n, q) is None);
            }
            if q == segs {
                assert(q1 == rest);
                assert(segs.subrange(0, segs.len() as int) =~= segs);
            } else if is_prefix(q, segs) {
                assert(is_prefix(q1, rest)) by {
                    assert(rest.subrange(0, q1.len() as int) =~= segs.subrange(0, q.len() as int).drop_first());
                }
            } else if is_prefix(segs, q) {
                assert(is_prefix(rest, q1)) by {
                    assert(q1.subrange(0, rest.len() as int) =~= q.subrange(0, segs.len() as int).drop_first());
                }
            } else {
                assert(!is_prefix(q1, rest)) by {
                    if is_prefix(q1, rest) {
                        assert forall|i: int| 0 <= i < q.len() implies segs.subrange(0, q.len() as int)[i] == q[i] by {
                            if i > 0 {
                                assert(rest.subrange(0, q1.len() as int)[i - 1] == q1[i - 1]);
                            }
                        }
                        assert(segs.subrange(0, q.len() as int) =~= q);
                    }
                }
                assert(!is_prefix(rest, q1)) by {
                    if is_prefix(rest, q1) {
                        assert forall|i: int| 0 <= i < segs.len() implies q.subrange(0, segs.len() as int)[i] == segs[i] by {
                            if i > 0 {
                                assert(q1.subrange(0, rest.len() as int)[i - 1] == rest[i - 1]);
                            }
                        }
                        assert(q.subrange(0, segs.len() as int) =~= segs);
                    }
                }
                if k < 0 && q1.len() == 0 {
                    assert(q =~= seq![name]);
                    assert(segs.subrange(0, 1) =~= q);
                }
                if k < 0 && q1.len() > 0 {
                    assert(index_from(Seq::<(Seq<char>, Node)>::empty(), q1[0], 0) == -1);
                    assert(lookup_node(child, q1) is None);
                }
            }
        }
    } else {
        assert(!is_prefix(q, segs) && !is_prefix(segs, q)) by {
            if is_prefix(q, segs) {
                assert(segs.subrange(0, q.len() as int)[0] == segs[0]);
            }
            if is_prefix(segs, q) {
                assert(q.subrange(0, segs.len() as int)[0] == q[0]);
            }
        }
        if k >= 0 {
            assert forall|i: int| 0 <= i < s.len() implies #[trigger] s[i].0 == t[i].0 by {}
            lemma_index_same_names(s, t, q[0], 0);
        } else {
            lemma_index_push_other(s, (name, x), q[0], 0);
        }
        let j = index_from(s, q[0], 0);
        lemma_index_from(s, q[0], 0);
        assert(index_from(t, q[0], 0) == j);
        if j >= 0 {
            assert(j != k);
            assert(t[j] == s[j]);
            assert(lookup_node(n, q) == lookup_node(s[j].1, q.drop_first()));
            assert(lookup_node(ins, q) == lookup_node(t[j].1, q.drop_first()));
        } else {
            assert(lookup_node(n, q) is None);
            assert(lookup_node(ins, q) is None);
        }
    }
}

/// Whether no entry's path is a prefix of, or equal to, another entry's.
pub open spec fn prefix_free(es: Seq<(Seq<Seq<char>>, Node)>) -> bool {
    forall|i: int, j: int|
        0 <= i < es.len() && 0 <= j < es.len() && i != j ==> !is_prefix(
            #[trigger] es[i].0,
            #[trigger] es[j].0,
        )
}

/// Whether every entry has a non-empty path and is a file or a link.
pub open spec fn leaf_entries(es: Seq<(Seq<Seq<char>>, Node)>) -> bool {
    forall|i: int| 0 <= i < es.len() ==> (#[trigger] es[i]).0.len() > 0 && !(es[i].1 is Dir)
}

proof fn lemma_build_shape(es: Seq<(Seq<Seq<char>>, Node)>)
    requires
        prefix_free(es),
        leaf_entries(es),
    ensures
        build(es) is Dir,
        forall|i: int| 0 <= i < es.len() ==> lookup_node(build(es), #[trigger] es[i].0) == Some(es[i].1),
        forall|q: Seq<Seq<char>>|
            #[trigger] lookup_node(build(es), q) matches Some(x) && !(x is Dir) ==> exists|i: int|
                0 <= i < es.len() && es[i].0 == q,
        forall|q: Seq<Seq<char>>|
            #[trigger] lookup_node(build(es), q) is Some && q.len() > 0 ==> exists|i: int|
                0 <= i < es.len() && is_prefix(q, es[i].0),
    decreases es.len(),
{
    if es.len() == 0 {
        assert forall|q: Seq<Seq<char>>| #[trigger] lookup_node(build(es), q) is Some implies q.len() == 0 by {
            if q.len() > 0 {
                assert(index_from(Seq::<(Seq<char>, Node)>::empty(), q[0], 0) == -1);
            }
        }
    } else {
        let prev = es.drop_last();
        let e = es.last();
        let last = es.len() - 1;
        assert forall|i: int, j: int|
            0 <= i < prev.len() && 0 <= j < prev.len() && i != j implies !is_prefix(
            #[trigger] prev[i].0,
            #[trigger] prev[j].0,
        ) by {
            assert(prev[i] == es[i] && prev[j] == es[j]);
        }
        assert forall|i: int| 0 <= i < prev.len() implies (#[trigger] prev[i]).0.len() > 0 && !(
        prev[i].1 is Dir) by {
            assert(prev[i] == es[i]);
        }
        lemma_build_shape(prev);
        let n = build(prev);
        let segs = e.0;
        let leaf = e.1;
        assert(es[last] == e);
        assert(build(es) == insert_node(n, segs, leaf));
        assert(open_path(n, segs)) by {
            assert forall|j: int| 0 <= j < segs.len() implies match #[trigger] lookup_node(
                n,
                segs.subrange(0, j),
            ) {
                None => true,
                Some(Node::Dir(_)) => true,
                _ => false,
            } by {
                let q = segs.subrange(0, j);
                if lookup_node(n, q) matches Some(x) && !(x is Dir) {
                    let i = choose|i: int| 0 <= i < prev.len() && prev[i].0 == q;
                    assert(prev[i] == es[i]);
                    assert(segs.subrange(0, q.len() as int) == q);
                    assert(is_prefix(es[i].0, es[last].0));
                }
            }
        }
        assert forall|i: int| 0 <= i < es.len() implies lookup_node(build(es), #[trigger] es[i].0)
            == Some(es[i].1) by {
            lemma_lookup_after_insert(n, segs, leaf, es[i].0);
            if i < last {
                assert(prev[i] == es[i]);
                assert(!is_prefix(es[i].0, es[last].0));
                assert(!is_prefix(es[last].0, es[i].0));
            }
        }
        assert forall|q: Seq<Seq<char>>|
            #[trigger] lookup_node(build(es), q) matches Some(x) && !(x is Dir) implies exists|i: int|
                0 <= i < es.len() && es[i].0 == q by {
            lemma_lookup_after_insert(n, segs, leaf, q);
            if q == segs {
                assert(es[last].0 == q);
            } else if !is_prefix(q, segs) && !is_prefix(segs, q) {
                let i = choose|i: int| 0 <= i < prev.len() && prev[i].0 == q;
                assert(prev[i] == es[i]);
            }
        }
        assert forall|q: Seq<Seq<char>>|
            #[trigger] lookup_node(build(es), q) is Some && q.len() > 0 implies exists|i: int|
                0 <= i < es.len() && is_prefix(q, es[i].0) by {
            lemma_lookup_after_insert(n, segs, leaf, q);
            if is_prefix(q, segs) {
                assert(is_prefix(q, es[last].0));
            } else if !is_prefix(segs, q) {
                let i = choose|i: int| 0 <= i < prev.len() && is_prefix(q, prev[i].0);
                assert(prev[i] == es[i]);
            } else if q.len() == segs.len() {
                assert(q =~= q.subrange(0, segs.len() as int));
                assert(segs.subrange(0, q.len() as int) =~= segs);
            }
        }
    }
}

/// Building a tree from files and links at non-empty paths, none of which is a
/// prefix of another, finds each entry at its path.
pub proof fn lemma_build_finds_entries(es: Seq<(Seq<Seq<char>>, Node)>, i: int)
    requires
        prefix_free(es),
        leaf_entries(es),
        0 <= i < es.len(),
    ensures
        lookup_node(build(es), es[i].0) == Some(es[i].1),
{
    lemma_build_shape(es);
}

/// The index of the first child named `name`.
fn find_child(children: &Vec<(String, Header)>, name: &String) -> (r: Option<usize>)
    ensures
        match r {
            Some(i) => i as int == index_from(nodes_of(children@), name@, 0) && i < children@.len(),
            None => index_from(nodes_of(children@), name@, 0) == -1,
        },
{
    let ghost s = nodes_of(children@);
    proof {
        lemma_nodes_of(children@);
    }
    let mut i: usize = 0;
    while i < children.len()
        invariant
            s == nodes_of(children@),
            s.len() == children@.len(),
            forall|j: int| 0 <= j < s.len() ==> #[trigger] s[j] == (children@[j].0@, node_of(children@[j].1)),
            i <= children@.len(),
            index_from(s, name@, 0) == index_from(s, name@, i as int),
        decreases children@.len() - i,
    {
        if strings_equal(children[i].0.as_str(), name.as_str()) {
            return Some(i);
        }
        i += 1;
    }
    None
}

/// The segment views of a path.
pub open spec fn seg_views(v: Seq<String>) -> Seq<Seq<char>> {
    Seq::new(v.len(), |i: int| v[i]@)
}

/// Places `leaf` at the path `segs[k..]` in the tree `h`.
pub(crate) fn add_to_header(h: Header, segs: &Vec<String>, k: usize, leaf: Header) -> (r: Header)
    requires
        k < segs@.len(),
    ensures
        node_of(r) == insert_node(
            node_of(h),
            seg_views(segs@).subrange(k as int, segs@.len() as int),
            node_of(leaf),
        ),
    decreases segs@.len() - k,
{
    let ghost sv = seg_views(segs@).subrange(k as int, segs@.len() as int);
    assert(sv[0] == segs@[k as int]@);
    assert(sv.drop_first() =~= seg_views(segs@).subrange(k + 1, segs@.len() as int));
    match h {
        Header::Directory { files: mut children } => {
            let ghost s0 = children@;
            let ghost ss = nodes_of(s0);
            let ghost nm = segs@[k as int]@;
            proof {
                lemma_nodes_of(s0);
            }
            let name = &segs[k];
            let idx = find_child(&children, name);
            proof {
                lemma_index_from(ss, nm, 0);
            }
            if k == segs.len() - 1 {
                assert(sv.len() == 1);
                match idx {
                    Some(i) => {
                        let _ = children.remove(i);
                        children.insert(i, (name.clone(), leaf));
                        proof {
                            lemma_nodes_of(children@);
                            assert(nodes_of(children@) =~= ss.update(i as int, (nm, node_of(leaf))));
                        }
                    },
                    None => {
                        children.push((name.clone(), leaf));
                        proof {
                            lemma_nodes_of(children@);
                            assert(nodes_of(children@) =~= ss.push((nm, node_of(leaf))));
                        }
                    },
                }
            } else {
                match idx {
                    Some(i) => {
                        let (n, c) = children.remove(i);
                        let c2 = add_to_header(c, segs, k + 1, leaf);
                        let ghost c2n = node_of(c2);
                        children.insert(i, (n, c2));
                        proof {
                            lemma_nodes_of(children@);
                            assert(nodes_of(children@) =~= ss.update(i as int, (nm, c2n)));
                        }
                    },
                    None => {
                        let c2 = add_to_header(Header::new(), segs, k + 1, leaf);
                        let ghost c2n = node_of(c2);
                        proof {
                            lemma_nodes_of(Seq::<(String, Header)>::empty());
                        }
                        children.push((name.clone(), c2));
                        proof {
                            lemma_nodes_of(children@);
                            assert(nodes_of(children@) =~= ss.push((nm, c2n)));
                        }
                    },
                }
            }
            Header::Directory { files: children }
        },
        other => other,
    }
}

/// The tree built by placing each leaf at its path, in order, starting from an
/// empty directory.
pub open spec fn build(es: Seq<(Seq<Seq<char>>, Node)>) -> Node
    decreases es.len(),
{
    if es.len() == 0 {
        Node::Dir(Seq::empty())
    } else {
        insert_node(build(es.drop_last()), es.last().0, es.last().1)
    }
}

/// The files of the tree `n` at `path`, depth first, each with its path.
pub open spec fn node_leaves(n: Node, path: Seq<char>) -> Seq<(Seq<char>, FileView)>
    decreases n,
{
    match n {
        Node::File(f) => seq![(path, f)],
        Node::Dir(s) => child_node_leaves(s, path),
        Node::Link(_) => Seq::empty(),
    }
}

/// The files below the children `s` of the directory at `path`.
pub open spec fn child_node_leaves(s: Seq<(Seq<char>, Node)>, path: Seq<char>) -> Seq<
    (Seq<char>, FileView),
>
    decreases s,
{
    if s.len() == 0 {
        Seq::empty()
    } else {
        child_node_leaves(s.drop_last(), path) + node_leaves(s.last().1, join(path, s.last().0))
    }
}

/// The files of a header tree are those of its value.
pub proof fn lemma_file_leaves_node(h: Header, path: Seq<char>)
    ensures
        file_leaves(h, path) == node_leaves(node_of(h), path),
    decreases h,
{
    match h {
        Header::Directory { files } => {
            lemma_child_leaves_nodes(files@, path);
        },
        _ => {},
    }
}

proof fn lemma_child_leaves_nodes(s: Seq<(String, Header)>, path: Seq<char>)
    ensures
        child_file_leaves(s, path) == child_node_leaves(nodes_of(s), path),
    decreases s,
{
    if s.len() > 0 {
        lemma_child_leaves_nodes(s.drop_last(), path);
        lemma_file_leaves_node(s.last().1, join(path, s.last().0@));
        assert(nodes_of(s).drop_last() =~= nodes_of(s.drop_last()));
    }
}

/// The path reached from `path` by the segments `segs`.
pub open spec fn path_from(path: Seq<char>, segs: Seq<Seq<char>>) -> Seq<char>
    decreases segs.len(),
{
    if segs.len() == 0 {
        path
    } else {
        path_from(join(path, segs[0]), segs.drop_first())
    }
}

proof fn lemma_child_contains(s: Seq<(Seq<char>, Node)>, path: Seq<char>, j: int, x: (Seq<char>, FileView))
    requires
        0 <= j < s.len(),
        node_leaves(s[j].1, join(path, s[j].0)).contains(x),
    ensures
        child_node_leaves(s, path).contains(x),
    decreases s.len(),
{
    let a = child_node_leaves(s.drop_last(), path);
    let b = node_leaves(s.last().1, join(path, s.last().0));
    if j == s.len() - 1 {
        let i = choose|i: int| 0 <= i < b.len() && b[i] == x;
        assert((a + b)[a.len() + i] == x);
    } else {
        lemma_child_contains(s.drop_last(), path, j, x);
        let i = choose|i: int| 0 <= i < a.len() && a[i] == x;
        assert((a + b)[i] == x);
    }
}

proof fn lemma_concat_contains<A>(a: Seq<A>, b: Seq<A>, x: A)
    requires
        (a + b).contains(x),
    ensures
        a.contains(x) || b.contains(x),
{
    let i = choose|i: int| 0 <= i < (a + b).len() && (a + b)[i] == x;
    if i < a.len() {
        assert(a[i] == x);
    } else {
        assert(b[i - a.len()] == x);
    }
}

proof fn lemma_child_update_contains(
    s: Seq<(Seq<char>, Node)>,
    path: Seq<char>,
    k: int,
    y: Node,
    x: (Seq<char>, FileView),
)
    requires
        0 <= k < s.len(),
        child_node_leaves(s.update(k, (s[k].0, y)), path).contains(x),
    ensures
        child_node_leaves(s, path).contains(x) || node_leaves(y, join(path, s[k].0)).contains(x),
    decreases s.len(),
{
    let t = s.update(k, (s[k].0, y));
    let a = child_node_leaves(t.drop_last(), path);
    let b = node_leaves(t.last().1, join(path, t.last().0));
    lemma_concat_contains(a, b, x);
    if k == s.len() - 1 {
        assert(t.drop_last() =~= s.drop_last());
        if a.contains(x) {
            let i = choose|i: int| 0 <= i < a.len() && a[i] == x;
            assert((a + node_leaves(s.last().1, join(path, s.last().0)))[i] == x);
        }
    } else {
        assert(t.drop_last() =~= s.drop_last().update(k, (s[k].0, y)));
        let a0 = child_node_leaves(s.drop_last(), path);
        let b0 = node_leaves(s.last().1, join(path, s.last().0));
        if a.contains(x) {
            lemma_child_update_contains(s.drop_last(), path, k, y, x);
            if a0.contains(x) {
                let i = choose|i: int| 0 <= i < a0.len() && a0[i] == x;
                assert((a0 + b0)[i] == x);
            }
        } else {
            assert(t.last() == s.last());
            let i = choose|i: int| 0 <= i < b.len() && b[i] == x;
            assert((a0 + b0)[a0.len() + i] == x);
        }
    }
}

/// Every file of the tree after placing `leaf` at `segs` was there before,
/// or is `leaf` itself at the path of `segs`.
pub proof fn lemma_insert_leaves(n: Node, segs: Seq<Seq<char>>, leaf: Node, path: Seq<char>, x: (Seq<char>, FileView))
    requires
        !(leaf is Dir),
        node_leaves(insert_node(n, segs, leaf), path).contains(x),
    ensures
        node_leaves(n, path).contains(x) || (leaf matches Node::File(f) && x == (path_from(path, segs), f)),
    decreases segs.len(),
{
    if n is Dir && segs.len() > 0 {
        let s = n->Dir_0;
        let name = segs[0];
        let k = index_from(s, name, 0);
        lemma_index_from(s, name, 0);
        let rest = segs.drop_first();
        let q = join(path, name);
        if segs.len() == 1 {
            assert(rest.len() == 0);
            if k >= 0 {
                assert(insert_node(n, segs, leaf) == Node::Dir(s.update(k, (s[k].0, leaf))));
                lemma_child_update_contains(s, path, k, leaf, x);
            } else {
                assert(insert_node(n, segs, leaf) == Node::Dir(s.push((name, leaf))));
                assert(s.push((name, leaf)).drop_last() =~= s);
                lemma_concat_contains(child_node_leaves(s, path), node_leaves(leaf, q), x);
            }
            if node_leaves(leaf, q).contains(x) {
                assert(path_from(q, rest) == q);
            }
        } else {
            let child = if k >= 0 {
                s[k].1
            } else {
                Node::Dir(Seq::empty())
            };
            let y = insert_node(child, rest, leaf);
            if k >= 0 {
                assert(insert_node(n, segs, leaf) == Node::Dir(s.update(k, (s[k].0, y))));
                lemma_child_update_contains(s, path, k, y, x);
                if node_leaves(y, q).contains(x) {
                    lemma_insert_leaves(child, rest, leaf, q, x);
                    if node_leaves(child, q).contains(x) {
                        lemma_child_contains(s, path, k, x);
                    }
                }
            } else {
                assert(insert_node(n, segs, leaf) == Node::Dir(s.push((name, y))));
                assert(s.push((name, y)).drop_last() =~= s);
                lemma_concat_contains(child_node_leaves(s, path), node_leaves(y, q), x);
                if node_leaves(y, q).contains(x) {
                    lemma_insert_leaves(child, rest, leaf, q, x);
                    assert(child_node_leaves(Seq::<(Seq<char>, Node)>::empty(), q).len() == 0);
                }
            }
        }
    }
}

/// A file found at `segs` below `n` is among the files of `n`, at the path of
/// `segs`.
pub proof fn lemma_lookup_in_leaves(n: Node, segs: Seq<Seq<char>>, path: Seq<char>, f: FileView)
    requires
        lookup_node(n, segs) == Some(Node::File(f)),
    ensures
        node_leaves(n, path).contains((path_from(path, segs), f)),
    decreases segs.len(),
{
    if segs.len() == 0 {
        assert(node_leaves(n, path)[0] == (path, f));
    } else {
        let s = n->Dir_0;
        let k = index_from(s, segs[0], 0);
        lemma_index_from(s, segs[0], 0);
        lemma_lookup_in_leaves(s[k].1, segs.drop_first(), join(path, segs[0]), f);
        lemma_child_contains(s, path, k, (path_from(path, segs), f));
    }
}

/// Every file of a tree built from files and links is one of the files, at
/// the path of its segments.
pub proof fn lemma_build_leaves(es: Seq<(Seq<Seq<char>>, Node)>, path: Seq<char>, x: (Seq<char>, FileView))
    requires
        forall|i: int| 0 <= i < es.len() ==> !((#[trigger] es[i]).1 is Dir),
        node_leaves(build(es), path).contains(x),
    ensures
        exists|i: int|
            0 <= i < es.len() && (#[trigger] es[i]).1 == Node::File(x.1) && x.0 == path_from(
                path,
                es[i].0,
            ),
    decreases es.len(),
{
    if es.len() == 0 {
        assert(child_node_leaves(Seq::<(Seq<char>, Node)>::empty(), path).len() == 0);
    } else {
        let prev = es.drop_last();
        let last = es.len() - 1;
        assert(es[last] == es.last());
        lemma_insert_leaves(build(prev), es.last().0, es.last().1, path, x);
        if node_leaves(build(prev), path).contains(x) {
            assert forall|i: int| 0 <= i < prev.len() implies !((#[trigger] prev[i]).1 is Dir) by {
                assert(prev[i] == es[i]);
            }
            lemma_build_leaves(prev, path, x);
            let i = choose|i: int|
                0 <= i < prev.len() && (#[trigger] prev[i]).1 == Node::File(x.1) && x.0 == path_from(
                    path,
                    prev[i].0,
                );
            assert(prev[i] == es[i]);
        } else {
            assert(es[last].1 == Node::File(x.1));
        }
    }
}

} // verus!
