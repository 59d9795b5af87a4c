//! The directory tree: a single root directory owning its children, each
//! child owned by exactly one parent. Children are kept in insertion order
//! and have distinct names at each level.
//!
//! The mathematical model of a directory is [`DirView`]; the structural
//! operations are specified by [`lookup`], [`create`], [`remove_at`] and
//! [`attach`], and the executable methods of [`Dir`] are proved against them.

use vstd::prelude::*;

verus! {

/// One directory: a name (path segment) and its children, in insertion order.
pub struct Dir {
    pub name: String,
    pub children: Vec<Dir>,
}

/// The mathematical shape of a directory.
#[verifier::ext_equal]
pub struct DirView {
    pub name: Seq<char>,
    pub children: Seq<DirView>,
}

/// The models of a sequence of directories, in order.
pub open spec fn model_seq(cs: Seq<Dir>) -> Seq<DirView>
    decreases cs,
{
    if cs.len() == 0 {
        Seq::empty()
    } else {
        seq![cs[0].model()] + model_seq(cs.skip(1))
    }
}

impl Dir {
    /// The mathematical model of this directory.
    pub open spec fn model(&self) -> DirView
        decreases *self,
    {
        DirView { name: self.name@, children: model_seq(self.children@) }
    }
}

pub proof fn lemma_model_seq_len(cs: Seq<Dir>)
    ensures
        model_seq(cs).len() == cs.len(),
    decreases cs,
{
    if cs.len() != 0 {
        lemma_model_seq_len(cs.skip(1));
    }
}

pub proof fn lemma_model_seq_index(cs: Seq<Dir>, i: int)
    requires
        0 <= i < cs.len(),
    ensures
        model_seq(cs).len() == cs.len(),
        model_seq(cs)[i] == cs[i].model(),
    decreases cs,
{
    lemma_model_seq_len(cs);
    if i > 0 {
        lemma_model_seq_index(cs.skip(1), i - 1);
    }
}

pub proof fn lemma_model_seq_push(cs: Seq<Dir>, d: Dir)
    ensures
        model_seq(cs.push(d)) == model_seq(cs).push(d.model()),
{
    lemma_model_seq_len(cs);
    lemma_model_seq_len(cs.push(d));
    assert forall|i: int| 0 <= i < cs.len() + 1 implies model_seq(cs.push(d))[i] == model_seq(
        cs,
    ).push(d.model())[i] by {
        lemma_model_seq_index(cs.push(d), i);
        if i < cs.len() {
            lemma_model_seq_index(cs, i);
        }
    }
    assert(model_seq(cs.push(d)) =~= model_seq(cs).push(d.model()));
}

pub proof fn lemma_model_seq_update(cs: Seq<Dir>, i: int, d: Dir)
    requires
        0 <= i < cs.len(),
    ensures
        model_seq(cs.update(i, d)) == model_seq(cs).update(i, d.model()),
{
    lemma_model_seq_len(cs);
    lemma_model_seq_len(cs.update(i, d));
    assert forall|j: int| 0 <= j < cs.len() implies model_seq(cs.update(i, d))[j] == model_seq(
        cs,
    ).update(i, d.model())[j] by {
        lemma_model_seq_index(cs.update(i, d), j);
        if j != i {
            lemma_model_seq_index(cs, j);
        }
    }
    assert(model_seq(cs.update(i, d)) =~= model_seq(cs).update(i, d.model()));
}

pub proof fn lemma_model_seq_remove(cs: Seq<Dir>, i: int)
    requires
        0 <= i < cs.len(),
    ensures
        model_seq(cs.remove(i)) == model_seq(cs).remove(i),
{
    lemma_model_seq_len(cs);
    lemma_model_seq_len(cs.remove(i));
    assert forall|j: int| 0 <= j < cs.len() - 1 implies model_seq(cs.remove(i))[j] == model_seq(
        cs,
    ).remove(i)[j] by {
        lemma_model_seq_index(cs.remove(i), j);
        if j < i {
            lemma_model_seq_index(cs, j);
        } else {
            lemma_model_seq_index(cs, j + 1);
        }
    }
    assert(model_seq(cs.remove(i)) =~= model_seq(cs).remove(i));
}

/// A directory with no children.
pub open spec fn empty_dir(name: Seq<char>) -> DirView {
    DirView { name: name, children: Seq::empty() }
}

/// Whether some child is named `name`.
pub open spec fn has_child(cs: Seq<DirView>, name: Seq<char>) -> bool {
    exists|i: int| 0 <= i < cs.len() && cs[i].name == name
}

/// The index of the child named `name` (unique under [`distinct_names`]).
pub open spec fn child_index(cs: Seq<DirView>, name: Seq<char>) -> int {
    choose|i: int| 0 <= i < cs.len() && cs[i].name == name
}

/// No two children share a name.
pub open spec fn distinct_names(cs: Seq<DirView>) -> bool {
    forall|i: int, j: int| 0 <= i < j < cs.len() ==> cs[i].name != cs[j].name
}

/// Well-formed: distinct child names, at every level.
pub open spec fn wf(d: DirView) -> bool
    decreases d,
{
    &&& distinct_names(d.children)
    &&& forall|i: int| 0 <= i < d.children.len() ==> wf(#[trigger] d.children[i])
}

pub proof fn lemma_child_index_of(cs: Seq<DirView>, i: int)
    requires
        distinct_names(cs),
        0 <= i < cs.len(),
    ensures
        has_child(cs, cs[i].name),
        child_index(cs, cs[i].name) == i,
{
    assert(has_child(cs, cs[i].name));
    let j = child_index(cs, cs[i].name);
    if j != i {
        assert(cs[i].name != cs[j].name);
    }
}

/// The node reached from `d` by walking the named segments of `path`.
pub open spec fn lookup(d: DirView, path: Seq<Seq<char>>) -> Option<DirView>
    decreases path.len(),
{
    if path.len() == 0 {
        Some(d)
    } else if has_child(d.children, path[0]) {
        lookup(d.children[child_index(d.children, path[0])], path.skip(1))
    } else {
        None
    }
}

/// The tree after creating every missing directory along `path`: existing
/// segments are reused untouched, missing ones are appended as new empty
/// directories.
pub open spec fn create(d: DirView, path: Seq<Seq<char>>) -> DirView
    decreases path.len(),
{
    if path.len() == 0 {
        d
    } else if has_child(d.children, path[0]) {
        let i = child_index(d.children, path[0]);
        DirView { name: d.name, children: d.children.update(i, create(d.children[i], path.skip(1))) }
    } else {
        DirView { name: d.name, children: d.children.push(create(empty_dir(path[0]), path.skip(1))) }
    }
}

/// The tree after detaching the node at `path` with its whole subtree; the
/// tree is unchanged where `path` is empty or does not resolve.
pub open spec fn remove_at(d: DirView, path: Seq<Seq<char>>) -> DirView
    decreases path.len(),
{
    if path.len() == 0 || !has_child(d.children, path[0]) {
        d
    } else {
        let i = child_index(d.children, path[0]);
        if path.len() == 1 {
            DirView { name: d.name, children: d.children.remove(i) }
        } else {
            DirView {
                name: d.name,
                children: d.children.update(i, remove_at(d.children[i], path.skip(1))),
            }
        }
    }
}

/// The tree after appending `node` to the children of the node at `path`;
/// the tree is unchanged where `path` does not resolve.
pub open spec fn attach(d: DirView, path: Seq<Seq<char>>, node: DirView) -> DirView
    decreases path.len(),
{
    if path.len() == 0 {
        DirView { name: d.name, children: d.children.push(node) }
    } else if has_child(d.children, path[0]) {
        let i = child_index(d.children, path[0]);
        DirView {
            name: d.name,
            children: d.children.update(i, attach(d.children[i], path.skip(1), node)),
        }
    } else {
        d
    }
}

/// Resolution walks concatenated paths in two stages.
pub proof fn lemma_lookup_concat(d: DirView, p: Seq<Seq<char>>, q: Seq<Seq<char>>)
    ensures
        lookup(d, p + q) == (match lookup(d, p) {
            Some(m) => lookup(m, q),
            None => None::<DirView>,
        }),
    decreases p.len(),
{
    if p.len() == 0 {
        assert(p + q =~= q);
    } else {
        assert((p + q).len() > 0);
        assert((p + q)[0] == p[0]);
        if has_child(d.children, p[0]) {
            let i = child_index(d.children, p[0]);
            assert((p + q).skip(1) =~= p.skip(1) + q);
            lemma_lookup_concat(d.children[i], p.skip(1), q);
        }
    }
}

/// Every prefix of a path that resolves also resolves.
pub proof fn lemma_lookup_prefix(d: DirView, p: Seq<Seq<char>>, q: Seq<Seq<char>>)
    requires
        lookup(d, p) is Some,
        q.is_prefix_of(p),
    ensures
        lookup(d, q) is Some,
{
    assert(p =~= q + p.skip(q.len() as int));
    lemma_lookup_concat(d, q, p.skip(q.len() as int));
}

/// Resolution reaches only well-formed nodes of a well-formed tree.
pub proof fn lemma_lookup_wf(d: DirView, p: Seq<Seq<char>>)
    requires
        wf(d),
        lookup(d, p) is Some,
    ensures
        wf(lookup(d, p).unwrap()),
    decreases p.len(),
{
    if p.len() > 0 {
        let i = child_index(d.children, p[0]);
        assert(wf(d.children[i]));
        lemma_lookup_wf(d.children[i], p.skip(1));
    }
}

/// A resolved node is named by the last segment of its path.
pub proof fn lemma_lookup_name(d: DirView, p: Seq<Seq<char>>)
    requires
        p.len() > 0,
        lookup(d, p) is Some,
    ensures
        lookup(d, p).unwrap().name == p.last(),
    decreases p.len(),
{
    let i = child_index(d.children, p[0]);
    if p.len() == 1 {
        assert(p.skip(1) =~= Seq::<Seq<char>>::empty());
    } else {
        lemma_lookup_name(d.children[i], p.skip(1));
        assert(p.skip(1).last() == p.last());
    }
}

/// Creating keeps the tree well-formed, and never renames the node it
/// starts from.
pub proof fn lemma_create_wf(d: DirView, p: Seq<Seq<char>>)
    requires
        wf(d),
    ensures
        wf(create(d, p)),
        create(d, p).name == d.name,
    decreases p.len(),
{
    if p.len() > 0 {
        let c1 = create(d, p);
        if has_child(d.children, p[0]) {
            let i = child_index(d.children, p[0]);
            assert(wf(d.children[i]));
            lemma_create_wf(d.children[i], p.skip(1));
            assert forall|a: int, b: int| 0 <= a < b < c1.children.len() implies c1.children[a].name
                != c1.children[b].name by {
                assert(c1.children[a].name == d.children[a].name);
                assert(c1.children[b].name == d.children[b].name);
            }
            assert forall|j: int| 0 <= j < c1.children.len() implies wf(#[trigger] c1.children[j]) by {
                if j != i {
                    assert(wf(d.children[j]));
                }
            }
        } else {
            assert(wf(empty_dir(p[0])));
            lemma_create_wf(empty_dir(p[0]), p.skip(1));
            assert forall|a: int, b: int| 0 <= a < b < c1.children.len() implies c1.children[a].name
                != c1.children[b].name by {
                if b < d.children.len() {
                    assert(c1.children[a].name == d.children[a].name);
                    assert(c1.children[b].name == d.children[b].name);
                } else {
                    assert(c1.children[a].name == d.children[a].name);
                    assert(c1.children[b].name == p[0]);
                    assert(!(exists|k: int|
                        0 <= k < d.children.len() && d.children[k].name == p[0]));
                }
            }
            assert forall|j: int| 0 <= j < c1.children.len() implies wf(#[trigger] c1.children[j]) by {
                if j < d.children.len() {
                    assert(wf(d.children[j]));
                }
            }
        }
    }
}

/// Detaching keeps the tree well-formed, and never renames the node it
/// starts from.
pub proof fn lemma_remove_at_wf(d: DirView, p: Seq<Seq<char>>)
    requires
        wf(d),
    ensures
        wf(remove_at(d, p)),
        remove_at(d, p).name == d.name,
    decreases p.len(),
{
    if p.len() > 0 && has_child(d.children, p[0]) {
        let i = child_index(d.children, p[0]);
        let c1 = remove_at(d, p);
        if p.len() == 1 {
            assert forall|a: int, b: int| 0 <= a < b < c1.children.len() implies c1.children[a].name
                != c1.children[b].name by {
                let a0: int = if a < i {
                    a
                } else {
                    a + 1
                };
                let b0: int = if b < i {
                    b
                } else {
                    b + 1
                };
                assert(c1.children[a] == d.children[a0]);
                assert(c1.children[b] == d.children[b0]);
            }
            assert forall|j: int| 0 <= j < c1.children.len() implies wf(#[trigger] c1.children[j]) by {
                if j < i {
                    assert(wf(d.children[j]));
                } else {
                    assert(wf(d.children[j + 1]));
                }
            }
        } else {
            assert(wf(d.children[i]));
            lemma_remove_at_wf(d.children[i], p.skip(1));
            assert forall|a: int, b: int| 0 <= a < b < c1.children.len() implies c1.children[a].name
                != c1.children[b].name by {
                assert(c1.children[a].name == d.children[a].name);
                assert(c1.children[b].name == d.children[b].name);
            }
            assert forall|j: int| 0 <= j < c1.children.len() implies wf(#[trigger] c1.children[j]) by {
                if j != i {
                    assert(wf(d.children[j]));
                }
            }
        }
    }
}

/// Attaching a well-formed node whose name is new among the target's
/// children keeps the tree well-formed, and never renames the node the
/// attachment starts from.
pub proof fn lemma_attach_wf(d: DirView, p: Seq<Seq<char>>, node: DirView)
    requires
        wf(d),
        wf(node),
        lookup(d, p) matches Some(m) ==> !has_child(m.children, node.name),
    ensures
        wf(attach(d, p, node)),
        attach(d, p, node).name == d.name,
    decreases p.len(),
{
    let c1 = attach(d, p, node);
    if p.len() == 0 {
        assert(lookup(d, p) == Some(d));
        assert forall|a: int, b: int| 0 <= a < b < c1.children.len() implies c1.children[a].name
            != c1.children[b].name by {
            if b < d.children.len() {
                assert(c1.children[a] == d.children[a]);
                assert(c1.children[b] == d.children[b]);
            } else {
                assert(c1.children[a] == d.children[a]);
                assert(c1.children[b] == node);
                assert(!(exists|k: int|
                    0 <= k < d.children.len() && d.children[k].name == node.name));
            }
        }
        assert forall|j: int| 0 <= j < c1.children.len() implies wf(#[trigger] c1.children[j]) by {
            if j < d.children.len() {
                assert(wf(d.children[j]));
            }
        }
    } else if has_child(d.children, p[0]) {
        let i = child_index(d.children, p[0]);
        assert(wf(d.children[i]));
        lemma_attach_wf(d.children[i], p.skip(1), node);
        assert forall|a: int, b: int| 0 <= a < b < c1.children.len() implies c1.children[a].name
            != c1.children[b].name by {
            assert(c1.children[a].name == d.children[a].name);
            assert(c1.children[b].name == d.children[b].name);
        }
        assert forall|j: int| 0 <= j < c1.children.len() implies wf(#[trigger] c1.children[j]) by {
            if j != i {
                assert(wf(d.children[j]));
            }
        }
    }
}

/// Detaching never renames the node the detachment starts from.
pub proof fn lemma_remove_at_name(d: DirView, p: Seq<Seq<char>>)
    ensures
        remove_at(d, p).name == d.name,
{
}

/// Detaching a subtree removes it entirely: nothing at the detached path or
/// below it resolves afterwards.
pub proof fn lemma_remove_at_prunes(d: DirView, s: Seq<Seq<char>>, q: Seq<Seq<char>>)
    requires
        wf(d),
        s.len() > 0,
        s.is_prefix_of(q),
    ensures
        lookup(remove_at(d, s), q) is None,
    decreases s.len(),
{
    let c1 = remove_at(d, s);
    assert(q[0] == q.take(s.len() as int)[0]);
    assert(q[0] == s[0]);
    if !has_child(d.children, s[0]) {
        assert(lookup(d, q) is None);
    } else {
        let i = child_index(d.children, s[0]);
        lemma_remove_at_wf(d, s);
        if s.len() == 1 {
            assert forall|k: int| 0 <= k < c1.children.len() implies c1.children[k].name
                != q[0] by {
                let k0: int = if k < i {
                    k
                } else {
                    k + 1
                };
                assert(c1.children[k] == d.children[k0]);
                if k0 != i {
                    assert(d.children[k0].name != d.children[i].name || k0 == i);
                }
            }
            assert(!has_child(c1.children, q[0]));
        } else {
            assert(wf(d.children[i]));
            lemma_remove_at_name(d.children[i], s.skip(1));
            assert forall|a: int, b: int| 0 <= a < b < c1.children.len() implies c1.children[a].name
                != c1.children[b].name by {
                assert(c1.children[a].name == d.children[a].name);
                assert(c1.children[b].name == d.children[b].name);
            }
            assert(c1.children[i].name == q[0]);
            lemma_child_index_of(c1.children, i);
            assert(child_index(c1.children, q[0]) == i);
            lemma_remove_at_prunes(d.children[i], s.skip(1), q.skip(1));
            assert(s.skip(1).is_prefix_of(q.skip(1))) by {
                assert(s.skip(1) =~= q.skip(1).take(s.len() - 1));
            }
            assert(lookup(c1, q) == lookup(c1.children[i], q.skip(1)));
        }
    }
}

/// Detaching one subtree leaves every path it does not cover resolvable,
/// and adds no child name anywhere.
pub proof fn lemma_remove_at_elsewhere(d: DirView, s: Seq<Seq<char>>, q: Seq<Seq<char>>)
    requires
        wf(d),
        s.len() > 0,
        lookup(d, q) is Some,
        !s.is_prefix_of(q),
    ensures
        lookup(remove_at(d, s), q) is Some,
        forall|n: Seq<char>|
            has_child(#[trigger] lookup(remove_at(d, s), q).unwrap().children, n) ==> has_child(
                lookup(d, q).unwrap().children,
                n,
            ),
    decreases s.len(),
{
    let c1 = remove_at(d, s);
    if !has_child(d.children, s[0]) {
        assert(c1 == d);
    } else {
        let i = child_index(d.children, s[0]);
        lemma_remove_at_wf(d, s);
        if q.len() == 0 {
            assert(lookup(c1, q) == Some(c1));
            if s.len() == 1 {
                assert forall|n: Seq<char>| has_child(#[trigger] c1.children, n) implies has_child(
                    d.children,
                    n,
                ) by {
                    let k = choose|k: int| 0 <= k < c1.children.len() && c1.children[k].name == n;
                    let k0: int = if k < i {
                        k
                    } else {
                        k + 1
                    };
                    assert(c1.children[k] == d.children[k0]);
                }
            } else {
                lemma_remove_at_name(d.children[i], s.skip(1));
                assert forall|n: Seq<char>| has_child(#[trigger] c1.children, n) implies has_child(
                    d.children,
                    n,
                ) by {
                    let k = choose|k: int| 0 <= k < c1.children.len() && c1.children[k].name == n;
                    assert(c1.children[k].name == d.children[k].name);
                }
            }
        } else if q[0] != s[0] {
            let j = child_index(d.children, q[0]);
            assert(d.children[j].name == q[0]);
            assert(j != i);
            if s.len() == 1 {
                let j1: int = if j < i {
                    j
                } else {
                    j - 1
                };
                assert(c1.children[j1] == d.children[j]);
                lemma_child_index_of(c1.children, j1);
                assert(lookup(c1, q) == lookup(d.children[j], q.skip(1)));
            } else {
                assert(c1.children[j] == d.children[j]);
                assert(c1.children[j].name == q[0]);
                lemma_child_index_of(c1.children, j);
                assert(lookup(c1, q) == lookup(d.children[j], q.skip(1)));
            }
            assert(lookup(c1, q) == lookup(d, q));
        } else {
            // Both paths descend into the same child.
            if s.len() == 1 {
                assert(s.is_prefix_of(q)) by {
                    assert(s =~= q.take(1));
                }
                assert(false);
            } else {
                assert(wf(d.children[i]));
                assert(lookup(d, q) == lookup(d.children[i], q.skip(1)));
                assert(!s.skip(1).is_prefix_of(q.skip(1))) by {
                    if s.skip(1).is_prefix_of(q.skip(1)) {
                        assert forall|k: int| 0 <= k < s.len() implies s[k] == q.take(
                            s.len() as int,
                        )[k] by {
                            if k > 0 {
                                assert(s.skip(1)[k - 1] == q.skip(1).take(s.len() as int - 1)[k
                                    - 1]);
                            }
                        }
                        assert(s =~= q.take(s.len() as int));
                    }
                }
                lemma_remove_at_elsewhere(d.children[i], s.skip(1), q.skip(1));
                assert(c1.children[i] == remove_at(d.children[i], s.skip(1)));
                lemma_remove_at_name(d.children[i], s.skip(1));
                assert(c1.children[i].name == s[0]);
                lemma_child_index_of(c1.children, i);
                assert(lookup(c1, q) == lookup(c1.children[i], q.skip(1)));
            }
        }
    }
}

/// Attaching never renames the node the attachment starts from.
pub proof fn lemma_attach_name(d: DirView, p: Seq<Seq<char>>, node: DirView)
    ensures
        attach(d, p, node).name == d.name,
{
}

/// Attaching appends the node to the children of exactly the target.
pub proof fn lemma_attach_target(d: DirView, q: Seq<Seq<char>>, node: DirView)
    requires
        wf(d),
        lookup(d, q) is Some,
    ensures
        lookup(attach(d, q, node), q) == Some(
            DirView {
                name: lookup(d, q).unwrap().name,
                children: lookup(d, q).unwrap().children.push(node),
            },
        ),
    decreases q.len(),
{
    let c1 = attach(d, q, node);
    if q.len() == 0 {
        assert(lookup(c1, q) == Some(c1));
        assert(c1 =~= DirView { name: d.name, children: d.children.push(node) });
    } else {
        let i = child_index(d.children, q[0]);
        assert(wf(d.children[i]));
        lemma_attach_name(d.children[i], q.skip(1), node);
        assert forall|a: int, b: int| 0 <= a < b < c1.children.len() implies c1.children[a].name
            != c1.children[b].name by {
            assert(c1.children[a].name == d.children[a].name);
            assert(c1.children[b].name == d.children[b].name);
        }
        assert(c1.children[i].name == q[0]);
        lemma_child_index_of(c1.children, i);
        lemma_attach_target(d.children[i], q.skip(1), node);
        assert(lookup(c1, q) == lookup(c1.children[i], q.skip(1)));
    }
}

/// Attaching a freshly named node opens no path but those through the new
/// node: a path that did not resolve, and does not pass through the
/// attachment point under the node's name, still does not resolve.
pub proof fn lemma_attach_none(d: DirView, q: Seq<Seq<char>>, node: DirView, r: Seq<Seq<char>>)
    requires
        wf(d),
        lookup(d, q) matches Some(m) && !has_child(m.children, node.name),
        lookup(d, r) is None,
        !q.push(node.name).is_prefix_of(r),
    ensures
        lookup(attach(d, q, node), r) is None,
    decreases q.len(),
{
    let c1 = attach(d, q, node);
    assert(r.len() > 0);
    if q.len() == 0 {
        assert(lookup(d, q) == Some(d));
        if r[0] == node.name {
            assert(q.push(node.name) =~= r.take(1));
            assert(false);
        } else {
            if has_child(c1.children, r[0]) {
                let k = child_index(c1.children, r[0]);
                assert(c1.children[k].name == r[0]);
                assert(k < d.children.len());
                assert(c1.children[k] == d.children[k]);
                lemma_child_index_of(d.children, k);
                assert(lookup(d, r) == lookup(d.children[k], r.skip(1)));
                assert(lookup(c1, r) == lookup(c1.children[k], r.skip(1)));
            }
        }
    } else if has_child(d.children, q[0]) {
        let i = child_index(d.children, q[0]);
        assert(wf(d.children[i]));
        lemma_attach_name(d.children[i], q.skip(1), node);
        assert forall|a: int, b: int| 0 <= a < b < c1.children.len() implies c1.children[a].name
            != c1.children[b].name by {
            assert(c1.children[a].name == d.children[a].name);
            assert(c1.children[b].name == d.children[b].name);
        }
        if r[0] == q[0] {
            assert(lookup(d, r) == lookup(d.children[i], r.skip(1)));
            assert(!q.skip(1).push(node.name).is_prefix_of(r.skip(1))) by {
                if q.skip(1).push(node.name).is_prefix_of(r.skip(1)) {
                    let a = q.push(node.name);
                    let b = r.take(q.len() as int + 1);
                    assert forall|k: int| 0 <= k < a.len() implies a[k] == b[k] by {
                        if k > 0 {
                            assert(q.skip(1).push(node.name)[k - 1] == r.skip(1).take(
                                q.len() as int,
                            )[k - 1]);
                        }
                    }
                    assert(a =~= b);
                }
            }
            lemma_attach_none(d.children[i], q.skip(1), node, r.skip(1));
            assert(c1.children[i].name == q[0]);
            lemma_child_index_of(c1.children, i);
            assert(lookup(c1, r) == lookup(c1.children[i], r.skip(1)));
        } else {
            if has_child(c1.children, r[0]) {
                let k = child_index(c1.children, r[0]);
                assert(c1.children[k].name == r[0]);
                assert(k != i);
                assert(c1.children[k] == d.children[k]);
                lemma_child_index_of(d.children, k);
                assert(lookup(d, r) == lookup(d.children[k], r.skip(1)));
                assert(lookup(c1, r) == lookup(c1.children[k], r.skip(1)));
            }
        }
    }
}

/// Creating a path is idempotent: creating it a second time leaves the tree
/// exactly as one creation left it.
pub proof fn lemma_create_idempotent(d: DirView, p: Seq<Seq<char>>)
    requires
        wf(d),
    ensures
        create(create(d, p), p) == create(d, p),
    decreases p.len(),
{
    if p.len() > 0 {
        lemma_create_wf(d, p);
        let c1 = create(d, p);
        if has_child(d.children, p[0]) {
            let i = child_index(d.children, p[0]);
            assert(wf(d.children[i]));
            lemma_create_wf(d.children[i], p.skip(1));
            assert(c1.children[i].name == p[0]);
            lemma_child_index_of(c1.children, i);
            lemma_create_idempotent(d.children[i], p.skip(1));
            assert(c1.children.update(i, create(c1.children[i], p.skip(1))) =~= c1.children);
            assert(create(c1, p) =~= c1);
        } else {
            let i = d.children.len() as int;
            assert(wf(empty_dir(p[0])));
            lemma_create_wf(empty_dir(p[0]), p.skip(1));
            assert(c1.children[i].name == p[0]);
            lemma_child_index_of(c1.children, i);
            lemma_create_idempotent(empty_dir(p[0]), p.skip(1));
            assert(c1.children.update(i, create(c1.children[i], p.skip(1))) =~= c1.children);
            assert(create(c1, p) =~= c1);
        }
    }
}

/// Creating a path creates all its missing ancestors too: afterwards every
/// prefix of the path resolves.
pub proof fn lemma_create_ancestors(d: DirView, p: Seq<Seq<char>>, q: Seq<Seq<char>>)
    requires
        wf(d),
        q.is_prefix_of(p),
    ensures
        lookup(create(d, p), q) is Some,
    decreases p.len(),
{
    if q.len() > 0 {
        let c1 = create(d, p);
        assert(p.len() > 0);
        assert(q[0] == p[0]) by {
            assert(q[0] == p.take(q.len() as int)[0]);
        }
        assert(q.skip(1).is_prefix_of(p.skip(1))) by {
            assert(q.skip(1) =~= p.skip(1).take(q.len() - 1));
        }
        lemma_create_wf(d, p);
        if has_child(d.children, p[0]) {
            let i = child_index(d.children, p[0]);
            assert(wf(d.children[i]));
            lemma_create_wf(d.children[i], p.skip(1));
            assert(c1.children[i].name == p[0]);
            lemma_child_index_of(c1.children, i);
            lemma_create_ancestors(d.children[i], p.skip(1), q.skip(1));
            assert(lookup(c1, q) == lookup(c1.children[i], q.skip(1)));
        } else {
            let i = d.children.len() as int;
            assert(wf(empty_dir(p[0])));
            lemma_create_wf(empty_dir(p[0]), p.skip(1));
            assert(c1.children[i].name == p[0]);
            lemma_child_index_of(c1.children, i);
            lemma_create_ancestors(empty_dir(p[0]), p.skip(1), q.skip(1));
            assert(lookup(c1, q) == lookup(c1.children[i], q.skip(1)));
        }
    }
}

/// A successful move preserves the moved directory's basename and relocates
/// its whole subtree unchanged: afterwards the node resolves as a child of
/// the destination, under its old name and with its old children, and no
/// longer resolves at its source.
pub proof fn lemma_move_relocates(t: DirView, s: Seq<Seq<char>>, d: Seq<Seq<char>>)
    requires
        wf(t),
        s.len() > 0,
        lookup(t, s) is Some,
        lookup(t, d) is Some,
        !s.is_prefix_of(d),
        !has_child(lookup(t, d).unwrap().children, s.last()),
    ensures
        lookup(attach(remove_at(t, s), d, lookup(t, s).unwrap()), d.push(s.last())) == lookup(t, s),
        lookup(attach(remove_at(t, s), d, lookup(t, s).unwrap()), s) is None,
{
    let node = lookup(t, s).unwrap();
    let t1 = remove_at(t, s);
    let t2 = attach(t1, d, node);
    lemma_lookup_name(t, s);
    lemma_remove_at_wf(t, s);
    lemma_remove_at_elsewhere(t, s, d);
    let m1 = lookup(t1, d).unwrap();
    assert(!has_child(m1.children, node.name));
    lemma_attach_target(t1, d, node);
    assert(lookup(t2, d) == Some(DirView { name: m1.name, children: m1.children.push(node) }));

    // The node resolves as a child of the destination, unchanged.
    lemma_lookup_concat(t2, d, seq![node.name]);
    assert(d + seq![node.name] =~= d.push(s.last()));
    let m2 = lookup(t2, d).unwrap();
    assert(m2.children[m2.children.len() - 1] == node);
    assert(distinct_names(m2.children)) by {
        lemma_lookup_wf(t1, d);
        assert forall|a: int, b: int| 0 <= a < b < m2.children.len() implies m2.children[a].name
            != m2.children[b].name by {
            if b < m1.children.len() {
                assert(m2.children[a] == m1.children[a]);
                assert(m2.children[b] == m1.children[b]);
            } else {
                assert(m2.children[b] == node);
                assert(!(exists|k: int|
                    0 <= k < m1.children.len() && m1.children[k].name == node.name));
                assert(m2.children[a] == m1.children[a]);
            }
        }
    }
    lemma_child_index_of(m2.children, m2.children.len() - 1);
    assert(lookup(m2, seq![node.name]) == Some(node)) by {
        assert(seq![node.name][0] == node.name);
        assert(has_child(m2.children, node.name));
        assert(child_index(m2.children, node.name) == m2.children.len() - 1);
        assert(seq![node.name].skip(1) =~= Seq::<Seq<char>>::empty());
        assert(lookup(node, Seq::<Seq<char>>::empty()) == Some(node));
    }

    // Nothing resolves at the source any more.
    lemma_remove_at_prunes(t, s, s);
    assert(!d.push(node.name).is_prefix_of(s)) by {
        if d.push(node.name).is_prefix_of(s) {
            lemma_lookup_prefix(t, s, d.push(node.name));
            lemma_lookup_concat(t, d, seq![node.name]);
            assert(d + seq![node.name] =~= d.push(node.name));
            let md = lookup(t, d).unwrap();
            assert(lookup(md, seq![node.name]) is Some);
            assert(has_child(md.children, node.name));
        }
    }
    lemma_attach_none(t1, d, node, s);
}

impl Dir {
    /// A directory with the given name and no children.
    pub fn empty(name: String) -> (d: Dir)
        ensures
            d.model() == empty_dir(name@),
    {
        let d = Dir { name, children: Vec::new() };
        proof {
            assert(d.model() =~= empty_dir(d.name@));
        }
        d
    }

    /// The position of the child named `name`, if any.
    fn find_child(&self, name: &String) -> (r: Option<usize>)
        ensures
            match r {
                Some(i) => {
                    &&& i < self.children@.len()
                    &&& i < self.model().children.len()
                    &&& self.model().children[i as int].name == name@
                    &&& has_child(self.model().children, name@)
                },
                None => !has_child(self.model().children, name@),
            },
    {
        proof {
            lemma_model_seq_len(self.children@);
        }
        let n = self.children.len();
        let mut i: usize = 0;
        while i < n
            invariant
                n == self.children@.len(),
                i <= n,
                model_seq(self.children@).len() == n,
                forall|k: int| 0 <= k < i ==> self.model().children[k].name != name@,
            decreases n - i,
        {
            proof {
                lemma_model_seq_index(self.children@, i as int);
            }
            if self.children[i].name == *name {
                proof {
                    assert(self.model().children[i as int].name == name@);
                }
                return Some(i);
            }
            i = i + 1;
        }
        None
    }

    /// Whether this directory has a child named `name`.
    pub fn has_child_named(&self, name: &String) -> (r: bool)
        ensures
            r == has_child(self.model().children, name@),
    {
        match self.find_child(name) {
            Some(i) => {
                proof {
                    assert(has_child(self.model().children, name@));
                }
                true
            },
            None => false,
        }
    }

    /// Creates every missing directory along `segs[k..]`, reusing existing
    /// ones; never fails.
    pub fn create_path(&mut self, segs: &Vec<String>, k: usize)
        requires
            k <= segs@.len(),
            wf(old(self).model()),
        ensures
            final(self).model() == create(old(self).model(), segs.deep_view().skip(k as int)),
        decreases segs@.len() - k,
    {
        let ghost m0 = self.model();
        let ghost p = segs.deep_view().skip(k as int);
        if k == segs.len() {
            proof {
                assert(p =~= Seq::<Seq<char>>::empty());
            }
            return;
        }
        proof {
            assert(p[0] == segs@[k as int]@);
            assert(p.skip(1) =~= segs.deep_view().skip(k as int + 1));
        }
        match self.find_child(&segs[k]) {
            Some(i) => {
                proof {
                    lemma_child_index_of(m0.children, i as int);
                    lemma_model_seq_index(self.children@, i as int);
                }
                let ghost cs0 = self.children@;
                let mut child = self.children.remove(i);
                child.create_path(segs, k + 1);
                self.children.insert(i, child);
                proof {
                    assert(self.children@ =~= cs0.update(i as int, self.children@[i as int]));
                    lemma_model_seq_update(cs0, i as int, self.children@[i as int]);
                    assert(self.model() =~= create(m0, p));
                }
            },
            None => {
                let mut child = Dir::empty(segs[k].clone());
                child.create_path(segs, k + 1);
                let ghost cs0 = self.children@;
                self.children.push(child);
                proof {
                    lemma_model_seq_push(cs0, self.children@[cs0.len() as int]);
                    assert(self.model() =~= create(m0, p));
                }
            },
        }
    }

    /// The directory at `segs[k..]`, where the path resolves.
    pub fn lookup_at<'a>(&'a self, segs: &Vec<String>, k: usize) -> (r: Option<&'a Dir>)
        requires
            k <= segs@.len(),
            wf(self.model()),
        ensures
            match r {
                Some(node) => lookup(self.model(), segs.deep_view().skip(k as int)) == Some(
                    node.model(),
                ),
                None => lookup(self.model(), segs.deep_view().skip(k as int)) is None,
            },
        decreases segs@.len() - k,
    {
        let ghost p = segs.deep_view().skip(k as int);
        if k == segs.len() {
            proof {
                assert(p =~= Seq::<Seq<char>>::empty());
            }
            return Some(self);
        }
        proof {
            assert(p[0] == segs@[k as int]@);
            assert(p.skip(1) =~= segs.deep_view().skip(k as int + 1));
        }
        match self.find_child(&segs[k]) {
            Some(i) => {
                proof {
                    lemma_child_index_of(self.model().children, i as int);
                    lemma_model_seq_index(self.children@, i as int);
                }
                self.children[i].lookup_at(segs, k + 1)
            },
            None => None,
        }
    }

    /// Detaches the node at `segs[k..]` and returns it with its whole
    /// subtree; `None` (tree unchanged) where the path does not resolve.
    /// The path is non-empty: the root itself is never detached.
    pub fn remove_path(&mut self, segs: &Vec<String>, k: usize) -> (r: Option<Dir>)
        requires
            k < segs@.len(),
            wf(old(self).model()),
        ensures
            final(self).model() == remove_at(old(self).model(), segs.deep_view().skip(k as int)),
            match r {
                Some(node) => lookup(old(self).model(), segs.deep_view().skip(k as int)) == Some(
                    node.model(),
                ),
                None => lookup(old(self).model(), segs.deep_view().skip(k as int)) is None,
            },
        decreases segs@.len() - k,
    {
        let ghost m0 = self.model();
        let ghost p = segs.deep_view().skip(k as int);
        proof {
            assert(p[0] == segs@[k as int]@);
            assert(p.skip(1) =~= segs.deep_view().skip(k as int + 1));
        }
        match self.find_child(&segs[k]) {
            None => None,
            Some(i) => {
                proof {
                    lemma_child_index_of(m0.children, i as int);
                    lemma_model_seq_index(self.children@, i as int);
                }
                let ghost cs0 = self.children@;
                if k == segs.len() - 1 {
                    let node = self.children.remove(i);
                    proof {
                        lemma_model_seq_remove(cs0, i as int);
                        assert(self.model() =~= remove_at(m0, p));
                        assert(p.skip(1) =~= Seq::<Seq<char>>::empty());
                        assert(lookup(m0.children[i as int], p.skip(1)) == Some(
                            m0.children[i as int],
                        ));
                    }
                    Some(node)
                } else {
                    let mut child = self.children.remove(i);
                    let r = child.remove_path(segs, k + 1);
                    self.children.insert(i, child);
                    proof {
                        assert(self.children@ =~= cs0.update(i as int, self.children@[i as int]));
                        lemma_model_seq_update(cs0, i as int, self.children@[i as int]);
                        assert(self.model() =~= remove_at(m0, p));
                    }
                    r
                }
            },
        }
    }

    /// Appends `node` to the children of the directory at `segs[k..]`.
    /// Returns whether the path resolved; otherwise the tree is unchanged
    /// and `node` is discarded.
    pub fn attach_path(&mut self, segs: &Vec<String>, k: usize, node: Dir) -> (ok: bool)
        requires
            k <= segs@.len(),
            wf(old(self).model()),
        ensures
            final(self).model() == attach(
                old(self).model(),
                segs.deep_view().skip(k as int),
                node.model(),
            ),
            ok == (lookup(old(self).model(), segs.deep_view().skip(k as int)) is Some),
        decreases segs@.len() - k,
    {
        let ghost m0 = self.model();
        let ghost p = segs.deep_view().skip(k as int);
        if k == segs.len() {
            proof {
                assert(p =~= Seq::<Seq<char>>::empty());
            }
            let ghost cs0 = self.children@;
            self.children.push(node);
            proof {
                lemma_model_seq_push(cs0, self.children@[cs0.len() as int]);
                assert(self.model() =~= attach(m0, p, node.model()));
            }
            return true;
        }
        proof {
            assert(p[0] == segs@[k as int]@);
            assert(p.skip(1) =~= segs.deep_view().skip(k as int + 1));
        }
        match self.find_child(&segs[k]) {
            None => false,
            Some(i) => {
                proof {
                    lemma_child_index_of(m0.children, i as int);
                    lemma_model_seq_index(self.children@, i as int);
                }
                let ghost cs0 = self.children@;
                let mut child = self.children.remove(i);
                let ok = child.attach_path(segs, k + 1, node);
                self.children.insert(i, child);
                proof {
                    assert(self.children@ =~= cs0.update(i as int, self.children@[i as int]));
                    lemma_model_seq_update(cs0, i as int, self.children@[i as int]);
                    assert(self.model() =~= attach(m0, p, node.model()));
                }
                ok
            },
        }
    }
}

} // verus!
