//! The hierarchy listing: the subtree under a directory rendered as an
//! indented outline, one directory name per line, pre-order and depth-first,
//! each line prefixed by two spaces per level of depth below the listing
//! root. The listing root itself is not rendered, only its descendants.

use crate::tree::{lemma_model_seq_index, lemma_model_seq_len, model_seq, Dir, DirView};
use vstd::prelude::*;

verus! {

/// `n` spaces.
pub open spec fn spaces(n: nat) -> Seq<char>
    decreases n,
{
    if n == 0 {
        Seq::empty()
    } else {
        spaces((n - 1) as nat).push(' ')
    }
}

/// The line for a directory listed at `depth`: `2 * depth` spaces, then the
/// directory's name.
pub open spec fn line_at(name: Seq<char>, depth: nat) -> Seq<char> {
    spaces(2 * depth) + name
}

/// The lines for a sequence of sibling directories at `depth`: each one's
/// line, then its own subtree's lines, before the next sibling.
pub open spec fn lines_of_children(cs: Seq<DirView>, depth: nat) -> Seq<Seq<char>>
    decreases cs,
{
    if cs.len() == 0 {
        Seq::empty()
    } else {
        seq![line_at(cs[0].name, depth)] + lines_of_children(cs[0].children, depth + 1)
            + lines_of_children(cs.skip(1), depth)
    }
}

/// The full listing of the subtree rooted at `d`, whose descendants start at
/// `depth`.
pub open spec fn lines_of(d: DirView, depth: nat) -> Seq<Seq<char>> {
    lines_of_children(d.children, depth)
}

proof fn lemma_lines_concat(a: Seq<DirView>, b: Seq<DirView>, depth: nat)
    ensures
        lines_of_children(a + b, depth) == lines_of_children(a, depth) + lines_of_children(
            b,
            depth,
        ),
    decreases a,
{
    if a.len() == 0 {
        assert(a + b =~= b);
        assert(lines_of_children(a, depth) + lines_of_children(b, depth) =~= lines_of_children(
            b,
            depth,
        ));
    } else {
        assert((a + b).len() != 0);
        assert((a + b)[0] == a[0]);
        assert((a + b).skip(1) =~= a.skip(1) + b);
        lemma_lines_concat(a.skip(1), b, depth);
        assert(lines_of_children(a + b, depth) =~= lines_of_children(a, depth)
            + lines_of_children(b, depth));
    }
}

proof fn lemma_spaces_step(n: nat)
    ensures
        spaces(n + 2) == spaces(n).push(' ').push(' '),
{
    assert(spaces(n + 2) == spaces(n + 1).push(' '));
    assert(spaces(n + 1) == spaces(n).push(' '));
}

/// Appends one line per descendant of `d`: pre-order, children in insertion
/// order, indented two further spaces per level.
fn render_into(d: &Dir, indent: &String, out: &mut Vec<String>, Ghost(depth): Ghost<nat>)
    requires
        indent@ == spaces(2 * depth),
    ensures
        final(out).deep_view() == old(out).deep_view() + lines_of(d.model(), depth),
    decreases *d,
{
    let ghost out0 = out.deep_view();
    let ghost csm = model_seq(d.children@);
    proof {
        lemma_model_seq_len(d.children@);
    }
    let mut child_indent = indent.clone();
    child_indent.append("  ");
    proof {
        reveal_strlit("  ");
        lemma_spaces_step(2 * depth);
        assert(child_indent@ =~= spaces(2 * (depth + 1)));
        assert(csm.take(0) =~= Seq::<DirView>::empty());
        assert(out.deep_view() =~= out0 + lines_of_children(csm.take(0), depth));
    }
    let n = d.children.len();
    let mut i: usize = 0;
    while i < n
        invariant
            n == d.children@.len(),
            i <= n,
            csm == model_seq(d.children@),
            csm.len() == n,
            indent@ == spaces(2 * depth),
            child_indent@ == spaces(2 * (depth + 1)),
            out.deep_view() == out0 + lines_of_children(csm.take(i as int), depth),
        decreases n - i,
    {
        proof {
            lemma_model_seq_index(d.children@, i as int);
        }
        let child = &d.children[i];
        let mut line = indent.clone();
        line.append(child.name.as_str());
        let ghost mid = out.deep_view();
        out.push(line);
        proof {
            assert(out.deep_view() =~= mid.push(line@));
        }
        render_into(child, &child_indent, out, Ghost(depth + 1));
        proof {
            let one = seq![csm[i as int]];
            lemma_lines_concat(csm.take(i as int), one, depth);
            assert(csm.take(i as int) + one =~= csm.take(i + 1));
            assert(one.skip(1) =~= Seq::<DirView>::empty());
            assert(lines_of_children(Seq::<DirView>::empty(), depth) =~= Seq::<Seq<char>>::empty());
            assert(lines_of_children(one, depth) == seq![line_at(one[0].name, depth)]
                + lines_of_children(one[0].children, depth + 1) + lines_of_children(
                one.skip(1),
                depth,
            ));
            assert(lines_of_children(one, depth) =~= seq![line_at(csm[i as int].name, depth)]
                + lines_of_children(csm[i as int].children, depth + 1));
            assert(line@ == line_at(csm[i as int].name, depth));
            assert(out.deep_view() =~= out0 + lines_of_children(csm.take(i + 1), depth));
        }
        i = i + 1;
    }
    proof {
        assert(csm.take(n as int) =~= csm);
    }
}

/// The listing of the subtree rooted at `d`: one line per descendant,
/// pre-order, two spaces of indent per level.
pub fn render_listing(d: &Dir) -> (r: Vec<String>)
    ensures
        r.deep_view() == lines_of(d.model(), 0),
{
    let mut out: Vec<String> = Vec::new();
    let indent = String::new();
    proof {
        assert(out.deep_view() =~= Seq::<Seq<char>>::empty());
        assert(indent@ =~= spaces(0));
        assert(Seq::<Seq<char>>::empty() + lines_of(d.model(), 0) =~= lines_of(d.model(), 0));
    }
    render_into(d, &indent, &mut out, Ghost(0));
    out
}

} // verus!
