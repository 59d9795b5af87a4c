//! The virtual filesystem engine: one root directory, always present, and
//! one entry point that applies a parsed command to it. Failures carry the
//! path that did not resolve, and the classifier turns the recoverable ones
//! into the user-facing diagnostics; everything else is left to the caller
//! as fatal.

use crate::parser::{Command, CommandView};
use crate::render::{lines_of, render_listing};
use crate::scan::{basename, segments, split_path};
use crate::tree::{
    attach, create, empty_dir, has_child, lemma_attach_wf, lemma_create_wf, lemma_lookup_name,
    lemma_lookup_wf, lemma_remove_at_elsewhere, lemma_remove_at_wf, lookup, remove_at, wf, Dir,
    DirView,
};
use vstd::pervasive::unreached;
use vstd::prelude::*;

verus! {

/// Why a structural operation failed.
#[derive(Debug, PartialEq)]
pub enum VfsError {
    /// The path did not resolve: some named segment does not exist.
    NotFound(String),
    /// The move's destination already holds a child named like the moved
    /// directory, and directories are never silently merged.
    Occupied(String),
    /// The operation would detach the root itself, or move a directory into
    /// its own subtree.
    Forbidden(String),
}

/// The mathematical shape of a failure.
pub enum ErrView {
    NotFound(Seq<char>),
    Occupied(Seq<char>),
    Forbidden(Seq<char>),
}

impl VfsError {
    /// The mathematical model of this failure.
    pub open spec fn model(&self) -> ErrView {
        match self {
            VfsError::NotFound(p) => ErrView::NotFound(p@),
            VfsError::Occupied(p) => ErrView::Occupied(p@),
            VfsError::Forbidden(p) => ErrView::Forbidden(p@),
        }
    }
}

/// What a MOVE yields: the new tree, and nothing printed or the error.
///
/// The source is resolved first, then the destination, so when both are
/// missing the reported path is the source's. Moving the root, or a
/// directory into its own subtree, is forbidden; moving onto an existing
/// same-named child is refused rather than merged.
pub open spec fn move_spec(t: DirView, src: Seq<char>, dst: Seq<char>) -> (DirView, Result<
    Seq<Seq<char>>,
    ErrView,
>) {
    let s = segments(src);
    let d = segments(dst);
    if lookup(t, s) is None {
        (t, Err(ErrView::NotFound(src)))
    } else if lookup(t, d) is None {
        (t, Err(ErrView::NotFound(dst)))
    } else if s.len() == 0 {
        (t, Err(ErrView::Forbidden(src)))
    } else if s.is_prefix_of(d) {
        (t, Err(ErrView::Forbidden(dst)))
    } else if has_child(lookup(t, d).unwrap().children, s.last()) {
        (t, Err(ErrView::Occupied(dst)))
    } else {
        (attach(remove_at(t, s), d, lookup(t, s).unwrap()), Ok(Seq::empty()))
    }
}

/// What applying a command yields: the new tree, and either the lines the
/// command prints (none but for LIST) or the error. The tree is unchanged
/// on every error.
pub open spec fn apply_spec(t: DirView, c: CommandView) -> (DirView, Result<
    Seq<Seq<char>>,
    ErrView,
>) {
    match c {
        CommandView::Create(p) => (create(t, segments(p)), Ok(Seq::empty())),
        CommandView::List(None) => (t, Ok(lines_of(t, 0))),
        CommandView::List(Some(p)) => match lookup(t, segments(p)) {
            Some(m) => (t, Ok(lines_of(m, 0))),
            None => (t, Err(ErrView::NotFound(p))),
        },
        CommandView::Delete(p) => {
            if segments(p).len() == 0 {
                (t, Err(ErrView::Forbidden(p)))
            } else if lookup(t, segments(p)) is None {
                (t, Err(ErrView::NotFound(p)))
            } else {
                (remove_at(t, segments(p)), Ok(Seq::empty()))
            }
        },
        CommandView::Move(src, dst) => move_spec(t, src, dst),
    }
}

/// Detaching at a path that does not resolve changes nothing.
proof fn lemma_remove_at_missing(d: DirView, p: Seq<Seq<char>>)
    requires
        lookup(d, p) is None,
    ensures
        remove_at(d, p) == d,
    decreases p.len(),
{
    if p.len() > 0 && crate::tree::has_child(d.children, p[0]) {
        let i = crate::tree::child_index(d.children, p[0]);
        if p.len() == 1 {
            assert(p.skip(1) =~= Seq::<Seq<char>>::empty());
            assert(lookup(d.children[i], p.skip(1)) == Some(d.children[i]));
            assert(false);
        } else {
            lemma_remove_at_missing(d.children[i], p.skip(1));
            assert(d.children.update(i, d.children[i]) =~= d.children);
            assert(remove_at(d, p) =~= d);
        }
    }
}

fn is_prefix_vec(p: &Vec<String>, q: &Vec<String>) -> (r: bool)
    ensures
        r == p.deep_view().is_prefix_of(q.deep_view()),
{
    proof {
        assert(p.deep_view().len() == p@.len());
        assert(q.deep_view().len() == q@.len());
    }
    if p.len() > q.len() {
        return false;
    }
    let n = p.len();
    let mut i: usize = 0;
    while i < n
        invariant
            n == p@.len(),
            n <= q@.len(),
            i <= n,
            forall|k: int| 0 <= k < i ==> p.deep_view()[k] == q.deep_view()[k],
        decreases n - i,
    {
        if !(p[i] == q[i]) {
            proof {
                assert(p.deep_view()[i as int] == p@[i as int]@);
                assert(q.deep_view()[i as int] == q@[i as int]@);
                if p.deep_view().is_prefix_of(q.deep_view()) {
                    assert(p.deep_view()[i as int] == q.deep_view().take(n as int)[i as int]);
                }
            }
            return false;
        }
        proof {
            assert(p.deep_view()[i as int] == p@[i as int]@);
            assert(q.deep_view()[i as int] == q@[i as int]@);
        }
        i = i + 1;
    }
    proof {
        assert(p.deep_view() =~= q.deep_view().take(n as int));
    }
    true
}

/// The in-memory virtual filesystem: a single root directory, created with
/// the engine, never deleted.
pub struct VFS {
    root: Dir,
}

impl VFS {
    /// The mathematical model of the whole tree.
    pub closed spec fn model(&self) -> DirView {
        self.root.model()
    }

    /// The engine's invariant: the tree is well-formed (children of each
    /// directory have distinct names).
    pub closed spec fn inv(&self) -> bool {
        wf(self.root.model())
    }

    /// A filesystem holding only an empty, unnamed root.
    pub fn new() -> (r: VFS)
        ensures
            r.inv(),
            r.model() == empty_dir(Seq::<char>::empty()),
    {
        let r = VFS { root: Dir::empty(String::new()) };
        proof {
            assert(wf(r.root.model()));
        }
        r
    }

    /// Applies one parsed command. Returns the lines the command prints
    /// (none but for LIST), or how it failed; the tree is exactly what
    /// [`apply_spec`] yields, so it is unchanged on every error.
    pub fn apply_command(&mut self, cmd: &Command) -> (r: Result<Vec<String>, VfsError>)
        requires
            old(self).inv(),
        ensures
            final(self).inv(),
            final(self).model() == apply_spec(old(self).model(), cmd.model()).0,
            match (r, apply_spec(old(self).model(), cmd.model()).1) {
                (Ok(lines), Ok(out)) => lines.deep_view() == out,
                (Err(e), Err(ev)) => e.model() == ev,
                _ => false,
            },
    {
        let ghost t0 = self.root.model();
        match cmd {
            Command::Create(p) => {
                let segs = split_path(p.as_str());
                proof {
                    assert(segs.deep_view().skip(0) =~= segments(p@));
                }
                self.root.create_path(&segs, 0);
                proof {
                    lemma_create_wf(t0, segments(p@));
                }
                let lines: Vec<String> = Vec::new();
                proof {
                    assert(lines.deep_view() =~= Seq::<Seq<char>>::empty());
                }
                Ok(lines)
            },
            Command::List(None) => Ok(render_listing(&self.root)),
            Command::List(Some(p)) => {
                let segs = split_path(p.as_str());
                proof {
                    assert(segs.deep_view().skip(0) =~= segments(p@));
                }
                match self.root.lookup_at(&segs, 0) {
                    Some(node) => Ok(render_listing(node)),
                    None => Err(VfsError::NotFound(p.clone())),
                }
            },
            Command::Delete(p) => {
                let segs = split_path(p.as_str());
                proof {
                    assert(segs.deep_view().skip(0) =~= segments(p@));
                }
                if segs.len() == 0 {
                    return Err(VfsError::Forbidden(p.clone()));
                }
                match self.root.remove_path(&segs, 0) {
                    Some(_node) => {
                        proof {
                            lemma_remove_at_wf(t0, segments(p@));
                        }
                        let lines: Vec<String> = Vec::new();
                        proof {
                            assert(lines.deep_view() =~= Seq::<Seq<char>>::empty());
                        }
                        Ok(lines)
                    },
                    None => {
                        proof {
                            lemma_remove_at_missing(t0, segments(p@));
                        }
                        Err(VfsError::NotFound(p.clone()))
                    },
                }
            },
            Command::Move(src, dst) => {
                let ssegs = split_path(src.as_str());
                let dsegs = split_path(dst.as_str());
                let ghost s = segments(src@);
                let ghost d = segments(dst@);
                proof {
                    assert(ssegs.deep_view().skip(0) =~= s);
                    assert(dsegs.deep_view().skip(0) =~= d);
                }
                if self.root.lookup_at(&ssegs, 0).is_none() {
                    return Err(VfsError::NotFound(src.clone()));
                }
                if self.root.lookup_at(&dsegs, 0).is_none() {
                    return Err(VfsError::NotFound(dst.clone()));
                }
                if ssegs.len() == 0 {
                    return Err(VfsError::Forbidden(src.clone()));
                }
                if is_prefix_vec(&ssegs, &dsegs) {
                    return Err(VfsError::Forbidden(dst.clone()));
                }
                let base = &ssegs[ssegs.len() - 1];
                proof {
                    assert(base@ == s.last());
                }
                let occupied = match self.root.lookup_at(&dsegs, 0) {
                    Some(dnode) => dnode.has_child_named(base),
                    None => unreached(),
                };
                if occupied {
                    return Err(VfsError::Occupied(dst.clone()));
                }
                let node = match self.root.remove_path(&ssegs, 0) {
                    Some(node) => node,
                    None => unreached(),
                };
                proof {
                    lemma_remove_at_wf(t0, s);
                    lemma_remove_at_elsewhere(t0, s, d);
                    lemma_lookup_wf(t0, s);
                    lemma_lookup_name(t0, s);
                    lemma_attach_wf(self.root.model(), d, node.model());
                }
                let ok = self.root.attach_path(&dsegs, 0, node);
                if ok {
                    let lines: Vec<String> = Vec::new();
                    proof {
                        assert(lines.deep_view() =~= Seq::<Seq<char>>::empty());
                    }
                    Ok(lines)
                } else {
                    unreached()
                }
            },
        }
    }

    /// The listing of the subtree under `dir`: one line per descendant
    /// directory, pre-order and depth-first, indented two spaces per level
    /// below `dir`. Fails with the path where it does not resolve.
    pub fn print_hierarchy(&self, dir: &String) -> (r: Result<Vec<String>, VfsError>)
        requires
            self.inv(),
        ensures
            match lookup(self.model(), segments(dir@)) {
                Some(m) => r matches Ok(lines) && lines.deep_view() == lines_of(m, 0),
                None => r matches Err(e) && e.model() == ErrView::NotFound(dir@),
            },
    {
        let segs = split_path(dir.as_str());
        proof {
            assert(segs.deep_view().skip(0) =~= segments(dir@));
        }
        match self.root.lookup_at(&segs, 0) {
            Some(node) => Ok(render_listing(node)),
            None => Err(VfsError::NotFound(dir.clone())),
        }
    }
}

/// The friendly one-line diagnostic for an operation that failed on a
/// missing path.
pub open spec fn not_found_text(verb: Seq<char>, path: Seq<char>) -> Seq<char> {
    "Cannot "@ + verb + " "@ + path + " - "@ + basename(path) + " does not exist"@
}

/// Which diagnostic, if any, a failure produces: a DELETE or MOVE that hit a
/// missing path is reported and recovered from; every other failure is left
/// fatal, as is a LIST of a missing path, for which no friendly message is
/// defined.
pub open spec fn diagnostic_spec(c: CommandView, e: ErrView) -> Option<Seq<char>> {
    match e {
        ErrView::NotFound(p) => {
            if segments(p).len() == 0 {
                None
            } else {
                match c {
                    CommandView::Delete(_) => Some(not_found_text("delete"@, p)),
                    CommandView::Move(_, _) => Some(not_found_text("move"@, p)),
                    _ => None,
                }
            }
        },
        _ => None,
    }
}

/// Builds the user-facing diagnostic for a failed command, where one is
/// defined; `None` means the failure is fatal to the run.
pub fn diagnostic(cmd: &Command, err: &VfsError) -> (r: Option<String>)
    ensures
        match diagnostic_spec(cmd.model(), err.model()) {
            Some(text) => r matches Some(m) && m@ == text,
            None => r is None,
        },
{
    match err {
        VfsError::NotFound(p) => {
            let verb = match cmd {
                Command::Delete(_) => "delete",
                Command::Move(_, _) => "move",
                _ => {
                    return None;
                },
            };
            let segs = split_path(p.as_str());
            proof {
                assert(segs.deep_view().len() == segs@.len());
            }
            if segs.len() == 0 {
                return None;
            }
            let base = &segs[segs.len() - 1];
            proof {
                assert(base@ == basename(p@));
            }
            let mut m = String::from_str("Cannot ");
            m.append(verb);
            m.append(" ");
            m.append(p.as_str());
            m.append(" - ");
            m.append(base.as_str());
            m.append(" does not exist");
            Some(m)
        },
        _ => None,
    }
}

/// Applying CREATE twice leaves the tree exactly as one application left it.
pub proof fn lemma_create_command_idempotent(t: DirView, p: Seq<char>)
    requires
        wf(t),
    ensures
        apply_spec(apply_spec(t, CommandView::Create(p)).0, CommandView::Create(p)).0 == apply_spec(
            t,
            CommandView::Create(p),
        ).0,
{
    crate::tree::lemma_create_idempotent(t, segments(p));
}

/// CREATE is additive over ancestors: afterwards every prefix of the created
/// path resolves to a directory.
pub proof fn lemma_create_command_ancestors(t: DirView, p: Seq<char>, q: Seq<Seq<char>>)
    requires
        wf(t),
        q.is_prefix_of(segments(p)),
    ensures
        lookup(apply_spec(t, CommandView::Create(p)).0, q) is Some,
{
    crate::tree::lemma_create_ancestors(t, segments(p), q);
}

/// A successful MOVE keeps the moved directory's basename and relocates its
/// whole subtree unchanged under the destination; nothing resolves at the
/// source any more.
pub proof fn lemma_move_command_relocates(t: DirView, src: Seq<char>, dst: Seq<char>)
    requires
        wf(t),
        apply_spec(t, CommandView::Move(src, dst)).1 is Ok,
    ensures
        lookup(apply_spec(t, CommandView::Move(src, dst)).0, segments(dst).push(basename(src)))
            == lookup(t, segments(src)),
        lookup(apply_spec(t, CommandView::Move(src, dst)).0, segments(src)) is None,
{
    crate::tree::lemma_move_relocates(t, segments(src), segments(dst));
}

/// A successful DELETE removes the whole subtree: nothing at the deleted
/// path or below it resolves afterwards.
pub proof fn lemma_delete_command_prunes(t: DirView, p: Seq<char>, below: Seq<Seq<char>>)
    requires
        wf(t),
        apply_spec(t, CommandView::Delete(p)).1 is Ok,
    ensures
        lookup(apply_spec(t, CommandView::Delete(p)).0, segments(p) + below) is None,
{
    assert(segments(p).is_prefix_of(segments(p) + below)) by {
        assert(segments(p) =~= (segments(p) + below).take(segments(p).len() as int));
    }
    crate::tree::lemma_remove_at_prunes(t, segments(p), segments(p) + below);
}

/// Listing is read-only and deterministic: a LIST leaves the tree unchanged,
/// and a second identical LIST against the unchanged tree yields exactly the
/// same lines.
pub proof fn lemma_list_deterministic(t: DirView, p: Option<Seq<char>>)
    ensures
        apply_spec(t, CommandView::List(p)).0 == t,
        apply_spec(apply_spec(t, CommandView::List(p)).0, CommandView::List(p)).1 == apply_spec(
            t,
            CommandView::List(p),
        ).1,
{
}

} // verus!
