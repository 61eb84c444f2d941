//! The session: a root folder plus a current working path, with the
//! operations `pwd`, `ls`, `mkdir` and `cd` built on the navigator and the
//! canonicalizer.
//!
//! The working path is stored as a canonical absolute path string without its
//! leading `/` (so the empty string is the root). It is a name, not a
//! pointer: every operation re-resolves it against the tree.

use crate::node::index_of;
use crate::node::lemma_lookup_push;
use crate::node::lemma_lookup_update_at;
use crate::node::lemma_node_eq_refl;
use crate::node::lookup;
use crate::node::node_eq;
use crate::node::node_wf;
use crate::node::names_of;
use crate::node::Kfolder;
use crate::node::Knode;
use crate::paths::canon_segments;
use crate::paths::canonical_str;
use crate::paths::canonicalize;
use crate::paths::join_char;
use crate::paths::join_with;
use crate::paths::sort_segs;
use crate::paths::split_slash_str;
use crate::paths::views_of;
use vstd::prelude::*;

verus! {

// ---------------------------------------------------------------------------
// Navigation and mutation, specified
// ---------------------------------------------------------------------------

/// Walk `segs` from `n` through folder children: the node found, or `None`
/// as soon as a segment is missing or a file stands in the way. The empty
/// sequence resolves to `n` itself.
pub open spec fn resolve(n: Knode, segs: Seq<Seq<char>>) -> Option<Knode>
    decreases segs.len(),
{
    if segs.len() == 0 {
        Some(n)
    } else {
        match n {
            Knode::Kfolder(f) => match lookup(f.children@, segs[0]) {
                Some(c) => resolve(c, segs.skip(1)),
                None => None,
            },
            Knode::Kfile(_) => None,
        }
    }
}

/// `t` is a chain of freshly created folders named after `segs`: what
/// `mkdir` builds below the first missing segment.
pub open spec fn fresh_dirs(segs: Seq<Seq<char>>, t: Knode) -> bool
    decreases segs.len(),
{
    match t {
        Knode::Kfolder(f) => {
            if segs.len() == 0 {
                f.children@.len() == 0
            } else {
                f.children@.len() == 1 && f.children@[0].0@ == segs[0] && fresh_dirs(
                    segs.skip(1),
                    f.children@[0].1,
                )
            }
        },
        Knode::Kfile(_) => false,
    }
}

/// How `mkdir` turns the tree `t1` into `t2`, walking `segs`: existing
/// folders are entered, missing ones are created, and an existing file stops
/// the walk with its name as the error — leaving everything created so far
/// in place (no rollback). `err` is `None` exactly on success.
pub open spec fn mkdir_rel(t1: Knode, segs: Seq<Seq<char>>, t2: Knode, err: Option<Seq<char>>) -> bool
    decreases segs.len(),
{
    if segs.len() == 0 {
        t2 == t1 && err is None
    } else {
        match t1 {
            Knode::Kfile(_) => t2 == t1 && err is None,
            Knode::Kfolder(f1) => {
                let name = segs[0];
                match t2 {
                    Knode::Kfile(_) => false,
                    Knode::Kfolder(f2) => match lookup(f1.children@, name) {
                        Some(c) => {
                            if c is Kfile {
                                t2 == t1 && err == Some(name)
                            } else {
                                let i = index_of(f1.children@, name);
                                f2.children@.len() == f1.children@.len() && f2.children@
                                    == f1.children@.update(
                                    i,
                                    (f1.children@[i].0, f2.children@[i].1),
                                ) && mkdir_rel(c, segs.skip(1), f2.children@[i].1, err)
                            }
                        },
                        None => {
                            let n = f1.children@.len() as int;
                            f2.children@.len() == n + 1 && f2.children@.take(n) == f1.children@
                                && f2.children@[n].0@ == name && fresh_dirs(
                                segs.skip(1),
                                f2.children@[n].1,
                            ) && err is None
                        },
                    },
                }
            },
        }
    }
}

/// `mkdir` below a freshly created folder can meet no file: it succeeds and
/// builds exactly a chain of fresh folders.
pub proof fn lemma_mkdir_fresh(t1: Knode, segs: Seq<Seq<char>>, t2: Knode, err: Option<Seq<char>>)
    requires
        t1 matches Knode::Kfolder(f) && f.children@.len() == 0,
        mkdir_rel(t1, segs, t2, err),
    ensures
        err is None,
        fresh_dirs(segs, t2),
{
}

/// `t2` is `t1` with the node that `segs` names replaced by `n2` and
/// nothing else changed: what handing out exclusive access to one node lets
/// a caller do to the tree.
pub open spec fn replace_rel(t1: Knode, segs: Seq<Seq<char>>, t2: Knode, n2: Knode) -> bool
    decreases segs.len(),
{
    if segs.len() == 0 {
        t2 == n2
    } else {
        match t1 {
            Knode::Kfolder(f1) => match t2 {
                Knode::Kfolder(f2) => {
                    let i = index_of(f1.children@, segs[0]);
                    0 <= i < f1.children@.len() && f2.children@.len() == f1.children@.len()
                        && f2.children@ == f1.children@.update(
                        i,
                        (f1.children@[i].0, f2.children@[i].1),
                    ) && replace_rel(f1.children@[i].1, segs.skip(1), f2.children@[i].1, n2)
                },
                Knode::Kfile(_) => false,
            },
            Knode::Kfile(_) => false,
        }
    }
}

/// A file stands at `q` below `t`.
pub open spec fn file_at(t: Knode, q: Seq<Seq<char>>) -> bool {
    match resolve(t, q) {
        Some(n) => n is Kfile,
        None => false,
    }
}

/// `mkdir` on a chain of freshly created folders changes nothing and
/// cannot fail: the second half of its idempotence.
pub proof fn lemma_mkdir_on_fresh(t: Knode, segs: Seq<Seq<char>>, t2: Knode, err: Option<
    Seq<char>,
>)
    requires
        fresh_dirs(segs, t),
        mkdir_rel(t, segs, t2, err),
    ensures
        err is None,
        node_eq(t2, t),
    decreases segs.len(),
{
    if segs.len() == 0 {
        lemma_node_eq_refl(t);
    } else {
        match t {
            Knode::Kfile(_) => {
            },
            Knode::Kfolder(f) => {
                let name = segs[0];
                let child = f.children@[0].1;
                assert(lookup(f.children@, name) == Some(child));
                assert(index_of(f.children@, name) == 0);
                match t2 {
                    Knode::Kfile(_) => {
                    },
                    Knode::Kfolder(f2) => {
                        let c2 = f2.children@[0].1;
                        assert(fresh_dirs(segs.skip(1), child));
                        assert(child is Kfolder);
                        assert(mkdir_rel(child, segs.skip(1), c2, err));
                        lemma_mkdir_on_fresh(child, segs.skip(1), c2, err);
                    },
                }
            },
        }
    }
}

/// `mkdir` is idempotent: running it a second time over the tree the first
/// run produced changes nothing more and reports the same outcome —
/// whether the first run succeeded or stopped at an existing file.
pub proof fn lemma_mkdir_idempotent(
    t1: Knode,
    segs: Seq<Seq<char>>,
    t2: Knode,
    e1: Option<Seq<char>>,
    t3: Knode,
    e2: Option<Seq<char>>,
)
    requires
        mkdir_rel(t1, segs, t2, e1),
        mkdir_rel(t2, segs, t3, e2),
    ensures
        e2 == e1,
        node_eq(t3, t2),
    decreases segs.len(),
{
    if segs.len() == 0 {
        lemma_node_eq_refl(t2);
    } else {
        match t1 {
            Knode::Kfile(_) => {
                lemma_node_eq_refl(t2);
            },
            Knode::Kfolder(f1) => {
                let name = segs[0];
                match lookup(f1.children@, name) {
                    Some(c) => {
                        if c is Kfile {
                            lemma_node_eq_refl(t2);
                        } else {
                            let i = index_of(f1.children@, name);
                            crate::node::lemma_index_of(f1.children@, name);
                            let f2 = t2->Kfolder_0;
                            let c2 = f2.children@[i].1;
                            lemma_lookup_update_at(f1.children@, name, c2);
                            assert(mkdir_rel(c, segs.skip(1), c2, e1));
                            if segs.skip(1).len() == 0 {
                                assert(c2 == c);
                            }
                            assert(c2 is Kfolder);
                            let f3 = t3->Kfolder_0;
                            let c3 = f3.children@[i].1;
                            lemma_mkdir_idempotent(c, segs.skip(1), c2, e1, c3, e2);
                            assert forall|j: int|
                                0 <= j < f2.children@.len() implies f3.children@[j].0@
                                == f2.children@[j].0@ && node_eq(
                                #[trigger] f3.children@[j].1,
                                f2.children@[j].1,
                            ) by {
                                if j != i {
                                    assert(f3.children@[j] == f2.children@[j]);
                                    lemma_node_eq_refl(f2.children@[j].1);
                                }
                            }
                        }
                    },
                    None => {
                        let n = f1.children@.len() as int;
                        let f2 = t2->Kfolder_0;
                        let fresh = f2.children@[n].1;
                        assert(f2.children@ =~= f1.children@.push(f2.children@[n]));
                        lemma_lookup_push(f1.children@, f2.children@[n], name);
                        assert(lookup(f2.children@, name) == Some(fresh));
                        crate::node::lemma_index_of(f1.children@, name);
                        assert forall|j: int| 0 <= j < n implies f2.children@[j].0@ != name by {
                            assert(f2.children@[j] == f1.children@[j]);
                        }
                        crate::node::lemma_index_of_at(f2.children@, name, n);
                        let f3 = t3->Kfolder_0;
                        let c3 = f3.children@[n].1;
                        lemma_mkdir_on_fresh(fresh, segs.skip(1), c3, e2);
                        assert forall|j: int|
                            0 <= j < f2.children@.len() implies f3.children@[j].0@
                            == f2.children@[j].0@ && node_eq(
                            #[trigger] f3.children@[j].1,
                            f2.children@[j].1,
                        ) by {
                            if j != n {
                                assert(f3.children@[j] == f2.children@[j]);
                                lemma_node_eq_refl(f2.children@[j].1);
                            }
                        }
                    },
                }
            },
        }
    }
}

/// `mkdir` fails exactly when an existing file stands at some prefix of the
/// walked path; excess segments past such a file are never created.
pub proof fn lemma_mkdir_error_iff(t1: Knode, segs: Seq<Seq<char>>, t2: Knode, err: Option<
    Seq<char>,
>)
    requires
        mkdir_rel(t1, segs, t2, err),
    ensures
        err is Some <==> exists|i: int|
            0 <= i < segs.len() && file_at(t1, #[trigger] segs.take(i + 1)),
    decreases segs.len(),
{
    if segs.len() == 0 {
    } else {
        let name = segs[0];
        assert(segs.take(1)[0] == name);
        assert(segs.take(1).skip(1) =~= Seq::<Seq<char>>::empty());
        match t1 {
            Knode::Kfile(_) => {
                assert forall|i: int|
                    0 <= i < segs.len() implies !file_at(t1, #[trigger] segs.take(i + 1)) by {
                    assert(segs.take(i + 1).len() > 0);
                }
            },
            Knode::Kfolder(f1) => {
                match lookup(f1.children@, name) {
                    Some(c) => {
                        if c is Kfile {
                            assert(resolve(c, Seq::<Seq<char>>::empty()) == Some(c));
                            assert(resolve(t1, segs.take(1)) == Some(c));
                            assert(file_at(t1, segs.take(1)));
                            let w0: int = 0;
                            assert(0 <= w0 < segs.len() && file_at(t1, segs.take(w0 + 1)));
                        } else {
                            let f2 = t2->Kfolder_0;
                            let i = index_of(f1.children@, name);
                            let c2 = f2.children@[i].1;
                            lemma_mkdir_error_iff(c, segs.skip(1), c2, err);
                            assert forall|k: int| 0 <= k < segs.len() implies file_at(
                                t1,
                                #[trigger] segs.take(k + 1),
                            ) == (k >= 1 && file_at(c, segs.skip(1).take(k))) by {
                                if k == 0 {
                                    assert(resolve(c, Seq::<Seq<char>>::empty()) == Some(c));
                                    assert(resolve(t1, segs.take(1)) == Some(c));
                                } else {
                                    let q = segs.take(k + 1);
                                    assert(q[0] == name);
                                    assert(q.skip(1) =~= segs.skip(1).take(k));
                                    assert(resolve(t1, q) == resolve(c, segs.skip(1).take(k)));
                                }
                            }
                            if err is Some {
                                let w = choose|i2: int|
                                    0 <= i2 < segs.skip(1).len() && file_at(
                                        c,
                                        #[trigger] segs.skip(1).take(i2 + 1),
                                    );
                                let k = w + 1;
                                assert(segs.skip(1).take(k) == segs.skip(1).take(w + 1));
                                assert(file_at(t1, segs.take(k + 1)));
                                assert(0 <= k < segs.len() && file_at(t1, segs.take(k + 1)));
                            } else {
                                if exists|i2: int|
                                    0 <= i2 < segs.len() && file_at(
                                        t1,
                                        #[trigger] segs.take(i2 + 1),
                                    ) {
                                    let w = choose|i2: int|
                                        0 <= i2 < segs.len() && file_at(
                                            t1,
                                            #[trigger] segs.take(i2 + 1),
                                        );
                                    assert(w >= 1 && file_at(c, segs.skip(1).take(w)));
                                    assert(0 <= w - 1 < segs.skip(1).len() && file_at(
                                        c,
                                        segs.skip(1).take((w - 1) + 1),
                                    ));
                                }
                            }
                        }
                    },
                    None => {
                        assert forall|i: int|
                            0 <= i < segs.len() implies !file_at(t1, #[trigger] segs.take(i + 1)) by {
                            let q = segs.take(i + 1);
                            assert(q[0] == name);
                            assert(resolve(t1, q) is None);
                        }
                    },
                }
            },
        }
    }
}

/// `mkdir` never touches an existing file: whatever it creates elsewhere,
/// every file keeps its place, and nothing can appear below one.
pub proof fn lemma_mkdir_preserves_files(
    t1: Knode,
    segs: Seq<Seq<char>>,
    t2: Knode,
    err: Option<Seq<char>>,
    q: Seq<Seq<char>>,
)
    requires
        mkdir_rel(t1, segs, t2, err),
        file_at(t1, q),
    ensures
        resolve(t2, q) == resolve(t1, q),
    decreases q.len(),
{
    if segs.len() == 0 {
    } else {
        match t1 {
            Knode::Kfile(_) => {
            },
            Knode::Kfolder(f1) => {
                let name = segs[0];
                assert(q.len() > 0);
                let qc = match lookup(f1.children@, q[0]) {
                    Some(x) => x,
                    None => t1,
                };
                assert(lookup(f1.children@, q[0]) == Some(qc));
                assert(resolve(t1, q) == resolve(qc, q.skip(1)));
                match lookup(f1.children@, name) {
                    Some(c) => {
                        if c is Kfile {
                        } else {
                            let f2 = t2->Kfolder_0;
                            let i = index_of(f1.children@, name);
                            crate::node::lemma_index_of(f1.children@, name);
                            let c2 = f2.children@[i].1;
                            lemma_lookup_update_at(f1.children@, name, c2);
                            if q[0] == name {
                                assert(qc == c);
                                lemma_mkdir_preserves_files(c, segs.skip(1), c2, err, q.skip(1));
                                assert(resolve(t2, q) == resolve(c2, q.skip(1)));
                            } else {
                                assert(lookup(f2.children@, q[0]) == Some(qc));
                                assert(resolve(t2, q) == resolve(qc, q.skip(1)));
                            }
                        }
                    },
                    None => {
                        let f2 = t2->Kfolder_0;
                        let n = f1.children@.len() as int;
                        assert(f2.children@ =~= f1.children@.push(f2.children@[n]));
                        lemma_lookup_push(f1.children@, f2.children@[n], q[0]);
                        assert(lookup(f2.children@, q[0]) == Some(qc));
                        assert(resolve(t2, q) == resolve(qc, q.skip(1)));
                    },
                }
            },
        }
    }
}

/// A chain of freshly created folders is well-formed.
pub proof fn lemma_fresh_dirs_wf(segs: Seq<Seq<char>>, t: Knode)
    requires
        fresh_dirs(segs, t),
    ensures
        node_wf(t),
    decreases segs.len(),
{
    match t {
        Knode::Kfile(_) => {
        },
        Knode::Kfolder(f) => {
            if segs.len() > 0 {
                lemma_fresh_dirs_wf(segs.skip(1), f.children@[0].1);
            }
        },
    }
}

/// `mkdir` preserves the tree's invariant: every folder's child names stay
/// pairwise distinct — it never inserts under a name already taken.
pub proof fn lemma_mkdir_preserves_wf(t1: Knode, segs: Seq<Seq<char>>, t2: Knode, err: Option<
    Seq<char>,
>)
    requires
        mkdir_rel(t1, segs, t2, err),
        node_wf(t1),
    ensures
        node_wf(t2),
    decreases segs.len(),
{
    if segs.len() == 0 {
    } else {
        match t1 {
            Knode::Kfile(_) => {
            },
            Knode::Kfolder(f1) => {
                let name = segs[0];
                match lookup(f1.children@, name) {
                    Some(c) => {
                        if c is Kfile {
                        } else {
                            let i = index_of(f1.children@, name);
                            crate::node::lemma_index_of(f1.children@, name);
                            assert(c == f1.children@[i].1);
                            assert(node_wf(c));
                            let f2 = t2->Kfolder_0;
                            let c2 = f2.children@[i].1;
                            lemma_mkdir_preserves_wf(c, segs.skip(1), c2, err);
                            assert forall|a: int, b: int|
                                0 <= a < b < f2.children@.len() implies f2.children@[a].0@
                                != f2.children@[b].0@ by {
                                assert(f2.children@[a].0@ == f1.children@[a].0@);
                                assert(f2.children@[b].0@ == f1.children@[b].0@);
                            }
                            assert forall|k: int| 0 <= k < f2.children@.len() implies node_wf(
                                #[trigger] f2.children@[k].1,
                            ) by {
                                if k != i {
                                    assert(f2.children@[k] == f1.children@[k]);
                                }
                            }
                        }
                    },
                    None => {
                        let n = f1.children@.len() as int;
                        let f2 = t2->Kfolder_0;
                        assert(f2.children@ =~= f1.children@.push(f2.children@[n]));
                        crate::node::lemma_distinct_push(f1.children@, f2.children@[n]);
                        lemma_fresh_dirs_wf(segs.skip(1), f2.children@[n].1);
                        assert forall|k: int| 0 <= k < f2.children@.len() implies node_wf(
                            #[trigger] f2.children@[k].1,
                        ) by {
                            if k != n {
                                assert(f2.children@[k] == f1.children@[k]);
                            }
                        }
                    },
                }
            },
        }
    }
}

/// `mkdir` only ever adds nodes: every path that resolved before still
/// resolves afterwards. In particular the working path, once it names an
/// existing node, keeps doing so for the life of the session.
pub proof fn lemma_mkdir_preserves_resolve(
    t1: Knode,
    segs: Seq<Seq<char>>,
    t2: Knode,
    err: Option<Seq<char>>,
    q: Seq<Seq<char>>,
)
    requires
        mkdir_rel(t1, segs, t2, err),
        resolve(t1, q) is Some,
    ensures
        resolve(t2, q) is Some,
    decreases q.len(),
{
    if segs.len() == 0 || q.len() == 0 {
    } else {
        match t1 {
            Knode::Kfile(_) => {
            },
            Knode::Kfolder(f1) => {
                let name = segs[0];
                let qc = match lookup(f1.children@, q[0]) {
                    Some(x) => x,
                    None => t1,
                };
                assert(lookup(f1.children@, q[0]) == Some(qc));
                assert(resolve(t1, q) == resolve(qc, q.skip(1)));
                match lookup(f1.children@, name) {
                    Some(c) => {
                        if c is Kfile {
                        } else {
                            let f2 = t2->Kfolder_0;
                            let i = index_of(f1.children@, name);
                            crate::node::lemma_index_of(f1.children@, name);
                            let c2 = f2.children@[i].1;
                            lemma_lookup_update_at(f1.children@, name, c2);
                            if q[0] == name {
                                assert(qc == c);
                                lemma_mkdir_preserves_resolve(
                                    c,
                                    segs.skip(1),
                                    c2,
                                    err,
                                    q.skip(1),
                                );
                                assert(resolve(t2, q) == resolve(c2, q.skip(1)));
                            } else {
                                assert(lookup(f2.children@, q[0]) == Some(qc));
                                assert(resolve(t2, q) == resolve(qc, q.skip(1)));
                            }
                        }
                    },
                    None => {
                        let f2 = t2->Kfolder_0;
                        let n = f1.children@.len() as int;
                        assert(f2.children@ =~= f1.children@.push(f2.children@[n]));
                        lemma_lookup_push(f1.children@, f2.children@[n], q[0]);
                        assert(lookup(f2.children@, q[0]) == Some(qc));
                        assert(resolve(t2, q) == resolve(qc, q.skip(1)));
                    },
                }
            },
        }
    }
}

/// An absolute argument (leading `/`) bypasses the working path entirely:
/// its absolute form is the same against any two working paths.
pub proof fn lemma_to_abs_absolute(raw: Seq<char>, cwd1: Seq<char>, cwd2: Seq<char>)
    requires
        raw.len() > 0,
        raw[0] == '/',
    ensures
        to_abs_spec(raw, cwd1) == to_abs_spec(raw, cwd2),
{
}

/// The views of an optional error name.
pub open spec fn err_view(o: Option<String>) -> Option<Seq<char>> {
    match o {
        Some(s) => Some(s@),
        None => None,
    }
}

// ---------------------------------------------------------------------------
// Absolute paths, specified
// ---------------------------------------------------------------------------

/// Absolute form of `raw` against the working path `cwd`: a path that
/// already starts with `/` bypasses `cwd` and is returned unchanged; any
/// other is appended to `cwd`, canonicalized, joined with `/` and prefixed
/// with `/`.
pub open spec fn to_abs_spec(raw: Seq<char>, cwd: Seq<char>) -> Seq<char> {
    if raw.len() > 0 && raw[0] == '/' {
        raw
    } else {
        seq!['/'] + join_char(canonicalize(seq!['/'] + cwd + seq!['/'] + raw), '/')
    }
}

// ---------------------------------------------------------------------------
// Command-line tokenization, specified
// ---------------------------------------------------------------------------

/// ASCII whitespace: what separates the words of a command line.
pub open spec fn is_space(c: char) -> bool {
    c == ' ' || c == '\t' || c == '\n' || c == '\r' || c == '\u{000b}' || c == '\u{000c}'
}

/// Index of the first whitespace character of `s`, or `s.len()` if none.
pub open spec fn first_space(s: Seq<char>) -> int
    decreases s.len(),
{
    if s.len() == 0 {
        0
    } else if is_space(s[0]) {
        0
    } else {
        1 + first_space(s.skip(1))
    }
}

/// `s` split on runs of whitespace: its non-empty words, in order; leading
/// and trailing whitespace is ignored.
pub open spec fn split_ws(s: Seq<char>) -> Seq<Seq<char>>
    decreases s.len(),
{
    if s.len() == 0 {
        Seq::empty()
    } else if is_space(s[0]) {
        split_ws(s.skip(1))
    } else {
        let i = first_space(s);
        if 1 <= i < s.len() {
            seq![s.take(i)] + split_ws(s.skip(i))
        } else {
            seq![s]
        }
    }
}

/// `first_space` is the one index `k` before which no whitespace occurs and
/// at which some does (or `s.len()` when none does at all).
pub proof fn lemma_first_space_at(s: Seq<char>, k: int)
    requires
        0 <= k <= s.len(),
        forall|j: int| 0 <= j < k ==> !is_space(s[j]),
        k < s.len() ==> is_space(s[k]),
    ensures
        first_space(s) == k,
    decreases s.len(),
{
    if s.len() == 0 {
    } else if k == 0 {
    } else {
        assert(!is_space(s[0]));
        lemma_first_space_at(s.skip(1), k - 1);
    }
}

/// The message `mkdir` reports when the segment `name` is an existing file.
pub open spec fn mkdir_err_msg(name: Seq<char>) -> Seq<char> {
    "File '"@ + name + "' exists!"@
}

/// The message `cd` reports when `raw` does not resolve to any node.
pub open spec fn cd_err_msg(raw: Seq<char>) -> Seq<char> {
    "cd: '"@ + raw + "': No such file or directory"@
}

// ---------------------------------------------------------------------------
// The session
// ---------------------------------------------------------------------------

/// A session over one in-memory tree: the root folder (never replaced) and
/// the current working path.
pub struct KfileSystem {
    pub root: Knode,
    pub pwd: String,
}

impl KfileSystem {
    /// A fresh session: an empty root folder, working path at the root.
    pub fn new() -> (r: KfileSystem)
        ensures
            r.root matches Knode::Kfolder(f) && f.children@.len() == 0,
            node_wf(r.root),
            r.pwd@.len() == 0,
            canonical_str(r.pwd@),
    {
        let r = KfileSystem { root: Knode::new_kfolder(), pwd: String::new() };
        proof {
            crate::paths::lemma_canonical_empty();
            assert(r.pwd@ =~= Seq::<char>::empty());
        }
        r
    }

    /// Canonical segment sequence of a raw path string: split on `/`, then
    /// resolve `.` and `..` lexically, without consulting the tree.
    pub fn sanitize(s: &str) -> (r: Vec<String>)
        ensures
            views_of(r@) == canonicalize(s@),
    {
        let raw = split_slash_str(s);
        canon_segments(&raw)
    }

    /// Canonical form of a raw path string, re-joined with `/`.
    pub fn sanitize_str(s: String) -> (r: String)
        ensures
            r@ == join_char(canonicalize(s@), '/'),
    {
        let segs = KfileSystem::sanitize(s.as_str());
        let sep = "/";
        proof {
            reveal_strlit("/");
        }
        join_with(&segs, sep)
    }

    /// Absolute form of `s` against the session's working path.
    pub fn to_abs_path(&self, s: &str) -> (r: String)
        ensures
            r@ == to_abs_spec(s@, self.pwd@),
    {
        proof {
            reveal_strlit("/");
        }
        if !s.is_empty() && s.get_char(0) == '/' {
            return String::from_str(s);
        }
        let mut t = String::from_str("/");
        t.append(self.pwd.as_str());
        t.append("/");
        t.append(s);
        proof {
            assert(t@ =~= seq!['/'] + self.pwd@ + seq!['/'] + s@);
        }
        let joined = KfileSystem::sanitize_str(t);
        let mut r = String::from_str("/");
        r.append(joined.as_str());
        proof {
            assert(r@ =~= seq!['/'] + joined@);
        }
        r
    }

    /// Follow `segs` from position `i` starting at `node`.
    fn get_at<'a>(node: &'a Knode, segs: &Vec<String>, i: usize) -> (r: Option<&'a Knode>)
        requires
            i <= segs@.len(),
        ensures
            match r {
                Some(n) => resolve(*node, views_of(segs@).skip(i as int)) == Some(*n),
                None => resolve(*node, views_of(segs@).skip(i as int)) is None,
            },
        decreases segs@.len() - i,
    {
        let ghost vs = views_of(segs@).skip(i as int);
        if i == segs.len() {
            proof {
                assert(vs =~= Seq::<Seq<char>>::empty());
            }
            return Some(node);
        }
        proof {
            assert(vs[0] == segs@[i as int]@);
            assert(vs.skip(1) =~= views_of(segs@).skip(i as int + 1));
        }
        match node {
            Knode::Kfile(_) => None,
            Knode::Kfolder(f) => {
                match f.find(segs[i].as_str()) {
                    None => None,
                    Some(j) => {
                        proof {
                            crate::node::lemma_index_of(f.children@, segs@[i as int]@);
                        }
                        KfileSystem::get_at(&f.children[j].1, segs, i + 1)
                    },
                }
            },
        }
    }

    /// Follow `segs` from position `i` starting at `node`, handing back
    /// exclusive access to the node found.
    fn get_mut_at<'a>(node: &'a mut Knode, segs: &Vec<String>, i: usize) -> (r: Option<
        &'a mut Knode,
    >)
        requires
            i <= segs@.len(),
        ensures
            match r {
                Some(m) => resolve(*old(node), views_of(segs@).skip(i as int)) == Some(*m)
                    && replace_rel(
                    *old(node),
                    views_of(segs@).skip(i as int),
                    *final (node),
                    *final (m),
                ),
                None => resolve(*old(node), views_of(segs@).skip(i as int)) is None && *final (
                node) == *old(node),
            },
        decreases segs@.len() - i,
    {
        let ghost vs = views_of(segs@).skip(i as int);
        if i == segs.len() {
            proof {
                assert(vs =~= Seq::<Seq<char>>::empty());
            }
            return Some(node);
        }
        let missing = KfileSystem::get_at(node, segs, i).is_none();
        if missing {
            return None;
        }
        proof {
            assert(vs[0] == segs@[i as int]@);
            assert(vs.skip(1) =~= views_of(segs@).skip(i as int + 1));
        }
        match node {
            Knode::Kfile(_) => {
                proof {
                    assert(false);
                }
                None
            },
            Knode::Kfolder(f) => {
                match f.find(segs[i].as_str()) {
                    None => {
                        proof {
                            assert(false);
                        }
                        None
                    },
                    Some(j) => {
                        proof {
                            crate::node::lemma_index_of(f.children@, segs@[i as int]@);
                        }
                        match KfileSystem::get_mut_at(&mut f.children[j].1, segs, i + 1) {
                            Some(m) => Some(m),
                            None => {
                                proof {
                                    assert(false);
                                }
                                None
                            },
                        }
                    },
                }
            },
        }
    }

    /// Resolve `s` against the tree, for mutation: exclusive access to the
    /// node it names, if any. What the caller does through the handed-out
    /// node is the only change the tree can see.
    pub fn get_mut(&mut self, s: &str) -> (r: Option<&mut Knode>)
        ensures
            match r {
                Some(m) => resolve(
                    old(self).root,
                    canonicalize(to_abs_spec(s@, old(self).pwd@)),
                ) == Some(*m) && replace_rel(
                    old(self).root,
                    canonicalize(to_abs_spec(s@, old(self).pwd@)),
                    final (self).root,
                    *final (m),
                ) && final (self).pwd == old(self).pwd,
                None => resolve(old(self).root, canonicalize(to_abs_spec(s@, old(self).pwd@)))
                    is None && *final (self) == *old(self),
            },
    {
        let abs = self.to_abs_path(s);
        let segs = KfileSystem::sanitize(abs.as_str());
        proof {
            assert(views_of(segs@).skip(0) =~= views_of(segs@));
        }
        KfileSystem::get_mut_at(&mut self.root, &segs, 0)
    }

    /// Resolve `s` against the tree: the node it names, if any.
    pub fn get(&self, s: &str) -> (r: Option<&Knode>)
        ensures
            match r {
                Some(n) => resolve(self.root, canonicalize(to_abs_spec(s@, self.pwd@))) == Some(
                    *n,
                ),
                None => resolve(self.root, canonicalize(to_abs_spec(s@, self.pwd@))) is None,
            },
    {
        let abs = self.to_abs_path(s);
        let segs = KfileSystem::sanitize(abs.as_str());
        proof {
            assert(views_of(segs@).skip(0) =~= views_of(segs@));
        }
        KfileSystem::get_at(&self.root, &segs, 0)
    }

    /// List the node `s` names: its child names, space-joined in
    /// lexicographic order; an error if it is missing or is a file.
    pub fn ls(&self, s: &str) -> (r: Result<String, String>)
        ensures
            match resolve(self.root, canonicalize(to_abs_spec(s@, self.pwd@))) {
                Some(n) => match n {
                    Knode::Kfolder(f) => r matches Ok(out) && out@ == join_char(
                        sort_segs(names_of(f.children@)),
                        ' ',
                    ),
                    Knode::Kfile(_) => r matches Err(e) && e@ == "not a directory"@,
                },
                None => r matches Err(e) && e@ == "no such file or directory"@,
            },
    {
        match self.get(s) {
            Some(n) => match n {
                Knode::Kfolder(f) => Ok(f.ls()),
                Knode::Kfile(_) => Err(String::from_str("not a directory")),
            },
            None => Err(String::from_str("no such file or directory")),
        }
    }

    /// Walk `segs` from position `i` at `node`, creating missing folders;
    /// the name of an existing file met on the way is the error.
    fn mkdir_at(node: &mut Knode, segs: &Vec<String>, i: usize) -> (r: Option<String>)
        requires
            i <= segs@.len(),
        ensures
            mkdir_rel(*old(node), views_of(segs@).skip(i as int), *final (node), err_view(r)),
        decreases segs@.len() - i,
    {
        let ghost vs = views_of(segs@).skip(i as int);
        if i == segs.len() {
            proof {
                assert(vs =~= Seq::<Seq<char>>::empty());
            }
            return None;
        }
        proof {
            assert(vs[0] == segs@[i as int]@);
            assert(vs.skip(1) =~= views_of(segs@).skip(i as int + 1));
        }
        match node {
            Knode::Kfile(_) => None,
            Knode::Kfolder(f) => {
                let ghost co = f.children@;
                match f.find(segs[i].as_str()) {
                    Some(j) => {
                        proof {
                            crate::node::lemma_index_of(co, segs@[i as int]@);
                        }
                        if f.children[j].1.is_kfile() {
                            return Some(segs[i].clone());
                        }
                        let mut pair = f.children.remove(j);
                        let e = KfileSystem::mkdir_at(&mut pair.1, segs, i + 1);
                        f.children.insert(j, pair);
                        proof {
                            assert(f.children@ =~= co.update(
                                j as int,
                                (co[j as int].0, f.children@[j as int].1),
                            ));
                        }
                        e
                    },
                    None => {
                        let mut sub = Knode::new_kfolder();
                        let ghost sub0 = sub;
                        let e = KfileSystem::mkdir_at(&mut sub, segs, i + 1);
                        proof {
                            lemma_mkdir_fresh(
                                sub0,
                                views_of(segs@).skip(i as int + 1),
                                sub,
                                err_view(e),
                            );
                        }
                        f.children.push((segs[i].clone(), sub));
                        proof {
                            assert(f.children@.take(co.len() as int) =~= co);
                        }
                        e
                    },
                }
            },
        }
    }

    /// Create every missing folder along `s`; an existing file met on the
    /// way fails with a message naming it, and the folders created before it
    /// remain (no rollback).
    pub fn mkdir(&mut self, s: &str) -> (r: Result<(), String>)
        ensures
            final (self).pwd == old(self).pwd,
            node_wf(old(self).root) ==> node_wf(final (self).root),
            match r {
                Ok(_) => mkdir_rel(
                    old(self).root,
                    canonicalize(to_abs_spec(s@, old(self).pwd@)),
                    final (self).root,
                    None,
                ),
                Err(e) => exists|nm: Seq<char>|
                    mkdir_rel(
                        old(self).root,
                        canonicalize(to_abs_spec(s@, old(self).pwd@)),
                        final (self).root,
                        Some(nm),
                    ) && e@ == mkdir_err_msg(nm),
            },
    {
        let abs = self.to_abs_path(s);
        let segs = KfileSystem::sanitize(abs.as_str());
        proof {
            assert(views_of(segs@).skip(0) =~= views_of(segs@));
        }
        let e = KfileSystem::mkdir_at(&mut self.root, &segs, 0);
        proof {
            if node_wf(old(self).root) {
                lemma_mkdir_preserves_wf(
                    old(self).root,
                    views_of(segs@),
                    self.root,
                    err_view(e),
                );
            }
        }
        match e {
            None => {
                proof {
                    assert(err_view(None::<String>) is None);
                }
                Ok(())
            },
            Some(nm) => {
                proof {
                    reveal_strlit("File '");
                    reveal_strlit("' exists!");
                }
                let mut msg = String::from_str("File '");
                msg.append(nm.as_str());
                msg.append("' exists!");
                proof {
                    assert(err_view(Some(nm)) == Some(nm@));
                    assert(msg@ =~= mkdir_err_msg(nm@));
                }
                Err(msg)
            },
        }
    }

    /// Change the working path to the fully resolved absolute form of `s`,
    /// provided it names an existing node; the tree is never touched.
    pub fn cd(&mut self, s: &str) -> (r: Result<(), String>)
        ensures
            final (self).root == old(self).root,
            match r {
                Ok(_) => resolve(
                    old(self).root,
                    canonicalize(to_abs_spec(s@, old(self).pwd@)),
                ) is Some && final (self).pwd@ == join_char(
                    canonicalize(to_abs_spec(s@, old(self).pwd@)),
                    '/',
                ) && canonical_str(final (self).pwd@),
                Err(e) => resolve(old(self).root, canonicalize(to_abs_spec(s@, old(self).pwd@)))
                    is None && final (self).pwd == old(self).pwd && e@ == cd_err_msg(s@),
            },
    {
        let abs = self.to_abs_path(s);
        let segs = KfileSystem::sanitize(abs.as_str());
        proof {
            assert(views_of(segs@).skip(0) =~= views_of(segs@));
        }
        let found = match KfileSystem::get_at(&self.root, &segs, 0) {
            Some(_) => true,
            None => false,
        };
        if found {
            let sep = "/";
            proof {
                reveal_strlit("/");
                crate::paths::lemma_canonicalize_idempotent(abs@);
            }
            self.pwd = join_with(&segs, sep);
            Ok(())
        } else {
            proof {
                reveal_strlit("cd: '");
                reveal_strlit("': No such file or directory");
            }
            let mut msg = String::from_str("cd: '");
            msg.append(s);
            msg.append("': No such file or directory");
            Err(msg)
        }
    }

    /// Is `c` a word separator on a command line?
    fn is_space_char(c: char) -> (r: bool)
        ensures
            r == is_space(c),
    {
        c == ' ' || c == '\t' || c == '\n' || c == '\r' || c == '\u{000b}' || c == '\u{000c}'
    }

    /// The words of a command line: `s` split on runs of whitespace.
    pub fn tokenize(s: &str) -> (r: Vec<String>)
        ensures
            views_of(r@) == split_ws(s@),
    {
        let n = s.unicode_len();
        let mut out: Vec<String> = Vec::new();
        let mut i: usize = 0;
        proof {
            assert(s@.skip(0) =~= s@);
        }
        loop
            invariant
                i <= n,
                n == s@.len(),
                split_ws(s@) =~= views_of(out@) + split_ws(s@.skip(i as int)),
            decreases n - i,
        {
            if i == n {
                proof {
                    assert(s@.skip(n as int) =~= Seq::<char>::empty());
                    assert(views_of(out@) + split_ws(s@.skip(n as int)) =~= views_of(out@));
                }
                return out;
            }
            let ghost si = s@.skip(i as int);
            proof {
                assert(si[0] == s@[i as int]);
            }
            let c = s.get_char(i);
            if KfileSystem::is_space_char(c) {
                proof {
                    assert(si.skip(1) =~= s@.skip(i as int + 1));
                }
                i = i + 1;
            } else {
                let b = i;
                i = i + 1;
                while i < n && !KfileSystem::is_space_char(s.get_char(i))
                    invariant
                        b < i <= n,
                        n == s@.len(),
                        forall|j: int| b <= j < i ==> !is_space(s@[j]),
                    decreases n - i,
                {
                    i = i + 1;
                }
                let ghost sb = s@.skip(b as int);
                proof {
                    assert forall|j: int| 0 <= j < i - b implies !is_space(sb[j]) by {
                        assert(sb[j] == s@[b + j]);
                    }
                    if i < n {
                        assert(sb[i - b as int] == s@[i as int]);
                    }
                    lemma_first_space_at(sb, i - b as int);
                    assert(sb.take(i - b as int) =~= s@.subrange(b as int, i as int));
                    assert(sb.skip(i - b as int) =~= s@.skip(i as int));
                    if i - b < sb.len() {
                        assert(split_ws(sb) =~= seq![s@.subrange(b as int, i as int)] + split_ws(
                            s@.skip(i as int),
                        ));
                    } else {
                        assert(sb =~= s@.subrange(b as int, i as int));
                        assert(s@.skip(i as int) =~= Seq::<char>::empty());
                        assert(split_ws(sb) =~= seq![s@.subrange(b as int, i as int)] + split_ws(
                            s@.skip(i as int),
                        ));
                    }
                }
                let ghost prev = out@;
                out.push(String::from_str(s.substring_char(b, i)));
                proof {
                    assert(views_of(out@) =~= views_of(prev) + seq![s@.subrange(
                        b as int,
                        i as int,
                    )]);
                }
            }
        }
    }

    /// Reset the working path to the root.
    pub fn cd_root(&mut self)
        ensures
            final (self).root == old(self).root,
            final (self).pwd@.len() == 0,
            canonical_str(final (self).pwd@),
    {
        self.pwd = String::new();
        proof {
            crate::paths::lemma_canonical_empty();
            assert(self.pwd@ =~= Seq::<char>::empty());
        }
    }

    /// The absolute working path: `/` followed by the stored working path.
    pub fn pwd(&self) -> (r: Result<String, String>)
        ensures
            r matches Ok(p) && p@ == seq!['/'] + self.pwd@,
    {
        proof {
            reveal_strlit("/");
        }
        let mut p = String::from_str("/");
        p.append(self.pwd.as_str());
        proof {
            assert(p@ =~= seq!['/'] + self.pwd@);
        }
        Ok(p)
    }
}

} // verus!
