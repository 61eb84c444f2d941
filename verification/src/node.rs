//! The tree element: a node is either a folder, mapping child names to owned
//! child nodes, or a file.

use crate::paths::join_char;
use crate::paths::join_with;
use crate::paths::sort_segs;
use crate::paths::sort_strings;
use crate::paths::str_eq;
use crate::paths::views_of;
use vstd::prelude::*;

verus! {

/// A tree node: either a folder with named children or a file with content.
pub enum Knode {
    Kfolder(Kfolder),
    Kfile(Kfile),
}

/// A file; it holds content, whose mutation is out of scope.
pub struct Kfile {
    text: String,
}

/// A folder: a mapping from child name to owned child node, kept as a
/// sequence of pairs in insertion order with pairwise distinct names.
pub struct Kfolder {
    pub children: Vec<(String, Knode)>,
}

// ---------------------------------------------------------------------------
// Specification of a children mapping
// ---------------------------------------------------------------------------

/// First entry of `s` named `name`, if any. Children mappings keep their
/// names distinct, so the first match is the only one.
pub open spec fn lookup(s: Seq<(String, Knode)>, name: Seq<char>) -> Option<Knode>
    decreases s.len(),
{
    if s.len() == 0 {
        None
    } else if s[0].0@ == name {
        Some(s[0].1)
    } else {
        lookup(s.skip(1), name)
    }
}

/// The names of the entries of `s`, in storage order.
pub open spec fn names_of(s: Seq<(String, Knode)>) -> Seq<Seq<char>> {
    Seq::new(s.len(), |i: int| s[i].0@)
}

/// The names of `s` are pairwise distinct: the mapping invariant of a
/// folder's children.
pub open spec fn names_distinct(s: Seq<(String, Knode)>) -> bool {
    forall|i: int, j: int| 0 <= i < j < s.len() ==> s[i].0@ != s[j].0@
}

/// Every folder reachable from `n` keeps its children's names distinct.
pub open spec fn node_wf(n: Knode) -> bool
    decreases n,
{
    match n {
        Knode::Kfolder(f) => names_distinct(f.children@) && (forall|i: int|
            0 <= i < f.children@.len() ==> node_wf(#[trigger] f.children@[i].1)),
        Knode::Kfile(_) => true,
    }
}

/// Index of the first entry of `s` named `name`, or `s.len()` if none is.
pub open spec fn index_of(s: Seq<(String, Knode)>, name: Seq<char>) -> int
    decreases s.len(),
{
    if s.len() == 0 {
        0
    } else if s[0].0@ == name {
        0
    } else {
        1 + index_of(s.skip(1), name)
    }
}

pub proof fn lemma_index_of(s: Seq<(String, Knode)>, name: Seq<char>)
    ensures
        0 <= index_of(s, name) <= s.len(),
        index_of(s, name) < s.len() ==> s[index_of(s, name)].0@ == name && lookup(s, name)
            == Some(s[index_of(s, name)].1),
        forall|j: int| 0 <= j < index_of(s, name) ==> s[j].0@ != name,
        index_of(s, name) == s.len() <==> lookup(s, name) is None,
    decreases s.len(),
{
    if s.len() > 0 && s[0].0@ != name {
        lemma_index_of(s.skip(1), name);
        assert forall|j: int| 0 <= j < index_of(s, name) implies s[j].0@ != name by {
            if j > 0 {
                assert(s.skip(1)[j - 1].0@ != name);
            }
        }
    }
}

/// `index_of` is the one index `k` before which no entry carries `name` and
/// at which one does (or `s.len()` when none does at all).
pub proof fn lemma_index_of_at(s: Seq<(String, Knode)>, name: Seq<char>, k: int)
    requires
        0 <= k <= s.len(),
        forall|j: int| 0 <= j < k ==> s[j].0@ != name,
        k < s.len() ==> s[k].0@ == name,
    ensures
        index_of(s, name) == k,
    decreases s.len(),
{
    if s.len() == 0 {
    } else if k == 0 {
    } else {
        assert(s[0].0@ != name);
        lemma_index_of_at(s.skip(1), name, k - 1);
    }
}

/// Appending an entry leaves every present name bound as before; a name not
/// yet present finds the new entry.
pub proof fn lemma_lookup_push(s: Seq<(String, Knode)>, p: (String, Knode), key: Seq<char>)
    ensures
        lookup(s.push(p), key) == if lookup(s, key) is Some {
            lookup(s, key)
        } else if p.0@ == key {
            Some(p.1)
        } else {
            None
        },
    decreases s.len(),
{
    if s.len() == 0 {
        assert(s.push(p)[0] == p);
        assert(s.push(p).skip(1) =~= Seq::<(String, Knode)>::empty());
        assert(lookup(Seq::<(String, Knode)>::empty(), key) is None);
    } else {
        assert(s.push(p)[0] == s[0]);
        assert(s.push(p).skip(1) =~= s.skip(1).push(p));
        lemma_lookup_push(s.skip(1), p, key);
    }
}

/// Updating the first entry named `name` in place rebinds `name` and leaves
/// every other name bound as before.
pub proof fn lemma_lookup_update_at(s: Seq<(String, Knode)>, name: Seq<char>, v: Knode)
    requires
        index_of(s, name) < s.len(),
    ensures
        ({
            let i = index_of(s, name);
            let s2 = s.update(i, (s[i].0, v));
            lookup(s2, name) == Some(v) && index_of(s2, name) == i && forall|key: Seq<char>|
                key != name ==> lookup(s2, key) == #[trigger] lookup(s, key)
        }),
{
    let i = index_of(s, name);
    let s2 = s.update(i, (s[i].0, v));
    lemma_index_of(s, name);
    lemma_index_of_at(s2, name, i);
    lemma_index_of(s2, name);
    assert forall|key: Seq<char>| key != name implies lookup(s2, key) == #[trigger] lookup(
        s,
        key,
    ) by {
        lemma_index_of(s, key);
        let k = index_of(s, key);
        assert forall|j: int| 0 <= j < k implies s2[j].0@ != key by {
            assert(s2[j].0@ == s[j].0@);
        }
        if k < s.len() {
            assert(s2[k].0@ == key);
        }
        lemma_index_of_at(s2, key, k);
        lemma_index_of(s2, key);
        if k < s.len() {
            assert(s2[k].1 == s[k].1);
        }
    }
}

/// Inserting under a name that is absent keeps the names distinct: how the
/// mapping invariant of a folder survives `insert`.
pub proof fn lemma_distinct_push(s: Seq<(String, Knode)>, p: (String, Knode))
    requires
        names_distinct(s),
        lookup(s, p.0@) is None,
    ensures
        names_distinct(s.push(p)),
{
    lemma_index_of(s, p.0@);
    let s2 = s.push(p);
    assert forall|i: int, j: int| 0 <= i < j < s2.len() implies s2[i].0@ != s2[j].0@ by {
        if j == s.len() {
            assert(s2[i].0@ == s[i].0@);
            assert(s[i].0@ != p.0@);
        } else {
            assert(s2[i].0@ == s[i].0@);
            assert(s2[j].0@ == s[j].0@);
        }
    }
}

/// Deep equality of trees: same shape, same names, same file content. Two
/// nodes that are deep-equal cannot be told apart by any walk or listing.
pub open spec fn node_eq(a: Knode, b: Knode) -> bool
    decreases a,
{
    match a {
        Knode::Kfile(x) => b matches Knode::Kfile(y) && x.content() == y.content(),
        Knode::Kfolder(f) => b matches Knode::Kfolder(g) && f.children@.len() == g.children@.len()
            && (forall|i: int|
            0 <= i < f.children@.len() ==> f.children@[i].0@ == g.children@[i].0@ && node_eq(
                #[trigger] f.children@[i].1,
                g.children@[i].1,
            )),
    }
}

pub proof fn lemma_node_eq_refl(a: Knode)
    ensures
        node_eq(a, a),
    decreases a,
{
    match a {
        Knode::Kfile(_) => {
        },
        Knode::Kfolder(f) => {
            assert forall|i: int| 0 <= i < f.children@.len() implies f.children@[i].0@
                == f.children@[i].0@ && node_eq(
                #[trigger] f.children@[i].1,
                f.children@[i].1,
            ) by {
                lemma_node_eq_refl(f.children@[i].1);
            }
        },
    }
}

// ---------------------------------------------------------------------------
// Node operations
// ---------------------------------------------------------------------------

impl Knode {
    /// A fresh folder node with no children.
    pub fn new_kfolder() -> (r: Knode)
        ensures
            r matches Knode::Kfolder(f) && f.children@.len() == 0,
            node_wf(r),
    {
        Knode::Kfolder(Kfolder::new())
    }

    /// A fresh file node with empty content.
    pub fn new_kfile() -> (r: Knode)
        ensures
            r matches Knode::Kfile(f) && f.content().len() == 0,
            node_wf(r),
    {
        Knode::Kfile(Kfile::new())
    }

    pub fn is_kfolder(&self) -> (r: bool)
        ensures
            r == (self is Kfolder),
    {
        match self {
            Knode::Kfolder(_) => true,
            Knode::Kfile(_) => false,
        }
    }

    pub fn is_kfile(&self) -> (r: bool)
        ensures
            r == (self is Kfile),
    {
        match self {
            Knode::Kfile(_) => true,
            Knode::Kfolder(_) => false,
        }
    }

    pub fn as_kfolder(&self) -> (r: Option<&Kfolder>)
        ensures
            match r {
                Some(f) => *self == Knode::Kfolder(*f),
                None => self is Kfile,
            },
    {
        match self {
            Knode::Kfolder(f) => Some(f),
            Knode::Kfile(_) => None,
        }
    }

    pub fn as_kfile(&self) -> (r: Option<&Kfile>)
        ensures
            match r {
                Some(f) => *self == Knode::Kfile(*f),
                None => self is Kfolder,
            },
    {
        match self {
            Knode::Kfile(f) => Some(f),
            Knode::Kfolder(_) => None,
        }
    }

    pub fn as_kfolder_mut(&mut self) -> (r: Option<&mut Kfolder>)
        ensures
            match r {
                Some(f) => *old(self) == Knode::Kfolder(*f) && *final (self) == Knode::Kfolder(
                    *final (f),
                ),
                None => *old(self) is Kfile && *final (self) == *old(self),
            },
    {
        match self {
            Knode::Kfolder(f) => Some(f),
            Knode::Kfile(_) => None,
        }
    }

    pub fn as_kfile_mut(&mut self) -> (r: Option<&mut Kfile>)
        ensures
            match r {
                Some(f) => *old(self) == Knode::Kfile(*f) && *final (self) == Knode::Kfile(
                    *final (f),
                ),
                None => *old(self) is Kfolder && *final (self) == *old(self),
            },
    {
        match self {
            Knode::Kfile(f) => Some(f),
            Knode::Kfolder(_) => None,
        }
    }
}

impl Kfile {
    /// The file's content.
    pub closed spec fn content(self) -> Seq<char> {
        self.text@
    }

    pub fn new() -> (r: Kfile)
        ensures
            r.content().len() == 0,
    {
        Kfile { text: String::new() }
    }
}

impl Kfolder {
    pub fn new() -> (r: Kfolder)
        ensures
            r.children@.len() == 0,
    {
        Kfolder { children: Vec::new() }
    }

    /// Position of the child named `name`, if there is one.
    pub fn find(&self, name: &str) -> (r: Option<usize>)
        ensures
            match r {
                Some(j) => j == index_of(self.children@, name@) && j < self.children@.len(),
                None => lookup(self.children@, name@) is None,
            },
    {
        let mut j: usize = 0;
        while j < self.children.len()
            invariant
                j <= self.children@.len(),
                forall|k: int| 0 <= k < j ==> self.children@[k].0@ != name@,
            decreases self.children@.len() - j,
        {
            if str_eq(self.children[j].0.as_str(), name) {
                proof {
                    lemma_index_of_at(self.children@, name@, j as int);
                }
                return Some(j);
            }
            j = j + 1;
        }
        proof {
            lemma_index_of_at(self.children@, name@, self.children@.len() as int);
            lemma_index_of(self.children@, name@);
        }
        None
    }

    /// Insert `v` under the name `k` if no child of that name exists yet;
    /// an existing child is left untouched, never overwritten.
    pub fn insert(&mut self, k: String, v: Knode) -> (r: bool)
        ensures
            r == (lookup(old(self).children@, k@) is None),
            r ==> final (self).children@ == old(self).children@.push((k, v)),
            !r ==> *final (self) == *old(self),
            names_distinct(old(self).children@) ==> names_distinct(final (self).children@),
    {
        let absent = match self.find(k.as_str()) {
            Some(_) => false,
            None => true,
        };
        proof {
            lemma_index_of(self.children@, k@);
            if absent && names_distinct(self.children@) {
                lemma_distinct_push(self.children@, (k, v));
            }
        }
        if absent {
            self.children.push((k, v));
        }
        absent
    }

    /// The folder's child names, space-joined in lexicographic order.
    pub fn ls(&self) -> (r: String)
        ensures
            r@ == join_char(sort_segs(names_of(self.children@)), ' '),
    {
        let mut names: Vec<String> = Vec::new();
        let mut j: usize = 0;
        while j < self.children.len()
            invariant
                j <= self.children@.len(),
                views_of(names@) =~= names_of(self.children@).take(j as int),
            decreases self.children@.len() - j,
        {
            let ghost prev = names@;
            names.push(self.children[j].0.clone());
            proof {
                assert(views_of(names@) =~= views_of(prev).push(self.children@[j as int].0@));
                assert(names_of(self.children@).take(j as int + 1) =~= names_of(
                    self.children@,
                ).take(j as int).push(self.children@[j as int].0@));
            }
            j = j + 1;
        }
        proof {
            assert(views_of(names@) =~= names_of(self.children@));
        }
        let sorted = sort_strings(&names);
        let sep = " ";
        proof {
            reveal_strlit(" ");
        }
        join_with(&sorted, sep)
    }
}

} // verus!
