//! Lexical path handling: splitting a raw path string on `/`, resolving `.`
//! and `..` segments purely lexically, and joining or sorting segment
//! sequences.
//!
//! Canonical form of a path is an ordered sequence of plain segments: each
//! non-empty, not `.`, not `..`, with every `..` cancelled against the
//! preceding plain segment and excess `..` silently dropped at the root.

use vstd::prelude::*;

verus! {

// ---------------------------------------------------------------------------
// Segment classification
// ---------------------------------------------------------------------------

/// The segment `.`: the current directory, lexically a no-op.
pub open spec fn seg_is_dot(s: Seq<char>) -> bool {
    s.len() == 1 && s[0] == '.'
}

/// The segment `..`: one step up, cancelled against the preceding segment.
pub open spec fn seg_is_up(s: Seq<char>) -> bool {
    s.len() == 2 && s[0] == '.' && s[1] == '.'
}

/// A plain segment: non-empty and neither `.` nor `..`. Only these survive
/// canonicalization.
pub open spec fn seg_is_plain(s: Seq<char>) -> bool {
    s.len() > 0 && !seg_is_dot(s) && !seg_is_up(s)
}

/// No `/` occurs in `s`; true of every segment produced by splitting.
pub open spec fn slash_free(s: Seq<char>) -> bool {
    forall|i: int| 0 <= i < s.len() ==> s[i] != '/'
}

// ---------------------------------------------------------------------------
// Splitting on '/'
// ---------------------------------------------------------------------------

/// Index of the first `/` in `s`, or `s.len()` if there is none.
pub open spec fn first_slash(s: Seq<char>) -> int
    decreases s.len(),
{
    if s.len() == 0 {
        0
    } else if s[0] == '/' {
        0
    } else {
        1 + first_slash(s.skip(1))
    }
}

/// `first_slash` is the one index `k` before which no `/` occurs and at
/// which one does (or `s.len()` when none does at all).
pub proof fn lemma_first_slash_at(s: Seq<char>, k: int)
    requires
        0 <= k <= s.len(),
        forall|j: int| 0 <= j < k ==> s[j] != '/',
        k < s.len() ==> s[k] == '/',
    ensures
        first_slash(s) == k,
    decreases s.len(),
{
    if s.len() == 0 {
    } else if k == 0 {
    } else {
        assert(s[0] != '/');
        lemma_first_slash_at(s.skip(1), k - 1);
    }
}

pub proof fn lemma_first_slash(s: Seq<char>)
    ensures
        0 <= first_slash(s) <= s.len(),
        first_slash(s) < s.len() ==> s[first_slash(s)] == '/',
        forall|j: int| 0 <= j < first_slash(s) ==> s[j] != '/',
    decreases s.len(),
{
    if s.len() == 0 {
    } else if s[0] == '/' {
    } else {
        lemma_first_slash(s.skip(1));
        assert forall|j: int| 0 <= j < first_slash(s) implies s[j] != '/' by {
            if j > 0 {
                assert(s.skip(1)[j - 1] != '/');
            }
        }
    }
}

/// `s` split on `/`: the sequence of (possibly empty) segments between
/// separators. Splitting the empty string yields one empty segment, as
/// splitting in Rust does.
pub open spec fn split_slash(s: Seq<char>) -> Seq<Seq<char>>
    decreases s.len(),
{
    let i = first_slash(s);
    if 0 <= i < s.len() {
        seq![s.take(i)] + split_slash(s.skip(i + 1))
    } else {
        seq![s]
    }
}

// ---------------------------------------------------------------------------
// Canonicalization
// ---------------------------------------------------------------------------

/// The segments that survive canonicalization of `segs`, processed from the
/// end toward the start: empty and `.` segments are skipped, `..` cancels the
/// nearest plain segment before it, and excess `..` are dropped.
pub open spec fn canon_keep(segs: Seq<Seq<char>>) -> Seq<Seq<char>>
    decreases segs.len(),
{
    if segs.len() == 0 {
        Seq::empty()
    } else {
        let rest = canon_keep(segs.skip(1));
        let v = segs[0];
        if !seg_is_plain(v) {
            rest
        } else if canon_ups(segs.skip(1)) > 0 {
            rest
        } else {
            seq![v] + rest
        }
    }
}

/// How many `..` of `segs` are still waiting, after processing, to cancel
/// segments further to the left. A natural number: it can never fall below
/// zero, which is how excess `..` at the root are dropped rather than
/// reported as an error.
pub open spec fn canon_ups(segs: Seq<Seq<char>>) -> nat
    decreases segs.len(),
{
    if segs.len() == 0 {
        0
    } else {
        let ups = canon_ups(segs.skip(1));
        let v = segs[0];
        if seg_is_up(v) {
            ups + 1
        } else if seg_is_plain(v) && ups > 0 {
            (ups - 1) as nat
        } else {
            ups
        }
    }
}

/// Canonical segment sequence of a raw path string: split on `/`, then
/// resolve `.` and `..` lexically.
pub open spec fn canonicalize(s: Seq<char>) -> Seq<Seq<char>> {
    canon_keep(split_slash(s))
}

// ---------------------------------------------------------------------------
// Joining
// ---------------------------------------------------------------------------

/// The segments of `segs` joined with the single separator `sep`.
pub open spec fn join_char(segs: Seq<Seq<char>>, sep: char) -> Seq<char>
    decreases segs.len(),
{
    if segs.len() == 0 {
        Seq::empty()
    } else if segs.len() == 1 {
        segs[0]
    } else {
        segs[0] + seq![sep] + join_char(segs.skip(1), sep)
    }
}

// ---------------------------------------------------------------------------
// Lexicographic order on segments
// ---------------------------------------------------------------------------

/// Strict lexicographic order on character sequences, by code point; the
/// order in which listings are presented.
pub open spec fn lex_lt(a: Seq<char>, b: Seq<char>) -> bool
    decreases a.len(),
{
    b.len() > 0 && (a.len() == 0 || (a[0] as u32) < (b[0] as u32) || (a[0] == b[0] && lex_lt(
        a.skip(1),
        b.skip(1),
    )))
}

/// Non-strict companion of [`lex_lt`]: `a` does not come after `b`.
pub open spec fn lex_le(a: Seq<char>, b: Seq<char>) -> bool {
    !lex_lt(b, a)
}

/// `s` is sorted: each segment is at most its successor.
pub open spec fn sorted_segs(s: Seq<Seq<char>>) -> bool {
    forall|i: int| 0 <= i < s.len() - 1 ==> lex_le(#[trigger] s[i], s[i + 1])
}

/// `x` placed into the sorted sequence `s`, before the first element that is
/// not below `x`.
pub open spec fn insert_sorted(x: Seq<char>, s: Seq<Seq<char>>) -> Seq<Seq<char>>
    decreases s.len(),
{
    if s.len() == 0 {
        seq![x]
    } else if lex_lt(s[0], x) {
        seq![s[0]] + insert_sorted(x, s.skip(1))
    } else {
        seq![x] + s
    }
}

/// Insertion sort of `s`, processing from the left: the listing order of a
/// folder's child names.
pub open spec fn sort_segs(s: Seq<Seq<char>>) -> Seq<Seq<char>>
    decreases s.len(),
{
    if s.len() == 0 {
        Seq::empty()
    } else {
        insert_sorted(s.last(), sort_segs(s.drop_last()))
    }
}

/// The views of a sequence of strings.
pub open spec fn views_of(s: Seq<String>) -> Seq<Seq<char>> {
    Seq::new(s.len(), |i: int| s[i]@)
}

// ---------------------------------------------------------------------------
// Laws of canonicalization
// ---------------------------------------------------------------------------

/// Every segment that canonicalization keeps is plain: never empty, `.` or
/// `..`. In particular the pending-up counter is a natural number — excess
/// `..` are dropped at the root, never an error or a negative state.
pub proof fn lemma_canon_all_plain(segs: Seq<Seq<char>>)
    ensures
        forall|i: int|
            0 <= i < canon_keep(segs).len() ==> seg_is_plain(#[trigger] canon_keep(segs)[i]),
    decreases segs.len(),
{
    if segs.len() > 0 {
        lemma_canon_all_plain(segs.skip(1));
        let r = canon_keep(segs);
        let rest = canon_keep(segs.skip(1));
        assert forall|i: int| 0 <= i < r.len() implies seg_is_plain(#[trigger] r[i]) by {
            if r == seq![segs[0]] + rest && i > 0 {
                assert(r[i] == rest[i - 1]);
            }
        }
    }
}

/// Canonicalizing an already-canonical sequence of plain segments returns
/// it unchanged, with no pending `..`.
pub proof fn lemma_canon_plain_identity(segs: Seq<Seq<char>>)
    requires
        forall|i: int| 0 <= i < segs.len() ==> seg_is_plain(#[trigger] segs[i]),
    ensures
        canon_keep(segs) == segs,
        canon_ups(segs) == 0,
    decreases segs.len(),
{
    if segs.len() > 0 {
        assert forall|i: int| 0 <= i < segs.skip(1).len() implies seg_is_plain(
            #[trigger] segs.skip(1)[i],
        ) by {
            assert(segs.skip(1)[i] == segs[i + 1]);
        }
        lemma_canon_plain_identity(segs.skip(1));
        assert(canon_keep(segs) =~= segs);
    }
}

/// Splitting yields slash-free segments.
pub proof fn lemma_split_slash_free(s: Seq<char>)
    ensures
        forall|i: int|
            0 <= i < split_slash(s).len() ==> slash_free(#[trigger] split_slash(s)[i]),
    decreases s.len(),
{
    lemma_first_slash(s);
    let k = first_slash(s);
    let r = split_slash(s);
    if 0 <= k < s.len() {
        lemma_split_slash_free(s.skip(k + 1));
        assert(slash_free(s.take(k)));
        assert forall|i: int| 0 <= i < r.len() implies slash_free(#[trigger] r[i]) by {
            if i > 0 {
                assert(r[i] == split_slash(s.skip(k + 1))[i - 1]);
            }
        }
    } else {
        assert(slash_free(s));
    }
}

/// Canonicalization keeps only segments of its input, so slash-freeness
/// survives it.
pub proof fn lemma_canon_slash_free(segs: Seq<Seq<char>>)
    requires
        forall|i: int| 0 <= i < segs.len() ==> slash_free(#[trigger] segs[i]),
    ensures
        forall|i: int|
            0 <= i < canon_keep(segs).len() ==> slash_free(#[trigger] canon_keep(segs)[i]),
    decreases segs.len(),
{
    if segs.len() > 0 {
        assert forall|i: int| 0 <= i < segs.skip(1).len() implies slash_free(
            #[trigger] segs.skip(1)[i],
        ) by {
            assert(segs.skip(1)[i] == segs[i + 1]);
        }
        lemma_canon_slash_free(segs.skip(1));
        let r = canon_keep(segs);
        let rest = canon_keep(segs.skip(1));
        assert forall|i: int| 0 <= i < r.len() implies slash_free(#[trigger] r[i]) by {
            if r == seq![segs[0]] + rest && i > 0 {
                assert(r[i] == rest[i - 1]);
            }
        }
    }
}

/// Splitting undoes joining, for non-empty sequences of slash-free
/// segments.
pub proof fn lemma_split_join(p: Seq<Seq<char>>)
    requires
        p.len() > 0,
        forall|i: int| 0 <= i < p.len() ==> slash_free(#[trigger] p[i]),
    ensures
        split_slash(join_char(p, '/')) == p,
    decreases p.len(),
{
    let j = join_char(p, '/');
    if p.len() == 1 {
        assert(j == p[0]);
        lemma_first_slash_at(j, j.len() as int);
        assert(split_slash(j) =~= p);
    } else {
        let rest = join_char(p.skip(1), '/');
        assert(j == p[0] + seq!['/'] + rest);
        let n = p[0].len() as int;
        assert forall|x: int| 0 <= x < n implies j[x] != '/' by {
            assert(j[x] == p[0][x]);
        }
        assert(j[n] == '/');
        lemma_first_slash_at(j, n);
        assert(j.take(n) =~= p[0]);
        assert(j.skip(n + 1) =~= rest);
        assert forall|i: int| 0 <= i < p.skip(1).len() implies slash_free(
            #[trigger] p.skip(1)[i],
        ) by {
            assert(p.skip(1)[i] == p[i + 1]);
        }
        lemma_split_join(p.skip(1));
        assert(split_slash(j) =~= seq![p[0]] + p.skip(1));
        assert(seq![p[0]] + p.skip(1) =~= p);
    }
}

/// `s` is a canonical path string: joining its canonical segments with `/`
/// gives `s` itself back. The working path of a session is kept in this
/// form, the empty string standing for the root.
pub open spec fn canonical_str(s: Seq<char>) -> bool {
    join_char(canonicalize(s), '/') == s
}

/// The empty string is canonical: it is the root's working path.
pub proof fn lemma_canonical_empty()
    ensures
        canonical_str(Seq::<char>::empty()),
        canonicalize(Seq::<char>::empty()) == Seq::<Seq<char>>::empty(),
{
    let e = Seq::<char>::empty();
    lemma_first_slash_at(e, 0);
    assert(split_slash(e) =~= seq![e]);
    assert(!seg_is_plain(e));
    assert(seq![e].skip(1) =~= Seq::<Seq<char>>::empty());
    assert(canon_keep(Seq::<Seq<char>>::empty()) =~= Seq::<Seq<char>>::empty());
    assert(canon_keep(seq![e]) == canon_keep(seq![e].skip(1)));
    assert(canonicalize(e) =~= Seq::<Seq<char>>::empty());
}

/// Canonicalization is idempotent: re-canonicalizing the joined canonical
/// form of any path gives the canonical form itself. Every stored working
/// path is such a joined canonical form, hence canonical.
pub proof fn lemma_canonicalize_idempotent(s: Seq<char>)
    ensures
        canonicalize(join_char(canonicalize(s), '/')) == canonicalize(s),
        canonical_str(join_char(canonicalize(s), '/')),
{
    let p = canonicalize(s);
    lemma_canon_all_plain(split_slash(s));
    lemma_split_slash_free(s);
    lemma_canon_slash_free(split_slash(s));
    if p.len() == 0 {
        assert(join_char(p, '/') == Seq::<char>::empty());
        lemma_canonical_empty();
        assert(canonicalize(Seq::<char>::empty()) =~= p);
    } else {
        lemma_split_join(p);
        lemma_canon_plain_identity(p);
    }
}

// ---------------------------------------------------------------------------
// Laws of the listing order
// ---------------------------------------------------------------------------

/// The lexicographic order is asymmetric: two segments never come before
/// one another at once.
pub proof fn lemma_lex_asym(a: Seq<char>, b: Seq<char>)
    ensures
        lex_lt(a, b) ==> !lex_lt(b, a),
    decreases a.len(),
{
    if a.len() > 0 && b.len() > 0 {
        lemma_lex_asym(a.skip(1), b.skip(1));
    }
}

/// Inserting into a sorted sequence keeps it sorted.
pub proof fn lemma_insert_sorted_sorted(x: Seq<char>, s: Seq<Seq<char>>)
    requires
        sorted_segs(s),
    ensures
        sorted_segs(insert_sorted(x, s)),
    decreases s.len(),
{
    let r = insert_sorted(x, s);
    if s.len() == 0 {
    } else if lex_lt(s[0], x) {
        let tail = s.skip(1);
        assert forall|i: int| 0 <= i < tail.len() - 1 implies lex_le(
            #[trigger] tail[i],
            tail[i + 1],
        ) by {
            assert(tail[i] == s[i + 1]);
            assert(tail[i + 1] == s[i + 2]);
        }
        lemma_insert_sorted_sorted(x, tail);
        let rt = insert_sorted(x, tail);
        assert(r == seq![s[0]] + rt);
        assert forall|i: int| 0 <= i < r.len() - 1 implies lex_le(#[trigger] r[i], r[i + 1]) by {
            if i == 0 {
                if tail.len() == 0 {
                    assert(r[1] == x);
                    lemma_lex_asym(s[0], x);
                } else if lex_lt(tail[0], x) {
                    assert(rt[0] == tail[0]);
                    assert(lex_le(s[0], s[1]));
                } else {
                    assert(rt[0] == x);
                    lemma_lex_asym(s[0], x);
                }
            } else {
                assert(r[i] == rt[i - 1]);
                assert(r[i + 1] == rt[i]);
            }
        }
    } else {
        assert forall|i: int| 0 <= i < r.len() - 1 implies lex_le(#[trigger] r[i], r[i + 1]) by {
            if i > 0 {
                assert(r[i] == s[i - 1]);
                assert(r[i + 1] == s[i]);
            }
        }
    }
}

/// A sorted listing: the sort of any name sequence is sorted, whatever the
/// insertion order was.
pub proof fn lemma_sort_sorted(s: Seq<Seq<char>>)
    ensures
        sorted_segs(sort_segs(s)),
    decreases s.len(),
{
    if s.len() > 0 {
        lemma_sort_sorted(s.drop_last());
        lemma_insert_sorted_sorted(s.last(), sort_segs(s.drop_last()));
    }
}

pub proof fn lemma_insert_sorted_multiset(x: Seq<char>, s: Seq<Seq<char>>)
    ensures
        insert_sorted(x, s).to_multiset() == s.to_multiset().insert(x),
    decreases s.len(),
{
    broadcast use vstd::seq_lib::group_to_multiset_ensures;

    if s.len() == 0 {
        assert(s =~= Seq::<Seq<char>>::empty());
        assert(insert_sorted(x, s) =~= s.push(x));
    } else if lex_lt(s[0], x) {
        let tail = s.skip(1);
        let ins = insert_sorted(x, tail);
        lemma_insert_sorted_multiset(x, tail);
        vstd::seq_lib::lemma_multiset_commutative(seq![s[0]], ins);
        vstd::seq_lib::lemma_multiset_commutative(seq![s[0]], tail);
        assert(s =~= seq![s[0]] + tail);
        assert(seq![s[0]].to_multiset().add(tail.to_multiset().insert(x)) =~= (seq![
            s[0],
        ].to_multiset().add(tail.to_multiset())).insert(x));
    } else {
        vstd::seq_lib::lemma_multiset_commutative(seq![x], s);
        assert(seq![x] =~= Seq::<Seq<char>>::empty().push(x));
        assert(seq![x].to_multiset() =~= Seq::<Seq<char>>::empty().to_multiset().insert(x));
        assert(Seq::<Seq<char>>::empty().to_multiset().len() == 0);
        assert(seq![x].to_multiset().add(s.to_multiset()) =~= s.to_multiset().insert(x));
    }
}

/// The listing order is a re-ordering and nothing more: sorting keeps
/// exactly the names that were there, multiplicities included.
pub proof fn lemma_sort_multiset(s: Seq<Seq<char>>)
    ensures
        sort_segs(s).to_multiset() == s.to_multiset(),
    decreases s.len(),
{
    broadcast use vstd::seq_lib::group_to_multiset_ensures;

    if s.len() > 0 {
        lemma_sort_multiset(s.drop_last());
        lemma_insert_sorted_multiset(s.last(), sort_segs(s.drop_last()));
        assert(s =~= s.drop_last().push(s.last()));
    }
}

// ---------------------------------------------------------------------------
// Executable string primitives
// ---------------------------------------------------------------------------

/// Character-wise string equality.
pub fn str_eq(a: &str, b: &str) -> (r: bool)
    ensures
        r == (a@ == b@),
{
    let la = a.unicode_len();
    let lb = b.unicode_len();
    if la != lb {
        proof {
            assert(a@ != b@);
        }
        return false;
    }
    let mut i: usize = 0;
    while i < la
        invariant
            i <= la,
            la == a@.len(),
            la == b@.len(),
            forall|j: int| 0 <= j < i ==> a@[j] == b@[j],
        decreases la - i,
    {
        if a.get_char(i) != b.get_char(i) {
            return false;
        }
        i = i + 1;
    }
    proof {
        assert(a@ =~= b@);
    }
    true
}

/// Is `s` the segment `.`?
pub fn is_dot_seg(s: &str) -> (r: bool)
    ensures
        r == seg_is_dot(s@),
{
    s.unicode_len() == 1 && s.get_char(0) == '.'
}

/// Is `s` the segment `..`?
pub fn is_up_seg(s: &str) -> (r: bool)
    ensures
        r == seg_is_up(s@),
{
    s.unicode_len() == 2 && s.get_char(0) == '.' && s.get_char(1) == '.'
}

/// Strict lexicographic comparison of two strings, by code point.
pub fn str_lt(a: &str, b: &str) -> (r: bool)
    ensures
        r == lex_lt(a@, b@),
{
    let la = a.unicode_len();
    let lb = b.unicode_len();
    let mut i: usize = 0;
    proof {
        assert(a@.skip(0) =~= a@);
        assert(b@.skip(0) =~= b@);
    }
    loop
        invariant
            i <= la,
            i <= lb,
            la == a@.len(),
            lb == b@.len(),
            lex_lt(a@, b@) == lex_lt(a@.skip(i as int), b@.skip(i as int)),
        decreases la - i,
    {
        if i == la || i == lb {
            proof {
                reveal_with_fuel(lex_lt, 2);
            }
            return i == la && i < lb;
        }
        let ca = a.get_char(i);
        let cb = b.get_char(i);
        proof {
            let sa = a@.skip(i as int);
            let sb = b@.skip(i as int);
            assert(sa[0] == a@[i as int]);
            assert(sb[0] == b@[i as int]);
            assert(sa.skip(1) =~= a@.skip(i + 1));
            assert(sb.skip(1) =~= b@.skip(i + 1));
        }
        if (ca as u32) < (cb as u32) {
            return true;
        }
        if (ca as u32) > (cb as u32) {
            return false;
        }
        proof {
            assert(ca == cb) by {
                assert((ca as u32) == (cb as u32));
            }
        }
        i = i + 1;
    }
}

// ---------------------------------------------------------------------------
// Executable splitting and canonicalization
// ---------------------------------------------------------------------------

/// Split `s` on `/` into its raw (possibly empty) segments.
pub fn split_slash_str(s: &str) -> (r: Vec<String>)
    ensures
        views_of(r@) == split_slash(s@),
{
    let n = s.unicode_len();
    let mut out: Vec<String> = Vec::new();
    let mut b: usize = 0;
    let mut i: usize = 0;
    proof {
        assert(s@.skip(0) =~= s@);
    }
    loop
        invariant
            b <= i <= n,
            n == s@.len(),
            forall|j: int| b <= j < i ==> s@[j] != '/',
            split_slash(s@) =~= views_of(out@) + split_slash(s@.skip(b as int)),
        decreases n - i,
    {
        let ghost prev = out@;
        let ghost sb = s@.skip(b as int);
        if i == n {
            let seg = String::from_str(s.substring_char(b, n));
            out.push(seg);
            proof {
                lemma_first_slash_at(sb, n - b as int);
                assert(sb.take(n - b as int) =~= sb);
                assert(split_slash(sb) =~= seq![s@.subrange(b as int, n as int)]);
                assert(views_of(out@) =~= views_of(prev) + seq![s@.subrange(b as int, n as int)]);
            }
            return out;
        }
        let c = s.get_char(i);
        if c == '/' {
            let seg = String::from_str(s.substring_char(b, i));
            out.push(seg);
            proof {
                lemma_first_slash_at(sb, i - b as int);
                assert(sb.take(i - b as int) =~= s@.subrange(b as int, i as int));
                assert(sb.skip(i - b as int + 1) =~= s@.skip(i as int + 1));
                assert(split_slash(sb) =~= seq![s@.subrange(b as int, i as int)] + split_slash(
                    s@.skip(i as int + 1),
                ));
                assert(views_of(out@) =~= views_of(prev) + seq![s@.subrange(b as int, i as int)]);
            }
            b = i + 1;
        }
        i = i + 1;
    }
}

/// Resolve `.` and `..` in a raw segment sequence, from the end toward the
/// start, keeping exactly the segments that [`canon_keep`] keeps.
pub fn canon_segments(segs: &Vec<String>) -> (r: Vec<String>)
    ensures
        views_of(r@) == canon_keep(views_of(segs@)),
{
    let mut out: Vec<String> = Vec::new();
    let mut ups: usize = 0;
    let mut i: usize = segs.len();
    proof {
        assert(views_of(segs@).skip(segs@.len() as int) =~= Seq::<Seq<char>>::empty());
    }
    loop
        invariant
            i <= segs@.len(),
            segs@.len() <= usize::MAX,
            ups <= segs@.len() - i,
            views_of(out@) =~= canon_keep(views_of(segs@).skip(i as int)),
            ups == canon_ups(views_of(segs@).skip(i as int)),
        decreases i,
    {
        if i == 0 {
            proof {
                assert(views_of(segs@).skip(0) =~= views_of(segs@));
            }
            return out;
        }
        i = i - 1;
        let v = &segs[i];
        let ghost vs = views_of(segs@).skip(i as int);
        proof {
            assert(vs[0] == v@);
            assert(vs.skip(1) =~= views_of(segs@).skip(i as int + 1));
        }
        if v.as_str().is_empty() || is_dot_seg(v.as_str()) {
        } else if is_up_seg(v.as_str()) {
            proof {
                assert(ups + 1 <= segs@.len() - i);
            }
            ups = ups + 1;
        } else if ups > 0 {
            ups = ups - 1;
        } else {
            let ghost prev = out@;
            out.insert(0, v.clone());
            proof {
                assert(views_of(out@) =~= seq![v@] + views_of(prev));
            }
        }
    }
}

// ---------------------------------------------------------------------------
// Executable joining
// ---------------------------------------------------------------------------

pub proof fn lemma_join_snoc(segs: Seq<Seq<char>>, x: Seq<char>, sep: char)
    requires
        segs.len() >= 1,
    ensures
        join_char(segs.push(x), sep) == join_char(segs, sep) + seq![sep] + x,
    decreases segs.len(),
{
    if segs.len() == 1 {
        assert(segs.push(x).skip(1) =~= seq![x]);
        assert(segs.push(x)[0] == segs[0]);
        assert(join_char(seq![x], sep) == x);
        assert(join_char(segs.push(x), sep) =~= segs[0] + seq![sep] + x);
    } else {
        assert(segs.push(x).skip(1) =~= segs.skip(1).push(x));
        lemma_join_snoc(segs.skip(1), x, sep);
        assert(segs[0] + seq![sep] + (join_char(segs.skip(1), sep) + seq![sep] + x) =~= (segs[0]
            + seq![sep] + join_char(segs.skip(1), sep)) + seq![sep] + x);
    }
}

/// Join the segments of `segs` with the one-character separator `sep`.
pub fn join_with(segs: &Vec<String>, sep: &str) -> (r: String)
    requires
        sep@.len() == 1,
    ensures
        r@ == join_char(views_of(segs@), sep@[0]),
{
    let mut r = String::new();
    if segs.len() == 0 {
        return r;
    }
    r.append(segs[0].as_str());
    let mut i: usize = 1;
    proof {
        assert(views_of(segs@).take(1) =~= seq![segs@[0]@]);
    }
    while i < segs.len()
        invariant
            1 <= i <= segs@.len(),
            sep@.len() == 1,
            r@ == join_char(views_of(segs@).take(i as int), sep@[0]),
        decreases segs@.len() - i,
    {
        r.append(sep);
        r.append(segs[i].as_str());
        proof {
            lemma_join_snoc(views_of(segs@).take(i as int), segs@[i as int]@, sep@[0]);
            assert(views_of(segs@).take(i as int + 1) =~= views_of(segs@).take(i as int).push(
                segs@[i as int]@,
            ));
            assert(seq![sep@[0]] =~= sep@);
        }
        i = i + 1;
    }
    proof {
        assert(views_of(segs@).take(segs@.len() as int) =~= views_of(segs@));
    }
    r
}

// ---------------------------------------------------------------------------
// Executable sorting
// ---------------------------------------------------------------------------

/// Place `x` into the already-sorted `out`, before the first element that is
/// not lexicographically below it.
pub fn insert_string_sorted(out: &mut Vec<String>, x: String)
    ensures
        views_of(final (out)@) == insert_sorted(x@, views_of(old(out)@)),
{
    let ghost vs = views_of(out@);
    let mut j: usize = 0;
    proof {
        assert(vs.take(0) =~= Seq::<Seq<char>>::empty());
        assert(vs.skip(0) =~= vs);
    }
    while j < out.len() && str_lt(out[j].as_str(), x.as_str())
        invariant
            j <= vs.len(),
            out@.len() == vs.len(),
            vs == views_of(out@),
            insert_sorted(x@, vs) == vs.take(j as int) + insert_sorted(x@, vs.skip(j as int)),
            j > 0 ==> lex_lt(vs[j - 1], x@),
        decreases vs.len() - j,
    {
        proof {
            assert(vs.skip(j as int)[0] == vs[j as int]);
            assert(vs.skip(j as int).skip(1) =~= vs.skip(j as int + 1));
            assert(vs.take(j as int).push(vs[j as int]) =~= vs.take(j as int + 1));
            assert(vs.take(j as int) + (seq![vs[j as int]] + insert_sorted(
                x@,
                vs.skip(j as int + 1),
            )) =~= vs.take(j as int + 1) + insert_sorted(x@, vs.skip(j as int + 1)));
        }
        j = j + 1;
    }
    let ghost prev = out@;
    out.insert(j, x);
    proof {
        if j < vs.len() {
            assert(vs.skip(j as int)[0] == vs[j as int]);
        }
        assert(insert_sorted(x@, vs.skip(j as int)) =~= seq![x@] + vs.skip(j as int));
        assert(views_of(out@) =~= vs.take(j as int) + (seq![x@] + vs.skip(j as int)));
    }
}

/// Sort a sequence of names into listing order.
pub fn sort_strings(v: &Vec<String>) -> (r: Vec<String>)
    ensures
        views_of(r@) == sort_segs(views_of(v@)),
{
    let mut out: Vec<String> = Vec::new();
    let mut i: usize = 0;
    proof {
        assert(views_of(v@).take(0) =~= Seq::<Seq<char>>::empty());
        assert(views_of(out@) =~= Seq::<Seq<char>>::empty());
    }
    while i < v.len()
        invariant
            i <= v@.len(),
            views_of(out@) == sort_segs(views_of(v@).take(i as int)),
        decreases v@.len() - i,
    {
        insert_string_sorted(&mut out, v[i].clone());
        proof {
            assert(views_of(v@).take(i as int + 1).drop_last() =~= views_of(v@).take(i as int));
            assert(views_of(v@).take(i as int + 1).last() == v@[i as int]@);
        }
        i = i + 1;
    }
    proof {
        assert(views_of(v@).take(v@.len() as int) =~= views_of(v@));
    }
    out
}

} // verus!
