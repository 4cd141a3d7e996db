//! Lexicographic ordering of strings, and the small path calculus the
//! registry uses: joining a directory with a file name and taking the
//! directory part of a manifest path.

use vstd::prelude::*;
use vstd::relations::total_ordering;
use vstd::string::{StrSliceExecFns, StringExecFns};
use core::cmp::Ordering;
use crate::order::{flip_ord, KeyProj, TotalOrd};

verus! {

/// Three-way lexicographic comparison of character sequences, by Unicode
/// scalar value.
pub open spec fn lex_cmp(a: Seq<char>, b: Seq<char>) -> Ordering
    decreases a.len(),
{
    if a.len() == 0 && b.len() == 0 {
        Ordering::Equal
    } else if a.len() == 0 {
        Ordering::Less
    } else if b.len() == 0 {
        Ordering::Greater
    } else if a[0] == b[0] {
        lex_cmp(a.drop_first(), b.drop_first())
    } else if a[0] < b[0] {
        Ordering::Less
    } else {
        Ordering::Greater
    }
}

/// Lexicographic "less than or equal".
pub open spec fn lex_le(a: Seq<char>, b: Seq<char>) -> bool {
    lex_cmp(a, b) != Ordering::Greater
}

/// Comparing equal is the same as being the same sequence.
pub proof fn lemma_lex_cmp_eq(a: Seq<char>, b: Seq<char>)
    ensures
        lex_cmp(a, b) == Ordering::Equal <==> a == b,
    decreases a.len(),
{
    if a.len() == 0 && b.len() == 0 {
        assert(a =~= b);
    } else if a.len() > 0 && b.len() > 0 && a[0] == b[0] {
        lemma_lex_cmp_eq(a.drop_first(), b.drop_first());
        assert(forall|i: int| 1 <= i < a.len() ==> a[i] == a.drop_first()[i - 1]);
        assert(forall|i: int| 1 <= i < b.len() ==> b[i] == b.drop_first()[i - 1]);
        if lex_cmp(a, b) == Ordering::Equal {
            assert(a =~= b);
        } else {
            if a == b {
                assert(a.drop_first() == b.drop_first());
            }
        }
    } else {
        if a == b {
            assert(a.len() == b.len());
            if a.len() > 0 {
                assert(a[0] == b[0]);
            }
        }
    }
}

/// Swapping the arguments reverses the outcome.
pub proof fn lemma_lex_cmp_flip(a: Seq<char>, b: Seq<char>)
    ensures
        lex_cmp(b, a) == flip_ord(lex_cmp(a, b)),
    decreases a.len(),
{
    if a.len() > 0 && b.len() > 0 && a[0] == b[0] {
        lemma_lex_cmp_flip(a.drop_first(), b.drop_first());
    }
}

/// The ordering is transitive in its non-strict form.
pub proof fn lemma_lex_cmp_trans_le(a: Seq<char>, b: Seq<char>, c: Seq<char>)
    requires
        lex_cmp(a, b) != Ordering::Greater,
        lex_cmp(b, c) != Ordering::Greater,
    ensures
        lex_cmp(a, c) != Ordering::Greater,
    decreases a.len(),
{
    if a.len() > 0 && b.len() > 0 && c.len() > 0 && a[0] == b[0] && b[0] == c[0] {
        lemma_lex_cmp_trans_le(a.drop_first(), b.drop_first(), c.drop_first());
    }
}

/// Any relation that agrees with `lex_le` is a total ordering in the
/// sense of `vstd::relations`.
pub proof fn lemma_lex_le_total_ordering(leq: spec_fn(Seq<char>, Seq<char>) -> bool)
    requires
        forall|a: Seq<char>, b: Seq<char>| #[trigger] leq(a, b) == lex_le(a, b),
    ensures
        total_ordering(leq),
{
    assert forall|a: Seq<char>| #[trigger] leq(a, a) by {
        lemma_lex_cmp_eq(a, a);
    }
    assert forall|a: Seq<char>, b: Seq<char>, c: Seq<char>| #[trigger] leq(a, b) && #[trigger] leq(
        b,
        c,
    ) implies leq(a, c) by {
        lemma_lex_cmp_trans_le(a, b, c);
    }
    assert forall|a: Seq<char>, b: Seq<char>| #[trigger] leq(a, b) && #[trigger] leq(b, a) implies a
        == b by {
        lemma_lex_cmp_flip(a, b);
        lemma_lex_cmp_eq(a, b);
    }
    assert forall|a: Seq<char>, b: Seq<char>| #[trigger] leq(a, b) || #[trigger] leq(b, a) by {
        lemma_lex_cmp_flip(a, b);
    }
}

/// Executable three-way string comparison agreeing with `lex_cmp` of the views.
pub fn str_cmp(a: &str, b: &str) -> (r: Ordering)
    ensures
        r == lex_cmp(a@, b@),
{
    let alen = a.unicode_len();
    let blen = b.unicode_len();
    let n: usize = if alen < blen {
        alen
    } else {
        blen
    };
    let mut i: usize = 0;
    proof {
        assert(a@.skip(0) =~= a@);
        assert(b@.skip(0) =~= b@);
    }
    while i < n
        invariant
            alen == a@.len(),
            blen == b@.len(),
            n == if alen < blen {
                alen
            } else {
                blen
            },
            i <= n,
            lex_cmp(a@, b@) == lex_cmp(a@.skip(i as int), b@.skip(i as int)),
        decreases n - i,
    {
        let ca = a.get_char(i);
        let cb = b.get_char(i);
        proof {
            assert(a@.skip(i as int)[0] == ca);
            assert(b@.skip(i as int)[0] == cb);
        }
        if ca != cb {
            if (ca as u32) < (cb as u32) {
                return Ordering::Less;
            } else {
                return Ordering::Greater;
            }
        }
        proof {
            assert(a@.skip(i as int).drop_first() =~= a@.skip(i + 1));
            assert(b@.skip(i as int).drop_first() =~= b@.skip(i + 1));
        }
        i = i + 1;
    }
    proof {
        if alen <= blen {
            assert(a@.skip(i as int) =~= Seq::<char>::empty());
        }
        if blen <= alen {
            assert(b@.skip(i as int) =~= Seq::<char>::empty());
        }
    }
    if alen == blen {
        Ordering::Equal
    } else if alen < blen {
        Ordering::Less
    } else {
        Ordering::Greater
    }
}

impl TotalOrd for String {
    open spec fn cmp_spec(&self, other: &Self) -> Ordering {
        lex_cmp(self@, other@)
    }

    proof fn lemma_cmp_laws(a: &Self, b: &Self, c: &Self) {
        lemma_lex_cmp_eq(a@, a@);
        lemma_lex_cmp_eq(a@, b@);
        lemma_lex_cmp_flip(a@, b@);
        if lex_cmp(a@, b@) != Ordering::Greater && lex_cmp(b@, c@) != Ordering::Greater {
            lemma_lex_cmp_trans_le(a@, b@, c@);
        }
    }

    fn cmp_exec(&self, other: &Self) -> (r: Ordering) {
        str_cmp(self.as_str(), other.as_str())
    }
}

impl KeyProj<String> for String {
    open spec fn proj(&self) -> String {
        *self
    }

    fn cmp_key(&self, q: &String) -> (r: Ordering) {
        str_cmp(self.as_str(), q.as_str())
    }

    fn cmp_elem(&self, other: &Self) -> (r: Ordering) {
        str_cmp(self.as_str(), other.as_str())
    }
}

/// `p` is a prefix of `s`.
pub open spec fn has_prefix(s: Seq<char>, p: Seq<char>) -> bool {
    p.len() <= s.len() && s.subrange(0, p.len() as int) == p
}

/// Executable prefix test agreeing with `has_prefix` of the views.
pub fn str_has_prefix(s: &str, p: &str) -> (r: bool)
    ensures
        r == has_prefix(s@, p@),
{
    let slen = s.unicode_len();
    let plen = p.unicode_len();
    if plen > slen {
        return false;
    }
    let mut i: usize = 0;
    while i < plen
        invariant
            slen == s@.len(),
            plen == p@.len(),
            plen <= slen,
            i <= plen,
            forall|k: int| 0 <= k < i ==> s@[k] == p@[k],
        decreases plen - i,
    {
        if s.get_char(i) != p.get_char(i) {
            proof {
                assert(s@.subrange(0, p@.len() as int)[i as int] != p@[i as int]);
            }
            return false;
        }
        i = i + 1;
    }
    proof {
        assert(s@.subrange(0, p@.len() as int) =~= p@);
    }
    true
}

/// A directory joined with an entry name, with a single separator between.
pub open spec fn join_path(root: Seq<char>, name: Seq<char>) -> Seq<char> {
    root + seq!['/'] + name
}

/// Executable path join agreeing with `join_path` of the views.
pub fn path_join(root: &str, name: &str) -> (r: String)
    ensures
        r@ == join_path(root@, name@),
{
    let mut r = root.to_owned();
    r.append("/");
    r.append(name);
    proof {
        reveal_strlit("/");
        assert("/"@ =~= seq!['/']);
        assert(r@ =~= join_path(root@, name@));
    }
    r
}

/// The directory part of a path: everything before the last separator, or
/// the empty path when the path has no separator.
pub open spec fn dir_of(p: Seq<char>) -> Seq<char>
    decreases p.len(),
{
    if p.len() == 0 {
        Seq::empty()
    } else if p[p.len() - 1] == '/' {
        p.take(p.len() - 1)
    } else {
        dir_of(p.take(p.len() - 1))
    }
}

/// Executable directory part agreeing with `dir_of` of the view.
pub fn parent_dir(p: &str) -> (r: String)
    ensures
        r@ == dir_of(p@),
{
    let len = p.unicode_len();
    let mut i: usize = len;
    proof {
        assert(p@.take(len as int) =~= p@);
    }
    while i > 0
        invariant
            len == p@.len(),
            i <= len,
            dir_of(p@) == dir_of(p@.take(i as int)),
        decreases i,
    {
        if p.get_char(i - 1) == '/' {
            proof {
                assert(p@.take(i as int)[i - 1] == '/');
                assert(p@.take(i as int).take(i - 1) =~= p@.take(i - 1));
            }
            let d = p.substring_char(0, i - 1);
            proof {
                assert(d@ =~= p@.take(i - 1));
            }
            return d.to_owned();
        }
        proof {
            assert(p@.take(i as int)[i - 1] != '/');
            assert(p@.take(i as int).take(i - 1) =~= p@.take(i - 1));
        }
        i = i - 1;
    }
    proof {
        assert(p@.take(0) =~= Seq::<char>::empty());
    }
    String::new()
}

} // verus!
