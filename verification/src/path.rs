//! The mathematical model of path strings: trimming the separator from both
//! ends and splitting what remains into components, together with the
//! executable scanners the rest of the crate parses paths with.

use vstd::prelude::*;
use vstd::string::StrSliceExecFns;

verus! {

/// Drops every leading '/' of `s`.
pub open spec fn trim_leading(s: Seq<char>) -> Seq<char>
    decreases s.len(),
{
    if s.len() > 0 && s[0] == '/' {
        trim_leading(s.drop_first())
    } else {
        s
    }
}

/// Drops every trailing '/' of `s`.
pub open spec fn trim_trailing(s: Seq<char>) -> Seq<char>
    decreases s.len(),
{
    if s.len() > 0 && s.last() == '/' {
        trim_trailing(s.drop_last())
    } else {
        s
    }
}

/// A path with the separators at both ends removed.
pub open spec fn trim_seps(s: Seq<char>) -> Seq<char> {
    trim_trailing(trim_leading(s))
}

/// Position of the first '/' in `s`, or `s.len()` when there is none.
pub open spec fn sep_index(s: Seq<char>) -> nat
    decreases s.len(),
{
    if s.len() == 0 || s[0] == '/' {
        0
    } else {
        1 + sep_index(s.drop_first())
    }
}

/// The components of `s`, in order: what stands between consecutive '/'
/// characters.  A sequence without a '/' is one single component, so the
/// result is never empty.
pub open spec fn split_path(s: Seq<char>) -> Seq<Seq<char>>
    decreases s.len(),
{
    let i = sep_index(s) as int;
    if i >= s.len() {
        seq![s]
    } else {
        seq![s.take(i)] + split_path(s.skip(i + 1))
    }
}

/// The components a path contributes to matching: separators are trimmed
/// from both ends first, and a path that trims to nothing has no
/// components at all.
pub open spec fn components_of(s: Seq<char>) -> Seq<Seq<char>> {
    let t = trim_seps(s);
    if t.len() == 0 {
        Seq::empty()
    } else {
        split_path(t)
    }
}

/// `trim_leading` removes exactly the leading run of separators.
pub proof fn lemma_trim_leading_at(s: Seq<char>, k: int)
    requires
        0 <= k <= s.len(),
        forall|j: int| 0 <= j < k ==> s[j] == '/',
        k < s.len() ==> s[k] != '/',
    ensures
        trim_leading(s) == s.skip(k),
    decreases k,
{
    if k == 0 {
        assert(s.skip(0) =~= s);
    } else {
        let t = s.drop_first();
        assert(forall|j: int| 0 <= j < k - 1 ==> t[j] == '/');
        lemma_trim_leading_at(t, k - 1);
        assert(t.skip(k - 1) =~= s.skip(k));
    }
}

/// `trim_trailing` removes exactly the trailing run of separators.
pub proof fn lemma_trim_trailing_at(s: Seq<char>, k: int)
    requires
        0 <= k <= s.len(),
        forall|j: int| k <= j < s.len() ==> s[j] == '/',
        k > 0 ==> s[k - 1] != '/',
    ensures
        trim_trailing(s) == s.take(k),
    decreases s.len(),
{
    if k == s.len() {
        assert(s.take(k) =~= s);
    } else {
        assert(s.last() == '/');
        let t = s.drop_last();
        assert(forall|j: int| k <= j < t.len() ==> t[j] == '/');
        lemma_trim_trailing_at(t, k);
        assert(t.take(k) =~= s.take(k));
    }
}

/// The first separator of `s` stands where no separator stands before it.
pub proof fn lemma_sep_index_at(s: Seq<char>, j: int)
    requires
        0 <= j <= s.len(),
        forall|k: int| 0 <= k < j ==> s[k] != '/',
        j < s.len() ==> s[j] == '/',
    ensures
        sep_index(s) == j,
    decreases j,
{
    if j > 0 {
        let t = s.drop_first();
        assert(forall|k: int| 0 <= k < j - 1 ==> t[k] != '/');
        lemma_sep_index_at(t, j - 1);
    }
}

/// Splitting never yields an empty component list.
pub proof fn lemma_split_path_len_pos(s: Seq<char>)
    ensures
        split_path(s).len() >= 1,
{
}

/// Unfolds the component list of the slice `[i, hi)` of `s` at `j`, the
/// position of its first separator (`j == hi` when it has none): one
/// component up to `j`, then the components of what follows the separator.
pub proof fn lemma_split_path_step(s: Seq<char>, i: int, j: int, hi: int)
    requires
        0 <= i <= j <= hi <= s.len(),
        forall|k: int| i <= k < j ==> s[k] != '/',
        j < hi ==> s[j] == '/',
    ensures
        j == hi ==> split_path(s.subrange(i, hi)) == seq![s.subrange(i, hi)],
        j < hi ==> split_path(s.subrange(i, hi)) == seq![s.subrange(i, j)] + split_path(
            s.subrange(j + 1, hi),
        ),
{
    let u = s.subrange(i, hi);
    assert(forall|k: int| 0 <= k < j - i ==> u[k] != '/');
    lemma_sep_index_at(u, j - i);
    if j < hi {
        assert(u.take(j - i) =~= s.subrange(i, j));
        assert(u.skip(j - i + 1) =~= s.subrange(j + 1, hi));
    }
}

/// No two separators of `s` stand next to each other.
pub open spec fn no_adjacent_seps(s: Seq<char>) -> bool {
    forall|i: int| 0 <= i < s.len() - 1 ==> !(#[trigger] s[i] == '/' && s[i + 1] == '/')
}

/// The first separator lies within bounds, nothing before it is a
/// separator, and it is one itself where it lies short of the end.
pub proof fn lemma_sep_index_le(s: Seq<char>)
    ensures
        sep_index(s) <= s.len(),
        forall|j: int| 0 <= j < sep_index(s) ==> s[j] != '/',
        sep_index(s) < s.len() ==> s[sep_index(s) as int] == '/',
    decreases s.len(),
{
    if s.len() > 0 && s[0] != '/' {
        let t = s.drop_first();
        lemma_sep_index_le(t);
        assert forall|j: int| 0 <= j < sep_index(s) implies s[j] != '/' by {
            if j > 0 {
                assert(t[j - 1] == s[j]);
            }
        }
        if sep_index(s) < s.len() {
            assert(t[sep_index(s) - 1] == s[sep_index(s) as int]);
        }
    }
}

/// Dropping the leading separators of a path without doubled separators
/// leaves one without doubled separators, beginning with a non-separator,
/// and ending as the path ended.
proof fn lemma_trim_leading_props(s: Seq<char>)
    requires
        no_adjacent_seps(s),
    ensures
        no_adjacent_seps(trim_leading(s)),
        trim_leading(s).len() > 0 ==> trim_leading(s).first() != '/',
        trim_leading(s).len() > 0 ==> s.len() > 0 && trim_leading(s).last() == s.last(),
    decreases s.len(),
{
    if s.len() > 0 && s[0] == '/' {
        let t = s.drop_first();
        assert forall|i: int| 0 <= i < t.len() - 1 implies !(#[trigger] t[i] == '/' && t[i + 1] == '/') by {
            assert(t[i] == s[i + 1] && t[i + 1] == s[i + 2]);
        }
        lemma_trim_leading_props(t);
        if trim_leading(s).len() > 0 {
            assert(t.last() == s.last());
        }
    }
}

/// Dropping the trailing separators, symmetrically.
proof fn lemma_trim_trailing_props(s: Seq<char>)
    requires
        no_adjacent_seps(s),
    ensures
        no_adjacent_seps(trim_trailing(s)),
        trim_trailing(s).len() > 0 ==> trim_trailing(s).last() != '/',
        trim_trailing(s).len() > 0 ==> s.len() > 0 && trim_trailing(s).first() == s.first(),
    decreases s.len(),
{
    if s.len() > 0 && s.last() == '/' {
        let t = s.drop_last();
        assert forall|i: int| 0 <= i < t.len() - 1 implies !(#[trigger] t[i] == '/' && t[i + 1] == '/') by {
            assert(t[i] == s[i] && t[i + 1] == s[i + 1]);
        }
        lemma_trim_trailing_props(t);
    }
}

/// Where no two separators stand together and neither end is one, every
/// component of a split is non-empty.
proof fn lemma_split_path_nonempty(s: Seq<char>)
    requires
        s.len() > 0,
        no_adjacent_seps(s),
        s.first() != '/',
        s.last() != '/',
    ensures
        forall|i: int| 0 <= i < split_path(s).len() ==> (#[trigger] split_path(s)[i]).len() > 0,
    decreases s.len(),
{
    lemma_sep_index_le(s);
    let k = sep_index(s) as int;
    if k < s.len() {
        assert(k > 0);
        let rest = s.skip(k + 1);
        assert(k + 1 < s.len());
        assert(rest[0] == s[k + 1]);
        assert(!(s[k] == '/' && s[k + 1] == '/'));
        assert(rest.last() == s.last());
        assert forall|i: int|
            0 <= i < rest.len() - 1 implies !(#[trigger] rest[i] == '/' && rest[i + 1] == '/') by {
            assert(rest[i] == s[k + 1 + i] && rest[i + 1] == s[k + 2 + i]);
        }
        lemma_split_path_nonempty(rest);
        assert forall|i: int|
            0 <= i < split_path(s).len() implies (#[trigger] split_path(s)[i]).len() > 0 by {
            if i == 0 {
                assert(split_path(s)[0] == s.take(k));
            } else {
                assert(split_path(s)[i] == split_path(rest)[i - 1]);
            }
        }
    }
}

/// A path without doubled separators has only non-empty components: what
/// `Route::new` asks of a pattern, ready to check on the pattern text.
pub proof fn lemma_components_nonempty(s: Seq<char>)
    requires
        no_adjacent_seps(s),
    ensures
        forall|i: int|
            0 <= i < components_of(s).len() ==> (#[trigger] components_of(s)[i]).len() > 0,
{
    lemma_trim_leading_props(s);
    lemma_trim_trailing_props(trim_leading(s));
    let t = trim_seps(s);
    if t.len() > 0 {
        assert(t.first() == trim_leading(s).first());
        lemma_split_path_nonempty(t);
    }
}

/// A path of nothing but separators — the root path "/" above all — has
/// no components at all.
pub proof fn lemma_all_seps_no_components(s: Seq<char>)
    requires
        forall|j: int| 0 <= j < s.len() ==> s[j] == '/',
    ensures
        components_of(s).len() == 0,
{
    lemma_trim_leading_at(s, s.len() as int);
    assert(s.skip(s.len() as int) =~= Seq::<char>::empty());
    assert(trim_seps(s) =~= Seq::<char>::empty());
}

/// Position of the first '/' of `s` at or past `from` and before `to`,
/// or `to` when that range holds none.
pub fn seek_sep(s: &str, from: usize, to: usize) -> (j: usize)
    requires
        from <= to <= s@.len(),
    ensures
        from <= j <= to,
        forall|k: int| from <= k < j ==> s@[k] != '/',
        j < to ==> s@[j as int] == '/',
{
    let mut j = from;
    while j < to
        invariant
            from <= j <= to <= s@.len(),
            forall|k: int| from <= k < j ==> s@[k] != '/',
        decreases to - j,
    {
        if s.get_char(j) == '/' {
            return j;
        }
        j = j + 1;
    }
    j
}

/// Character bounds of `s` with the separators at both ends trimmed:
/// the slice of `s` between the two is `trim_seps(s@)`.
pub fn trim_bounds(s: &str) -> (b: (usize, usize))
    ensures
        b.0 <= b.1 <= s@.len(),
        s@.subrange(b.0 as int, b.1 as int) == trim_seps(s@),
{
    let n = s.unicode_len();
    let mut lo: usize = 0;
    while lo < n && s.get_char(lo) == '/'
        invariant
            lo <= n,
            n == s@.len(),
            forall|k: int| 0 <= k < lo ==> s@[k] == '/',
        decreases n - lo,
    {
        lo = lo + 1;
    }
    let mut hi: usize = n;
    while hi > lo && s.get_char(hi - 1) == '/'
        invariant
            lo <= hi <= n,
            n == s@.len(),
            forall|k: int| hi <= k < n ==> s@[k] == '/',
        decreases hi,
    {
        hi = hi - 1;
    }
    proof {
        lemma_trim_leading_at(s@, lo as int);
        let t = s@.skip(lo as int);
        assert(forall|j: int| hi - lo <= j < t.len() ==> t[j] == '/');
        lemma_trim_trailing_at(t, hi - lo);
        assert(t.take(hi - lo) =~= s@.subrange(lo as int, hi as int));
    }
    (lo, hi)
}

} // verus!
