//! Paths as `/`-separated strings: file names, extensions, parents, joining
//! and component-wise prefixes.

use vstd::prelude::*;

verus! {

/// Index of the last occurrence of `c` in `s`, or -1 when there is none.
pub open spec fn last_index_of(s: Seq<char>, c: char) -> int
    decreases s.len(),
{
    if s.len() == 0 {
        -1
    } else if s.last() == c {
        s.len() - 1
    } else {
        last_index_of(s.drop_last(), c)
    }
}

pub proof fn lemma_last_index_of(s: Seq<char>, c: char)
    ensures
        -1 <= last_index_of(s, c) < s.len(),
        last_index_of(s, c) >= 0 ==> s[last_index_of(s, c)] == c,
        forall|j: int| last_index_of(s, c) < j < s.len() ==> s[j] != c,
    decreases s.len(),
{
    if s.len() > 0 && s.last() != c {
        lemma_last_index_of(s.drop_last(), c);
        assert forall|j: int| last_index_of(s, c) < j < s.len() implies s[j] != c by {
            if j < s.len() - 1 {
                assert(s[j] == s.drop_last()[j]);
            }
        }
    }
}

/// Appending text free of `c` does not move the last `c`.
pub proof fn lemma_last_index_of_append(a: Seq<char>, b: Seq<char>, c: char)
    requires
        forall|j: int| 0 <= j < b.len() ==> b[j] != c,
    ensures
        last_index_of(a + b, c) == last_index_of(a, c),
    decreases b.len(),
{
    if b.len() == 0 {
        assert(a + b =~= a);
    } else {
        assert((a + b).drop_last() =~= a + b.drop_last());
        lemma_last_index_of_append(a, b.drop_last(), c);
    }
}

/// The last component of a path: everything after the last `/`.
pub open spec fn file_name_of(p: Seq<char>) -> Seq<char> {
    p.subrange(last_index_of(p, '/') + 1, p.len() as int)
}

/// Position of the dot that starts the extension of a file name, if any.
/// A leading dot (a hidden file such as `.profile`) starts no extension, and
/// neither does anything in the name `..`.
pub open spec fn extension_dot(name: Seq<char>) -> int {
    if name =~= seq!['.', '.'] {
        -1
    } else if last_index_of(name, '.') <= 0 {
        -1
    } else {
        last_index_of(name, '.')
    }
}

/// The file name without its extension.
pub open spec fn stem_of(name: Seq<char>) -> Seq<char> {
    if extension_dot(name) < 0 {
        name
    } else {
        name.subrange(0, extension_dot(name))
    }
}

/// The extension of a file name (without its dot), if it has one.
pub open spec fn extension_of(name: Seq<char>) -> Option<Seq<char>> {
    if extension_dot(name) < 0 {
        None
    } else {
        Some(name.subrange(extension_dot(name) + 1, name.len() as int))
    }
}

/// `b` appended to `a` as a further component.
pub open spec fn join_spec(a: Seq<char>, b: Seq<char>) -> Seq<char> {
    if a.len() == 0 {
        b
    } else if a.last() == '/' {
        a + b
    } else {
        a + seq!['/'] + b
    }
}

/// The directory that holds `p`, if `p` names one: the root for a path
/// directly under it, nothing for a bare name or for the root itself.
pub open spec fn parent_of(p: Seq<char>) -> Option<Seq<char>> {
    let i = last_index_of(p, '/');
    if i < 0 || p.len() <= 1 {
        None
    } else if i == 0 {
        Some(seq!['/'])
    } else {
        Some(p.subrange(0, i))
    }
}

/// `p` is `d` itself or lies inside directory `d`, compared by whole
/// components (`/a/bc` does not lie inside `/a/b`).
pub open spec fn is_under(p: Seq<char>, d: Seq<char>) -> bool {
    ||| p == d
    ||| (d.len() > 0 && d.last() == '/' && d.is_prefix_of(p))
    ||| (d.len() < p.len() && d.is_prefix_of(p) && p[d.len() as int] == '/')
}

/// Index of the last `c` in `s`.
pub fn last_index(s: &str, c: char) -> (r: Option<usize>)
    ensures
        match r {
            Some(i) => i as int == last_index_of(s@, c),
            None => last_index_of(s@, c) == -1,
        },
{
    let n = s.unicode_len();
    let mut i: usize = n;
    assert(s@.subrange(0, n as int) =~= s@);
    while i > 0
        invariant
            i <= n == s@.len(),
            last_index_of(s@, c) == last_index_of(s@.subrange(0, i as int), c),
        decreases i,
    {
        assert(s@.subrange(0, i as int).drop_last() =~= s@.subrange(0, i - 1));
        if s.get_char(i - 1) == c {
            return Some(i - 1);
        }
        i = i - 1;
    }
    None
}

/// Owned copy of characters `from..to` of `s`.
pub(crate) fn slice(s: &str, from: usize, to: usize) -> (r: String)
    requires
        from <= to <= s@.len(),
    ensures
        r@ == s@.subrange(from as int, to as int),
{
    String::from_str(s.substring_char(from, to))
}

/// The last component of `p`.
pub fn file_name(p: &str) -> (r: String)
    ensures
        r@ == file_name_of(p@),
{
    proof {
        lemma_last_index_of(p@, '/');
    }
    let n = p.unicode_len();
    match last_index(p, '/') {
        Some(i) => slice(p, i + 1, n),
        None => slice(p, 0, n),
    }
}

/// Whether `a` is a prefix of `b`.
pub fn starts_with(b: &str, a: &str) -> (r: bool)
    ensures
        r == a@.is_prefix_of(b@),
{
    let na = a.unicode_len();
    let nb = b.unicode_len();
    if na > nb {
        return false;
    }
    let mut i: usize = 0;
    while i < na
        invariant
            na == a@.len() <= nb == b@.len(),
            i <= na,
            forall|j: int| 0 <= j < i ==> a@[j] == b@[j],
        decreases na - i,
    {
        if a.get_char(i) != b.get_char(i) {
            return false;
        }
        i = i + 1;
    }
    true
}

/// Splits a file name into its stem and its extension.
pub fn split_extension(name: &str) -> (r: (String, Option<String>))
    ensures
        r.0@ == stem_of(name@),
        match r.1 {
            Some(e) => extension_of(name@) == Some(e@),
            None => extension_of(name@) is None,
        },
{
    proof {
        lemma_last_index_of(name@, '.');
    }
    let n = name.unicode_len();
    if n == 2 && name.get_char(0) == '.' && name.get_char(1) == '.' {
        assert(name@ =~= seq!['.', '.']);
        return (slice(name, 0, n), None);
    }
    assert(!(name@ =~= seq!['.', '.']));
    match last_index(name, '.') {
        Some(d) => {
            if d == 0 {
                (slice(name, 0, n), None)
            } else {
                (slice(name, 0, d), Some(slice(name, d + 1, n)))
            }
        },
        None => (slice(name, 0, n), None),
    }
}

/// `b` appended to `a` as a further component.
pub fn join(a: &str, b: &str) -> (r: String)
    ensures
        r@ == join_spec(a@, b@),
{
    let n = a.unicode_len();
    if n == 0 {
        String::from_str(b)
    } else if a.get_char(n - 1) == '/' {
        String::from_str(a).concat(b)
    } else {
        proof {
            reveal_strlit("/");
        }
        let r = String::from_str(a).concat("/").concat(b);
        assert(r@ =~= a@ + seq!['/'] + b@);
        r
    }
}

/// The directory that holds `p`, if `p` names one.
pub fn parent(p: &str) -> (r: Option<String>)
    ensures
        match r {
            Some(q) => parent_of(p@) == Some(q@),
            None => parent_of(p@) is None,
        },
{
    proof {
        lemma_last_index_of(p@, '/');
    }
    let n = p.unicode_len();
    match last_index(p, '/') {
        None => None,
        Some(i) => {
            if n <= 1 {
                None
            } else if i == 0 {
                proof {
                    reveal_strlit("/");
                }
                let r = String::from_str("/");
                assert(r@ =~= seq!['/']);
                Some(r)
            } else {
                Some(slice(p, 0, i))
            }
        },
    }
}

/// Whether `p` is `d` or lies inside directory `d`, by whole components.
pub fn under(p: &str, d: &str) -> (r: bool)
    ensures
        r == is_under(p@, d@),
{
    let np = p.unicode_len();
    let nd = d.unicode_len();
    if !starts_with(p, d) {
        proof {
            if p@ == d@ {
                assert(d@.is_prefix_of(p@));
            }
        }
        return false;
    }
    if np == nd {
        assert(p@ =~= d@);
        true
    } else if nd > 0 && d.get_char(nd - 1) == '/' {
        true
    } else {
        p.get_char(nd) == '/'
    }
}

} // verus!
