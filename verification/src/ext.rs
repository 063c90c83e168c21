//! Extension-based path classification.
//!
//! A path's compression format and FASTQ-likeness are pure functions of its
//! final extension: the part of the file name (the component after the last
//! `/`) that follows the file name's last `.`, provided that dot exists and is
//! not the file name's first character.

use vstd::prelude::*;
use vstd::string::StrSliceExecFns;

verus! {

/// Index of the last occurrence of `c` in `s`, or -1 when `c` is absent.
pub open spec fn last_pos(s: Seq<char>, c: char) -> int
    decreases s.len(),
{
    if s.len() == 0 {
        -1
    } else if s[s.len() - 1] == c {
        s.len() - 1
    } else {
        last_pos(s.drop_last(), c)
    }
}

/// `last_pos` lands in range, on an occurrence, with none after it.
pub proof fn lemma_last_pos(s: Seq<char>, c: char)
    ensures
        -1 <= last_pos(s, c) < s.len(),
        last_pos(s, c) >= 0 ==> s[last_pos(s, c)] == c,
        forall|j: int| last_pos(s, c) < j < s.len() ==> s[j] != c,
    decreases s.len(),
{
    if s.len() > 0 && s[s.len() - 1] != c {
        lemma_last_pos(s.drop_last(), c);
        assert forall|j: int| last_pos(s, c) < j < s.len() implies s[j] != c by {
            if j < s.len() - 1 {
                assert(s.drop_last()[j] == s[j]);
            }
        }
    }
}

/// An index that carries an occurrence with none after it is `last_pos`.
pub proof fn lemma_last_pos_is(s: Seq<char>, c: char, k: int)
    requires
        -1 <= k < s.len(),
        k >= 0 ==> s[k] == c,
        forall|j: int| k < j < s.len() ==> s[j] != c,
    ensures
        last_pos(s, c) == k,
    decreases s.len(),
{
    if s.len() == 0 {
    } else if s[s.len() - 1] == c {
        assert(k == s.len() - 1);
    } else {
        assert(k < s.len() - 1);
        assert forall|j: int| k < j < s.drop_last().len() implies s.drop_last()[j] != c by {
            assert(s.drop_last()[j] == s[j]);
        }
        if k >= 0 {
            assert(s.drop_last()[k] == s[k]);
        }
        lemma_last_pos_is(s.drop_last(), c, k);
    }
}

/// The final component of the path: everything after the last `/`.
pub open spec fn file_name_of(p: Seq<char>) -> Seq<char> {
    p.subrange(last_pos(p, '/') + 1, p.len() as int)
}

/// The final extension of the path, when the file name has one.
pub open spec fn extension_of(p: Seq<char>) -> Option<Seq<char>> {
    let f = file_name_of(p);
    let d = last_pos(f, '.');
    if d <= 0 {
        None
    } else {
        Some(f.subrange(d + 1, f.len() as int))
    }
}

/// True when the path's final extension is exactly `ext`.
pub open spec fn has_extension(p: Seq<char>, ext: Seq<char>) -> bool {
    extension_of(p) matches Some(e) && e == ext
}

/// Index of the last occurrence of `c` in `p`, or `None` when `c` is absent.
fn find_last(p: &str, c: char) -> (r: Option<usize>)
    ensures
        r matches Some(k) ==> last_pos(p@, c) == k,
        r is None ==> last_pos(p@, c) == -1,
{
    let n = p.unicode_len();
    let mut i = n;
    loop
        invariant
            i <= n,
            n == p@.len(),
            forall|j: int| i <= j < n ==> p@[j] != c,
        decreases i,
    {
        if i == 0 {
            proof {
                lemma_last_pos_is(p@, c, -1);
            }
            return None;
        }
        i = i - 1;
        if p.get_char(i) == c {
            proof {
                lemma_last_pos_is(p@, c, i as int);
            }
            return Some(i);
        }
    }
}

/// How the last slash and last dot of the whole path decide the extension.
proof fn lemma_extension_from_positions(p: Seq<char>, sl: int, dt: int)
    requires
        sl == last_pos(p, '/'),
        dt == last_pos(p, '.'),
    ensures
        dt <= sl + 1 ==> extension_of(p) is None,
        dt > sl + 1 ==> extension_of(p) == Some(p.subrange(dt + 1, p.len() as int)),
{
    lemma_last_pos(p, '/');
    lemma_last_pos(p, '.');
    let f = file_name_of(p);
    if dt <= sl {
        assert forall|j: int| -1 < j < f.len() implies f[j] != '.' by {
            assert(f[j] == p[sl + 1 + j]);
        }
        lemma_last_pos_is(f, '.', -1);
    } else {
        let k = dt - sl - 1;
        assert(f[k] == p[dt]);
        assert forall|j: int| k < j < f.len() implies f[j] != '.' by {
            assert(f[j] == p[sl + 1 + j]);
        }
        lemma_last_pos_is(f, '.', k);
        if dt > sl + 1 {
            assert(f.subrange(k + 1, f.len() as int) =~= p.subrange(dt + 1, p.len() as int));
        }
    }
}

/// True when the characters of `p` from `start` to its end equal `ext`.
fn suffix_eq(p: &str, start: usize, ext: &str) -> (r: bool)
    requires
        start <= p@.len(),
    ensures
        r == (p@.subrange(start as int, p@.len() as int) == ext@),
{
    let n = p.unicode_len();
    let m = ext.unicode_len();
    if n - start != m {
        proof {
            assert(p@.subrange(start as int, n as int).len() == n - start);
        }
        return false;
    }
    let mut j: usize = 0;
    while j < m
        invariant
            j <= m,
            m == ext@.len(),
            n == p@.len(),
            start + m == n,
            forall|t: int| 0 <= t < j ==> p@[start + t] == ext@[t],
        decreases m - j,
    {
        if p.get_char(start + j) != ext.get_char(j) {
            proof {
                assert(p@.subrange(start as int, n as int)[j as int] == p@[start + j]);
            }
            return false;
        }
        j = j + 1;
    }
    proof {
        assert(p@.subrange(start as int, n as int) =~= ext@);
    }
    true
}

/// True when the path's final extension is exactly `ext`.
pub fn path_has_extension(p: &str, ext: &str) -> (r: bool)
    ensures
        r == has_extension(p@, ext@),
{
    let n = p.unicode_len();
    let sl = find_last(p, '/');
    let dt = find_last(p, '.');
    let ghost sli: int = match sl {
        Some(k) => k as int,
        None => -1,
    };
    let ghost dti: int = match dt {
        Some(k) => k as int,
        None => -1,
    };
    proof {
        lemma_last_pos(p@, '/');
        lemma_last_pos(p@, '.');
        lemma_extension_from_positions(p@, sli, dti);
    }
    match dt {
        None => false,
        Some(d) => {
            let slash_bound = match sl {
                Some(s) => s + 1,
                None => 0,
            };
            if d <= slash_bound {
                false
            } else {
                suffix_eq(p, d + 1, ext)
            }
        },
    }
}

} // verus!
