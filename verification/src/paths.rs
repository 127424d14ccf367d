//! Paths into the workspace tree.
//!
//! A path is a sequence of segments below the filesystem root; the empty
//! sequence stands for the root itself. A segment is a non-empty string that
//! contains no separator character, so every path has exactly one rendering
//! as an absolute path string and vice versa.

use vstd::prelude::*;

verus! {

/// A well-formed path segment: non-empty, with no `/` in it.
pub open spec fn valid_seg(s: Seq<char>) -> bool {
    s.len() > 0 && forall|i: int| 0 <= i < s.len() ==> s[i] != '/'
}

/// A well-formed path: every segment is well-formed. The empty path (the
/// filesystem root) is well-formed.
pub open spec fn valid_path(p: Seq<Seq<char>>) -> bool {
    forall|i: int| 0 <= i < p.len() ==> valid_seg(#[trigger] p[i])
}

/// `a` is an ancestor of `p` or `p` itself: `p` starts with all of `a`'s
/// segments.
pub open spec fn under_or_eq(p: Seq<Seq<char>>, a: Seq<Seq<char>>) -> bool {
    a.len() <= p.len() && p.take(a.len() as int) == a
}

/// Whether `s` is a non-empty string of characters other than `/`.
pub fn seg_valid(s: &str) -> (r: bool)
    ensures
        r == valid_seg(s@),
{
    let n = s.unicode_len();
    if n == 0 {
        return false;
    }
    let mut i: usize = 0;
    while i < n
        invariant
            n == s@.len(),
            0 <= i <= n,
            forall|j: int| 0 <= j < i ==> s@[j] != '/',
        decreases n - i,
    {
        if s.get_char(i) == '/' {
            return false;
        }
        i += 1;
    }
    true
}

/// Whether every segment of `p` is well-formed.
pub fn path_valid(p: &Vec<String>) -> (r: bool)
    ensures
        r == valid_path(p.deep_view()),
{
    let mut i: usize = 0;
    while i < p.len()
        invariant
            0 <= i <= p.len(),
            forall|j: int| 0 <= j < i ==> valid_seg(#[trigger] p.deep_view()[j]),
        decreases p.len() - i,
    {
        if !seg_valid(p[i].as_str()) {
            assert(!valid_seg(p.deep_view()[i as int]));
            return false;
        }
        i += 1;
    }
    true
}

/// Whether two paths consist of the same segments.
pub fn path_eq(a: &Vec<String>, b: &Vec<String>) -> (r: bool)
    ensures
        r == (a.deep_view() == b.deep_view()),
{
    if a.len() != b.len() {
        assert(a.deep_view().len() != b.deep_view().len());
        return false;
    }
    let mut i: usize = 0;
    while i < a.len()
        invariant
            0 <= i <= a.len(),
            a.len() == b.len(),
            forall|j: int| 0 <= j < i ==> a.deep_view()[j] == b.deep_view()[j],
        decreases a.len() - i,
    {
        if !(a[i] == b[i]) {
            assert(a.deep_view()[i as int] != b.deep_view()[i as int]);
            return false;
        }
        i += 1;
    }
    assert(a.deep_view() =~= b.deep_view());
    true
}

/// An owned copy of a path, segment for segment.
pub fn path_clone(p: &Vec<String>) -> (r: Vec<String>)
    ensures
        r.deep_view() == p.deep_view(),
{
    let mut r: Vec<String> = Vec::new();
    let mut i: usize = 0;
    while i < p.len()
        invariant
            0 <= i <= p.len(),
            r.len() == i,
            forall|j: int| 0 <= j < i ==> r.deep_view()[j] == p.deep_view()[j],
        decreases p.len() - i,
    {
        r.push(p[i].clone());
        i += 1;
    }
    assert(r.deep_view() =~= p.deep_view());
    r
}

/// Append one segment to a path.
pub fn path_push(p: &mut Vec<String>, seg: &String)
    ensures
        final(p).deep_view() == old(p).deep_view().push(seg@),
{
    p.push(seg.clone());
    proof {
        let od = old(p).deep_view();
        assert forall|q: int| 0 <= q < od.len() implies p.deep_view()[q] == od[q] by {
            assert(p@[q] == old(p)@[q]);
        }
        assert(p.deep_view() =~= od.push(seg@));
    }
}

/// Whether `p` lies at or below `a`: `p` starts with all of `a`'s segments.
pub fn path_starts_with(p: &Vec<String>, a: &Vec<String>) -> (r: bool)
    ensures
        r == under_or_eq(p.deep_view(), a.deep_view()),
{
    if a.len() > p.len() {
        return false;
    }
    let mut i: usize = 0;
    while i < a.len()
        invariant
            0 <= i <= a.len(),
            a.len() <= p.len(),
            forall|j: int| 0 <= j < i ==> p.deep_view()[j] == a.deep_view()[j],
        decreases a.len() - i,
    {
        if !(p[i] == a[i]) {
            assert(p.deep_view()[i as int] != a.deep_view()[i as int]);
            assert(p.deep_view().take(a.deep_view().len() as int)[i as int] == p.deep_view()[
                i as int
            ]);
            return false;
        }
        i += 1;
    }
    assert(p.deep_view().take(a.deep_view().len() as int) =~= a.deep_view());
    true
}

/// The path one segment above `p`: all of `p`'s segments but the last.
pub fn path_parent(p: &Vec<String>) -> (r: Vec<String>)
    requires
        p.deep_view().len() > 0,
    ensures
        r.deep_view() == p.deep_view().drop_last(),
{
    let mut r: Vec<String> = Vec::new();
    let mut i: usize = 0;
    while i < p.len() - 1
        invariant
            p.len() >= 1,
            0 <= i <= p.len() - 1,
            r.len() == i,
            forall|j: int| 0 <= j < i ==> r.deep_view()[j] == p.deep_view()[j],
        decreases p.len() - 1 - i,
    {
        r.push(p[i].clone());
        i += 1;
    }
    assert(r.deep_view() =~= p.deep_view().drop_last());
    r
}

/// The rendering of a non-root path as characters: a `/` before each segment.
pub open spec fn rendered_tail(p: Seq<Seq<char>>) -> Seq<char>
    decreases p.len(),
{
    if p.len() == 0 {
        Seq::empty()
    } else {
        rendered_tail(p.drop_last()) + seq!['/'] + p.last()
    }
}

/// The one rendering of a path as an absolute path string; the root is `/`.
pub open spec fn rendered(p: Seq<Seq<char>>) -> Seq<char> {
    if p.len() == 0 {
        seq!['/']
    } else {
        rendered_tail(p)
    }
}

/// The strings that parse as a path: they begin with the separator, do not
/// end with it (except the root itself), and never hold two in a row.
pub open spec fn can_parse(s: Seq<char>) -> bool {
    &&& s.len() >= 1
    &&& s[0] == '/'
    &&& (s.len() == 1 || s[s.len() - 1] != '/')
    &&& forall|i: int| 0 <= i < s.len() - 1 ==> !(s[i] == '/' && #[trigger] s[i + 1] == '/')
}

/// Parse an absolute path string into its segments. Succeeds exactly on
/// [`can_parse`] strings, and the parsed path renders back to the input.
pub fn parse_path(s: &str) -> (r: Option<Vec<String>>)
    ensures
        r is Some <==> can_parse(s@),
        r matches Some(p) ==> valid_path(p.deep_view()) && rendered(p.deep_view()) == s@,
{
    let n = s.unicode_len();
    if n == 0 {
        return None;
    }
    if s.get_char(0) != '/' {
        return None;
    }
    if n == 1 {
        let segs: Vec<String> = Vec::new();
        proof {
            assert(segs.deep_view() =~= Seq::<Seq<char>>::empty());
            assert(rendered(segs.deep_view()) =~= s@);
        }
        return Some(segs);
    }
    let mut segs: Vec<String> = Vec::new();
    let mut start: usize = 1;
    let mut i: usize = 1;
    while i < n
        invariant
            n == s@.len(),
            2 <= n,
            s@[0] == '/',
            1 <= start <= i <= n,
            s@[start - 1] == '/',
            forall|j: int| start <= j < i ==> s@[j] != '/',
            valid_path(segs.deep_view()),
            rendered_tail(segs.deep_view()) == s@.take(start - 1 as int),
            forall|j: int| 0 <= j < start - 1 ==> !(s@[j] == '/' && #[trigger] s@[j + 1] == '/'),
        decreases n - i,
    {
        if s.get_char(i) == '/' {
            if i == start {
                proof {
                    assert(s@[i - 1] == '/' && s@[i - 1 + 1] == '/');
                }
                return None;
            }
            let seg: String = s.substring_char(start, i).to_owned();
            proof {
                assert(valid_seg(seg@));
            }
            let ghost segs0 = segs.deep_view();
            path_push(&mut segs, &seg);
            proof {
                assert(segs.deep_view().drop_last() =~= segs0);
                assert(rendered_tail(segs.deep_view()) == rendered_tail(segs0) + seq!['/']
                    + seg@);
                assert(rendered_tail(segs.deep_view()) =~= s@.take(i as int));
                assert forall|j: int| 0 <= j < i implies !(s@[j] == '/' && #[trigger] s@[j + 1]
                    == '/') by {
                    if j == start - 1 {
                        assert(s@[start as int] != '/');
                    }
                }
            }
            start = i + 1;
        }
        i += 1;
    }
    if start == n {
        proof {
            assert(s@[n - 1] == '/');
        }
        return None;
    }
    let seg: String = s.substring_char(start, n).to_owned();
    proof {
        assert(valid_seg(seg@));
    }
    let ghost segs0 = segs.deep_view();
    path_push(&mut segs, &seg);
    proof {
        assert(segs.deep_view().drop_last() =~= segs0);
        assert(rendered_tail(segs.deep_view()) == rendered_tail(segs0) + seq!['/'] + seg@);
        assert(rendered_tail(segs.deep_view()) =~= s@);
        assert(rendered(segs.deep_view()) == s@);
        assert(can_parse(s@)) by {
            assert(s@[n - 1] != '/');
            assert forall|j: int| 0 <= j < s@.len() - 1 implies !(s@[j] == '/' && #[trigger] s@[
                j + 1
            ] == '/') by {
                if j >= start - 1 {
                    if j == start - 1 {
                        assert(s@[start as int] != '/');
                    } else {
                        assert(s@[j] != '/');
                    }
                }
            }
        }
    }
    Some(segs)
}


} // verus!
