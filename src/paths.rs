use vstd::prelude::*;

verus! {

/// The path of the child `n` of the directory at path `p`; the root's path is empty.
pub open spec fn join_path(p: Seq<char>, n: Seq<char>) -> Seq<char> {
    if p.len() == 0 {
        n
    } else {
        p + seq!['/'] + n
    }
}

/// Whether `n` holds no separator.
pub open spec fn no_separator(n: Seq<char>) -> bool {
    forall|i: int| 0 <= i < n.len() ==> n[i] != '/'
}

/// A name that can stand for one level of the tree: not empty, no separator,
/// and not one of the two reserved names `.` and `..`.
pub open spec fn valid_segment(n: Seq<char>) -> bool {
    &&& n.len() > 0
    &&& no_separator(n)
    &&& n != seq!['.']
    &&& n != seq!['.', '.']
}

proof fn lemma_join_chars(p: Seq<char>, n: Seq<char>)
    requires
        p.len() > 0,
    ensures
        join_path(p, n).len() == p.len() + 1 + n.len(),
        join_path(p, n)[p.len() as int] == '/',
        forall|k: int| 0 <= k < p.len() ==> join_path(p, n)[k] == p[k],
        forall|k: int| 0 <= k < n.len() ==> join_path(p, n)[p.len() + 1 + k] == n[k],
{
    let s = p + seq!['/'];
    assert(join_path(p, n) == s + n);
    assert(s[p.len() as int] == '/');
}

/// A path determines the directory path and the last segment that it joins.
pub proof fn lemma_join_injective(p1: Seq<char>, n1: Seq<char>, p2: Seq<char>, n2: Seq<char>)
    requires
        valid_segment(n1),
        valid_segment(n2),
        join_path(p1, n1) == join_path(p2, n2),
    ensures
        p1 == p2,
        n1 == n2,
{
    let j = join_path(p1, n1);
    if p1.len() == 0 && p2.len() == 0 {
    } else if p1.len() == 0 {
        lemma_join_chars(p2, n2);
        assert(n1[p2.len() as int] == '/');
    } else if p2.len() == 0 {
        lemma_join_chars(p1, n1);
        assert(n2[p1.len() as int] == '/');
    } else {
        lemma_join_chars(p1, n1);
        lemma_join_chars(p2, n2);
        if p1.len() < p2.len() {
            let k = p2.len() - p1.len() - 1;
            assert(j[p1.len() + 1 + k] == n1[k]);
        } else if p2.len() < p1.len() {
            let k = p1.len() - p2.len() - 1;
            assert(j[p2.len() + 1 + k] == n2[k]);
        } else {
            assert(p1 =~= p2);
            assert(n1 =~= n2) by {
                assert forall|k: int| 0 <= k < n1.len() implies n1[k] == n2[k] by {
                    assert(j[p1.len() + 1 + k] == n1[k]);
                }
            }
        }
    }
}

/// Whether `n` is a valid segment, decided on its characters.
pub fn is_valid_segment(n: &String) -> (r: bool)
    ensures
        r == valid_segment(n@),
{
    let len = n.as_str().unicode_len();
    if len == 0 {
        return false;
    }
    let mut i: usize = 0;
    while i < len
        invariant
            len == n@.len(),
            0 <= i <= len,
            forall|j: int| 0 <= j < i ==> n@[j] != '/',
        decreases len - i,
    {
        if n.as_str().get_char(i) == '/' {
            return false;
        }
        i = i + 1;
    }
    if len == 1 && n.as_str().get_char(0) == '.' {
        assert(n@ =~= seq!['.']);
        return false;
    }
    if len == 2 && n.as_str().get_char(0) == '.' && n.as_str().get_char(1) == '.' {
        assert(n@ =~= seq!['.', '.']);
        return false;
    }
    assert(len != 1 || n@[0] != '.' ==> n@ != seq!['.']) by {
        if n@ == seq!['.'] {
            assert(n@[0] == '.');
        }
    }
    assert(n@ != seq!['.', '.']) by {
        if n@ == seq!['.', '.'] {
            assert(n@[0] == '.' && n@[1] == '.');
        }
    }
    true
}

/// `s[a..b]` is one segment of `s`: it starts at the beginning or after a separator,
/// ends at the end or at a separator, and holds no separator.
pub open spec fn is_span(s: Seq<char>, a: int, b: int) -> bool {
    &&& 0 <= a <= b <= s.len()
    &&& (a == 0 || s[a - 1] == '/')
    &&& (b == s.len() || s[b] == '/')
    &&& forall|k: int| a <= k < b ==> s[k] != '/'
}

/// An object name that the tree can hold: every segment is valid
/// (so the name is not empty, has no empty segment and no `.` or `..` segment).
pub open spec fn valid_name(s: Seq<char>) -> bool {
    forall|a: int, b: int| #[trigger] is_span(s, a, b) ==> valid_segment(s.subrange(a, b))
}

/// `p` is the path of a directory that holds `s`: the part of `s` before one of its separators.
pub open spec fn is_dir_prefix(p: Seq<char>, s: Seq<char>) -> bool {
    exists|i: int| 0 <= i < s.len() && s[i] == '/' && p == #[trigger] s.subrange(0, i)
}

/// A span that ends where a segment starting at `start` ends starts at `start`.
pub proof fn lemma_span_start(s: Seq<char>, start: int, a: int, b: int)
    requires
        is_span(s, a, b),
        0 <= start <= b,
        start == 0 || s[start - 1] == '/',
        forall|k: int| start <= k < b ==> s[k] != '/',
    ensures
        a == start,
{
    if a < start {
        assert(s[start - 1] != '/');
    } else if a > start {
        assert(s[a - 1] != '/');
    }
}

/// Whether every segment of `n` is valid.
pub fn is_valid_name(n: &String) -> (r: bool)
    ensures
        r == valid_name(n@),
{
    let len = n.as_str().unicode_len();
    let ghost s = n@;
    let mut start: usize = 0;
    let mut i: usize = 0;
    while i < len
        invariant
            len == s.len(),
            s == n@,
            0 <= start <= i <= len,
            start == 0 || s[start - 1] == '/',
            forall|k: int| start <= k < i ==> s[k] != '/',
            forall|a: int, b: int| is_span(s, a, b) && b < i ==> valid_segment(s.subrange(a, b)),
        decreases len - i,
    {
        if n.as_str().get_char(i) == '/' {
            let seg = String::from_str(n.as_str().substring_char(start, i));
            assert(is_span(s, start as int, i as int));
            if !is_valid_segment(&seg) {
                return false;
            }
            assert forall|a: int, b: int| is_span(s, a, b) && b < i + 1 implies valid_segment(s.subrange(a, b)) by {
                if b == i {
                    lemma_span_start(s, start as int, a, b);
                }
            }
            start = i + 1;
        }
        i = i + 1;
    }
    let seg = String::from_str(n.as_str().substring_char(start, len));
    assert(is_span(s, start as int, len as int));
    if !is_valid_segment(&seg) {
        return false;
    }
    assert forall|a: int, b: int| is_span(s, a, b) implies valid_segment(s.subrange(a, b)) by {
        if b == len {
            lemma_span_start(s, start as int, a, b);
        }
    }
    true
}

} // verus!
