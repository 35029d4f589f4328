//! Path rules of the archive codec, on plain text: the fixed archive
//! extension, the base file name of a slash-separated path, and the
//! extraction directory placed beside a source archive.

use vstd::prelude::*;
use crate::text::{append_chars, chars_to_string, str_to_chars};

verus! {

/// The fixed archive extension.
pub open spec fn archive_ext() -> Seq<char> {
    seq!['.', 'b', 'a', 's', 'e', 'd', 'c', 'h', 'a', 'r']
}

/// Whether a path already ends with the archive extension.
pub open spec fn has_ext(s: Seq<char>) -> bool {
    s.len() >= 10 && s.subrange(s.len() - 10, s.len() as int) == archive_ext()
}

/// The path with the archive extension appended if it was absent.
pub open spec fn with_ext(s: Seq<char>) -> Seq<char> {
    if has_ext(s) {
        s
    } else {
        s + archive_ext()
    }
}

/// The characters after the last slash of a path; empty if the path is empty
/// or ends with a slash.
pub open spec fn raw_tail(s: Seq<char>) -> Seq<char>
    decreases s.len(),
{
    if s.len() == 0 {
        Seq::empty()
    } else if s[s.len() - 1] == '/' {
        Seq::empty()
    } else {
        raw_tail(s.take(s.len() - 1)).push(s[s.len() - 1])
    }
}

/// The base file name of a path: its final component, with trailing slashes
/// and trailing same-directory components stripped; empty when no component
/// is left or the final one is the parent directory.
pub open spec fn base_of(s: Seq<char>) -> Seq<char>
    decreases s.len(),
{
    if s.len() == 0 {
        Seq::empty()
    } else if s[s.len() - 1] == '/' {
        base_of(s.take(s.len() - 1))
    } else if raw_tail(s) == seq!['.'] {
        base_of(s.take(s.len() - 1))
    } else if raw_tail(s) == seq!['.', '.'] {
        Seq::empty()
    } else {
        raw_tail(s)
    }
}

/// A path has an extractable base file name.
pub open spec fn valid_base(s: Seq<char>) -> bool {
    base_of(s).len() > 0
}

/// The directory of the path (through its last slash) with `extracted`
/// appended; `None` for an empty path.
pub open spec fn extraction_dir_of(s: Seq<char>) -> Option<Seq<char>> {
    if s.len() == 0 {
        None
    } else {
        Some(s.take(s.len() - raw_tail(s).len()) + extracted_name())
    }
}

pub open spec fn extracted_name() -> Seq<char> {
    seq!['e', 'x', 't', 'r', 'a', 'c', 't', 'e', 'd']
}

/// A directory and a file name joined with a single slash.
pub open spec fn joined(dir: Seq<char>, name: Seq<char>) -> Seq<char> {
    if dir.len() == 0 {
        name
    } else if dir[dir.len() - 1] == '/' {
        dir + name
    } else {
        dir + seq!['/'] + name
    }
}

/// The suffix after position `j` is the raw tail, when a slash (or the path
/// start) stands just before `j` and no slash follows it.
pub proof fn lemma_raw_tail_suffix(s: Seq<char>, j: int)
    requires
        0 <= j <= s.len(),
        j == 0 || s[j - 1] == '/',
        forall|k: int| j <= k < s.len() ==> s[k] != '/',
    ensures
        raw_tail(s) == s.skip(j),
    decreases s.len(),
{
    if j == s.len() {
        assert(s.skip(j) =~= Seq::<char>::empty());
        if s.len() > 0 {
            assert(s[s.len() - 1] == '/' || j < s.len());
        }
    } else {
        assert(s[s.len() - 1] != '/');
        let t = s.take(s.len() - 1);
        assert(forall|k: int| j <= k < t.len() ==> t[k] == s[k]);
        if j > 0 {
            assert(t[j - 1] == s[j - 1]);
        }
        lemma_raw_tail_suffix(t, j);
        assert(t.skip(j).push(s[s.len() - 1]) =~= s.skip(j));
    }
}

/// A raw tail holds no slash.
pub proof fn lemma_raw_tail_no_slash(s: Seq<char>)
    ensures
        forall|i: int| 0 <= i < raw_tail(s).len() ==> raw_tail(s)[i] != '/',
    decreases s.len(),
{
    if s.len() > 0 && s[s.len() - 1] != '/' {
        lemma_raw_tail_no_slash(s.take(s.len() - 1));
        let t = raw_tail(s.take(s.len() - 1));
        assert forall|i: int| 0 <= i < raw_tail(s).len() implies raw_tail(s)[i] != '/' by {
            if i < t.len() {
                assert(raw_tail(s)[i] == t[i]);
            } else {
                assert(raw_tail(s)[i] == s[s.len() - 1]);
            }
        }
    }
}

/// The base file name of a valid path is its own base file name: base names
/// pass through unchanged, as the stored paths of a saved archive do.
pub proof fn lemma_base_of_idempotent(s: Seq<char>)
    requires
        valid_base(s),
    ensures
        valid_base(base_of(s)),
        base_of(base_of(s)) == base_of(s),
    decreases s.len(),
{
    if s.len() == 0 {
    } else if s[s.len() - 1] == '/' {
        lemma_base_of_idempotent(s.take(s.len() - 1));
    } else if raw_tail(s) == seq!['.'] {
        lemma_base_of_idempotent(s.take(s.len() - 1));
    } else if raw_tail(s) == seq!['.', '.'] {
    } else {
        let b = raw_tail(s);
        lemma_raw_tail_no_slash(s);
        assert(b[b.len() - 1] != '/');
        lemma_raw_tail_suffix(b, 0);
        assert(b.skip(0) =~= b);
        assert(raw_tail(b) == b);
        assert(base_of(b) == b);
    }
}

/// The path with the archive extension appended if it was absent.
pub fn ensure_extension(path: &String) -> (r: String)
    ensures
        r@ == with_ext(path@),
{
    let mut chars = str_to_chars(path.as_str());
    let ext = str_to_chars(".basedchar");
    proof {
        reveal_strlit(".basedchar");
        assert(ext@ =~= archive_ext());
    }
    let mut matches_ext = false;
    if chars.len() >= 10 {
        let off = chars.len() - 10;
        let mut suf: Vec<char> = Vec::new();
        let mut k: usize = 0;
        while k < 10
            invariant
                chars@.len() >= 10,
                chars@.len() <= usize::MAX,
                off == chars@.len() - 10,
                k <= 10,
                suf@ == chars@.subrange(off as int, off + k as int),
            decreases 10 - k,
        {
            suf.push(chars[off + k]);
            k = k + 1;
            proof {
                assert(suf@ =~= chars@.subrange(off as int, off + k as int));
            }
        }
        matches_ext = crate::text::vec_chars_eq(&suf, &ext);
        proof {
            assert(suf@ == chars@.subrange(chars@.len() - 10, chars@.len() as int));
        }
    }
    if matches_ext {
        proof {
            assert(with_ext(path@) == path@);
        }
        let r = chars_to_string(&chars);
        r
    } else {
        append_chars(&mut chars, &ext);
        let r = chars_to_string(&chars);
        r
    }
}

/// The base file name of the first `e` characters of the path, per
/// `base_of`; empty when there is none.
fn base_name_at(chars: &Vec<char>, e: usize) -> (r: Vec<char>)
    requires
        e <= chars@.len(),
    ensures
        r@ == base_of(chars@.take(e as int)),
    decreases e,
{
    let ghost s = chars@.take(e as int);
    if e == 0 {
        let r: Vec<char> = Vec::new();
        proof {
            assert(s =~= Seq::<char>::empty());
        }
        return r;
    }
    proof {
        assert(s[e - 1] == chars@[e - 1]);
        assert(s.take(e - 1) =~= chars@.take(e - 1));
    }
    if chars[e - 1] == '/' {
        return base_name_at(chars, e - 1);
    }
    let mut j: usize = e;
    while j > 0
        invariant
            j <= e,
            e <= chars@.len(),
            forall|k: int| j <= k < e ==> chars@[k] != '/',
        ensures
            j <= e,
            e <= chars@.len(),
            forall|k: int| j <= k < e ==> chars@[k] != '/',
            j == 0 || chars@[j - 1] == '/',
        decreases j,
    {
        if chars[j - 1] == '/' {
            break;
        }
        j = j - 1;
    }
    proof {
        assert(forall|k: int| j <= k < s.len() ==> s[k] == chars@[k]);
        if j > 0 {
            assert(s[j - 1] == chars@[j - 1]);
        }
        lemma_raw_tail_suffix(s, j as int);
        assert(raw_tail(s) =~= chars@.subrange(j as int, e as int));
    }
    let mut t: Vec<char> = Vec::new();
    let mut k: usize = j;
    while k < e
        invariant
            j <= k <= e,
            e <= chars@.len(),
            t@ == chars@.subrange(j as int, k as int),
        decreases e - k,
    {
        t.push(chars[k]);
        k = k + 1;
        proof {
            assert(t@ =~= chars@.subrange(j as int, k as int));
        }
    }
    proof {
        assert(t@ == raw_tail(s));
    }
    if t.len() == 1 && t[0] == '.' {
        proof {
            assert(raw_tail(s) =~= seq!['.']);
        }
        return base_name_at(chars, e - 1);
    }
    if t.len() == 2 && t[0] == '.' && t[1] == '.' {
        proof {
            assert(raw_tail(s) =~= seq!['.', '.']);
            assert(base_of(s) =~= Seq::<char>::empty());
        }
        return Vec::new();
    }
    proof {
        assert(raw_tail(s) != seq!['.'] && raw_tail(s) != seq!['.', '.']) by {
            if raw_tail(s) == seq!['.'] {
                assert(t@.len() == 1 && t@[0] == '.');
            }
            if raw_tail(s) == seq!['.', '.'] {
                assert(t@.len() == 2 && t@[0] == '.' && t@[1] == '.');
            }
        }
        assert(t@.len() > 0);
        assert(base_of(s) == raw_tail(s));
    }
    t
}

/// The base file name of a path, or `None` if the path has none: the final
/// path component, ignoring trailing slashes and same-directory components;
/// a path ending in a parent-directory component has no base file name.
pub fn base_name(path: &String) -> (r: Option<String>)
    ensures
        match r {
            Some(b) => valid_base(path@) && b@ == base_of(path@),
            None => !valid_base(path@),
        },
{
    let chars = str_to_chars(path.as_str());
    let n = chars.len();
    let b = base_name_at(&chars, n);
    proof {
        assert(chars@.take(n as int) =~= chars@);
    }
    if b.len() == 0 {
        None
    } else {
        Some(chars_to_string(&b))
    }
}

/// The extraction directory beside the given archive path, or `None` for an
/// empty path.
pub fn extraction_dir(path: &String) -> (r: Option<String>)
    ensures
        match r {
            Some(d) => extraction_dir_of(path@) == Some(d@),
            None => extraction_dir_of(path@) is None,
        },
{
    let chars = str_to_chars(path.as_str());
    let n = chars.len();
    if n == 0 {
        return None;
    }
    let mut j: usize = n;
    while j > 0
        invariant
            j <= n,
            n == chars@.len(),
            forall|k: int| j <= k < n ==> chars@[k] != '/',
        ensures
            j <= n,
            n == chars@.len(),
            forall|k: int| j <= k < n ==> chars@[k] != '/',
            j == 0 || chars@[j - 1] == '/',
        decreases j,
    {
        if chars[j - 1] == '/' {
            break;
        }
        j = j - 1;
    }
    proof {
        lemma_raw_tail_suffix(chars@, j as int);
        assert(raw_tail(chars@).len() == n - j);
    }
    let mut d: Vec<char> = Vec::new();
    let mut k: usize = 0;
    while k < j
        invariant
            k <= j <= n,
            n == chars@.len(),
            d@ == chars@.take(k as int),
        decreases j - k,
    {
        d.push(chars[k]);
        k = k + 1;
        proof {
            assert(d@ =~= chars@.take(k as int));
        }
    }
    let ex = str_to_chars("extracted");
    proof {
        reveal_strlit("extracted");
        assert(ex@ =~= extracted_name());
    }
    append_chars(&mut d, &ex);
    proof {
        assert(d@ == chars@.take(j as int) + extracted_name());
    }
    Some(chars_to_string(&d))
}

/// A directory and a file name joined with a single slash.
pub fn join_path(dir: &String, name: &String) -> (r: String)
    ensures
        r@ == joined(dir@, name@),
{
    let dchars = str_to_chars(dir.as_str());
    let nchars = str_to_chars(name.as_str());
    let mut out: Vec<char> = Vec::new();
    if dchars.len() == 0 {
        append_chars(&mut out, &nchars);
        return chars_to_string(&out);
    }
    append_chars(&mut out, &dchars);
    if dchars[dchars.len() - 1] != '/' {
        out.push('/');
    }
    append_chars(&mut out, &nchars);
    proof {
        assert(out@ =~= joined(dir@, name@));
    }
    chars_to_string(&out)
}

} // verus!
