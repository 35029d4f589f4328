//! The line layer of the metadata document: a document is a sequence of
//! newline-terminated lines, none of which holds a newline itself. A final
//! line without a terminator is still one line.

use vstd::prelude::*;
use crate::text::views_of;

verus! {

/// A line holds no newline.
pub open spec fn line_clean(l: Seq<char>) -> bool {
    forall|i: int| 0 <= i < l.len() ==> l[i] != '\n'
}

/// No line of the document holds a newline.
pub open spec fn all_clean(ls: Seq<Seq<char>>) -> bool {
    forall|k: int| 0 <= k < ls.len() ==> line_clean(#[trigger] ls[k])
}

/// The text of a document: each line followed by a newline.
pub open spec fn unlines(ls: Seq<Seq<char>>) -> Seq<char>
    decreases ls.len(),
{
    if ls.len() == 0 {
        Seq::empty()
    } else {
        ls[0] + seq!['\n'] + unlines(ls.skip(1))
    }
}

/// The position of the first newline of a text, or its length if there is
/// none.
pub open spec fn first_nl(s: Seq<char>) -> int
    decreases s.len(),
{
    if s.len() == 0 {
        0
    } else if s[0] == '\n' {
        0
    } else {
        1 + first_nl(s.skip(1))
    }
}

/// The lines of a text, split at each newline; a trailing piece without a
/// newline is one more line.
pub open spec fn lines_of(s: Seq<char>) -> Seq<Seq<char>>
    decreases s.len(),
{
    if s.len() == 0 {
        Seq::empty()
    } else {
        let i = first_nl(s);
        if 0 <= i < s.len() {
            seq![s.take(i)] + lines_of(s.skip(i + 1))
        } else {
            seq![s]
        }
    }
}

/// A text with no newline is one line.
pub proof fn lemma_first_nl_clean(s: Seq<char>)
    requires
        line_clean(s),
    ensures
        first_nl(s) == s.len(),
    decreases s.len(),
{
    if s.len() > 0 {
        assert(forall|i: int| 0 <= i < s.skip(1).len() ==> s.skip(1)[i] == s[i + 1]);
        lemma_first_nl_clean(s.skip(1));
    }
}

pub proof fn lemma_first_nl_of_terminated(a: Seq<char>, b: Seq<char>)
    requires
        line_clean(a),
    ensures
        first_nl(a + seq!['\n'] + b) == a.len(),
    decreases a.len(),
{
    let s = a + seq!['\n'] + b;
    if a.len() == 0 {
        assert(s[0] == '\n');
    } else {
        assert(s[0] == a[0]);
        assert(s.skip(1) =~= a.skip(1) + seq!['\n'] + b);
        assert(forall|i: int| 0 <= i < a.skip(1).len() ==> a.skip(1)[i] == a[i + 1]);
        lemma_first_nl_of_terminated(a.skip(1), b);
    }
}

/// Splitting one terminated line off the front of a text.
pub proof fn lemma_lines_of_step(a: Seq<char>, b: Seq<char>)
    requires
        line_clean(a),
    ensures
        lines_of(a + seq!['\n'] + b) == seq![a] + lines_of(b),
{
    let s = a + seq!['\n'] + b;
    lemma_first_nl_of_terminated(a, b);
    assert(s.take(a.len() as int) =~= a);
    assert(s.skip(a.len() as int + 1) =~= b);
    assert(lines_of(s) =~= seq![a] + lines_of(b));
}

/// The text of a concatenation of documents.
pub proof fn lemma_unlines_append(x: Seq<Seq<char>>, y: Seq<Seq<char>>)
    ensures
        unlines(x + y) == unlines(x) + unlines(y),
    decreases x.len(),
{
    if x.len() == 0 {
        assert(x + y =~= y);
        assert(unlines(x) + unlines(y) =~= unlines(y));
    } else {
        assert((x + y).skip(1) =~= x.skip(1) + y);
        lemma_unlines_append(x.skip(1), y);
        assert(unlines(x + y) =~= unlines(x) + unlines(y));
    }
}

/// Splitting the text of a document recovers the document, line for line.
pub proof fn lemma_lines_unlines(ls: Seq<Seq<char>>)
    requires
        all_clean(ls),
    ensures
        lines_of(unlines(ls)) == ls,
    decreases ls.len(),
{
    if ls.len() == 0 {
    } else {
        assert(line_clean(ls[0]));
        lemma_lines_of_step(ls[0], unlines(ls.skip(1)));
        lemma_lines_unlines(ls.skip(1));
        assert(seq![ls[0]] + ls.skip(1) =~= ls);
    }
}

/// The text of a document, one newline after each line.
pub fn join_lines(lines: &Vec<Vec<char>>) -> (r: Vec<char>)
    ensures
        r@ == unlines(views_of(lines@)),
{
    let ghost ls = views_of(lines@);
    let mut r: Vec<char> = Vec::new();
    let mut k: usize = 0;
    proof {
        assert(ls.take(0) =~= Seq::<Seq<char>>::empty());
    }
    while k < lines.len()
        invariant
            k <= lines@.len(),
            ls == views_of(lines@),
            r@ == unlines(ls.take(k as int)),
        decreases lines@.len() - k,
    {
        let line = &lines[k];
        let ghost r0 = r@;
        let mut j: usize = 0;
        while j < line.len()
            invariant
                j <= line@.len(),
                r@ == r0 + line@.take(j as int),
            decreases line@.len() - j,
        {
            r.push(line[j]);
            proof {
                assert(r0 + line@.take(j + 1) =~= (r0 + line@.take(j as int)).push(line@[j as int]));
            }
            j = j + 1;
        }
        r.push('\n');
        proof {
            assert(line@.take(line@.len() as int) =~= line@);
            assert(ls.take(k + 1) =~= ls.take(k as int) + seq![ls[k as int]]);
            lemma_unlines_append(ls.take(k as int), seq![ls[k as int]]);
            assert(seq![ls[k as int]].skip(1) =~= Seq::<Seq<char>>::empty());
            assert(unlines(Seq::<Seq<char>>::empty()) =~= Seq::<char>::empty());
            assert((ls[k as int] + seq!['\n']) + Seq::<char>::empty() =~= ls[k as int] + seq!['\n']);
            assert(unlines(seq![ls[k as int]]) =~= ls[k as int] + seq!['\n']);
            assert(ls[k as int] == line@);
            assert(r@ =~= unlines(ls.take(k + 1)));
        }
        k = k + 1;
    }
    proof {
        assert(ls.take(ls.len() as int) =~= ls);
    }
    r
}

/// The lines of a text, split at each newline.
pub fn split_lines(s: &Vec<char>) -> (r: Vec<Vec<char>>)
    ensures
        views_of(r@) == lines_of(s@),
        all_clean(views_of(r@)),
{
    let mut r: Vec<Vec<char>> = Vec::new();
    let mut cur: Vec<char> = Vec::new();
    let mut start: usize = 0;
    let mut i: usize = 0;
    proof {
        assert(s@.skip(0) =~= s@);
        assert(views_of(r@) =~= Seq::<Seq<char>>::empty());
        assert(cur@ =~= s@.subrange(0, 0));
    }
    while i < s.len()
        invariant
            start <= i <= s@.len(),
            cur@ == s@.subrange(start as int, i as int),
            line_clean(cur@),
            all_clean(views_of(r@)),
            lines_of(s@) == views_of(r@) + lines_of(s@.skip(start as int)),
        decreases s@.len() - i,
    {
        let c = s[i];
        if c == '\n' {
            proof {
                assert(s@.skip(start as int) =~= cur@ + seq!['\n'] + s@.skip(i + 1));
                lemma_lines_of_step(cur@, s@.skip(i + 1));
            }
            let ghost rv = views_of(r@);
            let ghost cv = cur@;
            r.push(cur);
            cur = Vec::new();
            proof {
                assert(views_of(r@) =~= rv.push(cv));
                assert(views_of(r@) + lines_of(s@.skip(i + 1)) =~= rv + (seq![cv] + lines_of(
                    s@.skip(i + 1),
                )));
            }
            start = i + 1;
            i = i + 1;
            proof {
                assert(cur@ =~= s@.subrange(start as int, i as int));
            }
        } else {
            cur.push(c);
            i = i + 1;
            proof {
                assert(cur@ =~= s@.subrange(start as int, i as int));
            }
        }
    }
    proof {
        assert(s@.skip(start as int) =~= cur@);
    }
    if cur.len() > 0 {
        let ghost rv = views_of(r@);
        let ghost cv = cur@;
        proof {
            lemma_first_nl_clean(cv);
            assert(lines_of(cv) =~= seq![cv]);
        }
        r.push(cur);
        proof {
            assert(views_of(r@) =~= rv.push(cv));
            assert(views_of(r@) =~= rv + seq![cv]);
        }
    } else {
        proof {
            assert(lines_of(cur@) =~= Seq::<Seq<char>>::empty());
        }
    }
    proof {
        assert(views_of(r@) =~= lines_of(s@));
    }
    r
}

} // verus!
