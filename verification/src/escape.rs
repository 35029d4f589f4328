//! Escaping of text values for the metadata document. A value is written
//! between double quotes; backslash, double quote, newline, carriage return
//! and tab are written as two-character escapes, every other character
//! stands for itself. Unescaping rejects a raw quote or newline and any
//! unknown escape, so an escaped value always sits on one line and ends at
//! its closing quote.

use vstd::prelude::*;

verus! {

/// The character standing for `c` after a backslash, for the five escaped
/// characters.
pub open spec fn code_of(c: char) -> char {
    if c == '\\' {
        '\\'
    } else if c == '"' {
        '"'
    } else if c == '\n' {
        'n'
    } else if c == '\r' {
        'r'
    } else {
        't'
    }
}

/// Whether `c` must be written as a two-character escape.
pub open spec fn needs_escape(c: char) -> bool {
    c == '\\' || c == '"' || c == '\n' || c == '\r' || c == '\t'
}

/// Whether `c` is a valid character after a backslash.
pub open spec fn is_code(c: char) -> bool {
    c == '\\' || c == '"' || c == 'n' || c == 'r' || c == 't'
}

/// The character a valid escape code stands for.
pub open spec fn decode_of(c: char) -> char {
    if c == '\\' {
        '\\'
    } else if c == '"' {
        '"'
    } else if c == 'n' {
        '\n'
    } else if c == 'r' {
        '\r'
    } else {
        '\t'
    }
}

/// The escaped form of one character.
pub open spec fn esc_char(c: char) -> Seq<char> {
    if needs_escape(c) {
        seq!['\\', code_of(c)]
    } else {
        seq![c]
    }
}

/// The escaped form of a text value.
pub open spec fn esc(s: Seq<char>) -> Seq<char>
    decreases s.len(),
{
    if s.len() == 0 {
        Seq::empty()
    } else {
        esc_char(s[0]) + esc(s.skip(1))
    }
}

/// The value an escaped text stands for, or `None` if the text holds a raw
/// quote, a raw newline, a lone trailing backslash or an unknown escape.
pub open spec fn unesc(s: Seq<char>) -> Option<Seq<char>>
    decreases s.len(),
{
    if s.len() == 0 {
        Some(Seq::empty())
    } else if s[0] == '\\' {
        if s.len() >= 2 && is_code(s[1]) {
            match unesc(s.skip(2)) {
                Some(r) => Some(seq![decode_of(s[1])] + r),
                None => None,
            }
        } else {
            None
        }
    } else if s[0] == '"' || s[0] == '\n' {
        None
    } else {
        match unesc(s.skip(1)) {
            Some(r) => Some(seq![s[0]] + r),
            None => None,
        }
    }
}

/// Escaping distributes over concatenation.
pub proof fn lemma_esc_append(a: Seq<char>, b: Seq<char>)
    ensures
        esc(a + b) == esc(a) + esc(b),
    decreases a.len(),
{
    if a.len() == 0 {
        assert(a + b =~= b);
        assert(esc(a) + esc(b) =~= esc(b));
    } else {
        assert((a + b).skip(1) =~= a.skip(1) + b);
        lemma_esc_append(a.skip(1), b);
        assert(esc(a + b) =~= esc(a) + esc(b));
    }
}

/// The escaped form of a value never holds a raw newline.
pub proof fn lemma_esc_clean(s: Seq<char>)
    ensures
        forall|i: int| 0 <= i < esc(s).len() ==> esc(s)[i] != '\n',
    decreases s.len(),
{
    if s.len() > 0 {
        lemma_esc_clean(s.skip(1));
        let h = esc_char(s[0]);
        let t = esc(s.skip(1));
        assert forall|i: int| 0 <= i < esc(s).len() implies esc(s)[i] != '\n' by {
            if i < h.len() {
                assert(esc(s)[i] == h[i]);
            } else {
                assert(esc(s)[i] == t[i - h.len()]);
            }
        }
    }
}

/// Unescaping inverts escaping: every value is recovered exactly.
pub proof fn lemma_unesc_esc(s: Seq<char>)
    ensures
        unesc(esc(s)) == Some(s),
    decreases s.len(),
{
    if s.len() == 0 {
    } else {
        lemma_unesc_esc(s.skip(1));
        let e = esc(s);
        if needs_escape(s[0]) {
            assert(e.skip(2) =~= esc(s.skip(1)));
            assert(decode_of(code_of(s[0])) == s[0]);
            assert(seq![s[0]] + s.skip(1) =~= s);
        } else {
            assert(e.skip(1) =~= esc(s.skip(1)));
            assert(seq![s[0]] + s.skip(1) =~= s);
        }
    }
}

/// The escaped form of a text value.
pub fn escape(s: &Vec<char>) -> (r: Vec<char>)
    ensures
        r@ == esc(s@),
{
    let mut r: Vec<char> = Vec::new();
    let mut i: usize = 0;
    while i < s.len()
        invariant
            i <= s@.len(),
            r@ == esc(s@.take(i as int)),
        decreases s@.len() - i,
    {
        let c = s[i];
        if c == '\\' {
            r.push('\\');
            r.push('\\');
        } else if c == '"' {
            r.push('\\');
            r.push('"');
        } else if c == '\n' {
            r.push('\\');
            r.push('n');
        } else if c == '\r' {
            r.push('\\');
            r.push('r');
        } else if c == '\t' {
            r.push('\\');
            r.push('t');
        } else {
            r.push(c);
        }
        proof {
            assert(s@.take(i + 1) =~= s@.take(i as int) + seq![s@[i as int]]);
            lemma_esc_append(s@.take(i as int), seq![s@[i as int]]);
            assert(seq![s@[i as int]].skip(1) =~= Seq::<char>::empty());
            assert(esc(Seq::<char>::empty()) =~= Seq::<char>::empty());
            assert(esc_char(s@[i as int]) + Seq::<char>::empty() =~= esc_char(s@[i as int]));
            assert(esc(seq![s@[i as int]]) =~= esc_char(s@[i as int]));
            assert(r@ =~= esc(s@.take(i + 1)));
        }
        i = i + 1;
    }
    proof {
        assert(s@.take(s@.len() as int) =~= s@);
    }
    r
}

/// The value an escaped text stands for, or `None` if the text is not a
/// valid escaped value.
pub fn unescape(s: &Vec<char>) -> (r: Option<Vec<char>>)
    ensures
        match r {
            Some(v) => unesc(s@) == Some(v@),
            None => unesc(s@) is None,
        },
{
    let mut acc: Vec<char> = Vec::new();
    let mut i: usize = 0;
    proof {
        assert(s@.skip(0) =~= s@);
        if unesc(s@) is Some {
            assert(Seq::<char>::empty() + unesc(s@).unwrap() =~= unesc(s@).unwrap());
        }
    }
    while i < s.len()
        invariant
            i <= s@.len(),
            match unesc(s@.skip(i as int)) {
                Some(rest) => unesc(s@) == Some(acc@ + rest),
                None => unesc(s@) is None,
            },
        decreases s@.len() - i,
    {
        let c = s[i];
        proof {
            assert(s@.skip(i as int)[0] == s@[i as int]);
        }
        if c == '\\' {
            if i + 1 < s.len() {
                let d = s[i + 1];
                proof {
                    assert(s@.skip(i as int)[1] == s@[i + 1]);
                    assert(s@.skip(i as int).skip(2) =~= s@.skip(i + 2));
                }
                if d == '\\' {
                    acc.push('\\');
                } else if d == '"' {
                    acc.push('"');
                } else if d == 'n' {
                    acc.push('\n');
                } else if d == 'r' {
                    acc.push('\r');
                } else if d == 't' {
                    acc.push('\t');
                } else {
                    return None;
                }
                i = i + 2;
            } else {
                return None;
            }
        } else if c == '"' || c == '\n' {
            return None;
        } else {
            proof {
                assert(s@.skip(i as int).skip(1) =~= s@.skip(i + 1));
            }
            acc.push(c);
            i = i + 1;
        }
        proof {
            if unesc(s@.skip(i as int)) is Some {
                assert(acc@ + unesc(s@.skip(i as int)).unwrap() =~= unesc(s@).unwrap());
            }
        }
    }
    proof {
        assert(s@.skip(s@.len() as int) =~= Seq::<char>::empty());
        assert(acc@ + Seq::<char>::empty() =~= acc@);
    }
    Some(acc)
}

} // verus!
