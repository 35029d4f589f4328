//! The metadata document: a structured key/value text that carries one
//! character definition inside the archive. The document is line-based:
//!
//! ```text
//! name = "Ava"
//! [[emotions]]
//! name = "Happy"
//! [[emotions.frames]]
//! key = "default"
//! frame_type = "static"
//! path = "ava_happy.png"
//! ```
//!
//! Every value is a quoted, escaped text. Parsing accepts exactly the
//! documents this module writes, and recovers the character definition
//! unchanged; it rejects duplicate frame names within one emotion.

use vstd::prelude::*;
use crate::character::{
    CharView, CharacterData, Emotion, EmotionFrame, EmotionView, FrameView, emotions_view,
    frames_view,
};
use crate::escape::{esc, unesc, lemma_unesc_esc, lemma_esc_clean, escape, unescape};
use crate::lines::{all_clean, line_clean};
use crate::text::{append_chars, chars_to_string, lemma_views_of_append, str_to_chars, vec_chars_eq,
    views_of};

verus! {

pub open spec fn name_key() -> Seq<char> {
    seq!['n', 'a', 'm', 'e']
}

pub open spec fn key_key() -> Seq<char> {
    seq!['k', 'e', 'y']
}

pub open spec fn type_key() -> Seq<char> {
    seq!['f', 'r', 'a', 'm', 'e', '_', 't', 'y', 'p', 'e']
}

pub open spec fn path_key() -> Seq<char> {
    seq!['p', 'a', 't', 'h']
}

pub open spec fn eq_quote() -> Seq<char> {
    seq![' ', '=', ' ', '"']
}

pub open spec fn emotions_header() -> Seq<char> {
    seq!['[', '[', 'e', 'm', 'o', 't', 'i', 'o', 'n', 's', ']', ']']
}

pub open spec fn frames_header() -> Seq<char> {
    seq!['[', '[', 'e', 'm', 'o', 't', 'i', 'o', 'n', 's', '.', 'f', 'r', 'a', 'm', 'e', 's', ']', ']']
}

/// One key/value line: the key, ` = `, and the escaped value in quotes.
pub open spec fn kv_line(key: Seq<char>, v: Seq<char>) -> Seq<char> {
    key + eq_quote() + esc(v) + seq!['"']
}

/// The lines of one frame entry.
pub open spec fn enc_frame(kv: (Seq<char>, FrameView)) -> Seq<Seq<char>> {
    seq![
        frames_header(),
        kv_line(key_key(), kv.0),
        kv_line(type_key(), kv.1.frame_type),
        kv_line(path_key(), kv.1.path),
    ]
}

pub open spec fn enc_frames(fs: Seq<(Seq<char>, FrameView)>) -> Seq<Seq<char>>
    decreases fs.len(),
{
    if fs.len() == 0 {
        Seq::empty()
    } else {
        enc_frame(fs[0]) + enc_frames(fs.skip(1))
    }
}

/// The lines of one emotion: its header, its name, its frames.
pub open spec fn enc_emotion(e: EmotionView) -> Seq<Seq<char>> {
    seq![emotions_header(), kv_line(name_key(), e.name)] + enc_frames(e.frames)
}

pub open spec fn enc_emotions(es: Seq<EmotionView>) -> Seq<Seq<char>>
    decreases es.len(),
{
    if es.len() == 0 {
        Seq::empty()
    } else {
        enc_emotion(es[0]) + enc_emotions(es.skip(1))
    }
}

/// The lines of a whole character document: the character name, then each
/// emotion in order.
pub open spec fn enc_doc(d: CharView) -> Seq<Seq<char>> {
    seq![kv_line(name_key(), d.name)] + enc_emotions(d.emotions)
}

/// The value of a key/value line for the given key, or `None` if the line is
/// not such a line.
pub open spec fn parse_kv(key: Seq<char>, line: Seq<char>) -> Option<Seq<char>> {
    let p = key + eq_quote();
    if line.len() > p.len() && line.take(p.len() as int) == p && line[line.len() - 1] == '"' {
        unesc(line.subrange(p.len() as int, line.len() - 1))
    } else {
        None
    }
}

/// The frame entries at the head of the remaining lines: every block of four
/// lines led by the frame header, in order. `None` on a malformed block.
pub open spec fn parse_frames(lines: Seq<Seq<char>>) -> Option<Seq<(Seq<char>, FrameView)>>
    decreases lines.len(),
{
    if lines.len() == 0 || lines[0] != frames_header() {
        Some(Seq::empty())
    } else if lines.len() >= 4 {
        match (parse_kv(key_key(), lines[1]), parse_kv(type_key(), lines[2]), parse_kv(
            path_key(),
            lines[3],
        )) {
            (Some(k), Some(t), Some(p)) => match parse_frames(lines.skip(4)) {
                Some(fs) => Some(
                    seq![(k, FrameView { frame_type: t, path: p })] + fs,
                ),
                None => None,
            },
            _ => None,
        }
    } else {
        None
    }
}

/// The emotions encoded by the remaining lines. `None` on a malformed block
/// or on duplicate frame names within one emotion.
pub open spec fn parse_emotions(lines: Seq<Seq<char>>) -> Option<Seq<EmotionView>>
    decreases lines.len(),
{
    if lines.len() == 0 {
        Some(Seq::empty())
    } else if lines[0] == emotions_header() && lines.len() >= 2 {
        match parse_kv(name_key(), lines[1]) {
            Some(nm) => match parse_frames(lines.skip(2)) {
                Some(fs) => {
                    let next = 2 + 4 * fs.len() as int;
                    if next <= lines.len() {
                        let e = EmotionView { name: nm, frames: fs };
                        if e.wf() {
                            match parse_emotions(lines.skip(next)) {
                                Some(es) => Some(seq![e] + es),
                                None => None,
                            }
                        } else {
                            None
                        }
                    } else {
                        None
                    }
                },
                None => None,
            },
            None => None,
        }
    } else {
        None
    }
}

/// The character definition encoded by a document, or `None` if the document
/// is malformed.
pub open spec fn parse_doc(lines: Seq<Seq<char>>) -> Option<CharView> {
    if lines.len() >= 1 {
        match parse_kv(name_key(), lines[0]) {
            Some(nm) => match parse_emotions(lines.skip(1)) {
                Some(es) => Some(CharView { name: nm, emotions: es }),
                None => None,
            },
            None => None,
        }
    } else {
        None
    }
}

/// A key/value line yields back exactly the value written into it.
pub proof fn lemma_parse_kv_line(key: Seq<char>, v: Seq<char>)
    ensures
        parse_kv(key, kv_line(key, v)) == Some(v),
{
    let p = key + eq_quote();
    let line = kv_line(key, v);
    assert(line =~= p + esc(v) + seq!['"']);
    assert(line.len() == p.len() + esc(v).len() + 1);
    assert(line.take(p.len() as int) =~= p);
    assert(line[line.len() - 1] == '"');
    assert(line.subrange(p.len() as int, line.len() - 1) =~= esc(v));
    lemma_unesc_esc(v);
}

/// A key/value line never holds a newline, so it is one line of a document.
pub proof fn lemma_kv_line_clean(key: Seq<char>, v: Seq<char>)
    requires
        line_clean(key),
    ensures
        line_clean(kv_line(key, v)),
{
    lemma_esc_clean(v);
    let line = kv_line(key, v);
    assert forall|i: int| 0 <= i < line.len() implies line[i] != '\n' by {
        let k = key.len() as int;
        let e = esc(v).len() as int;
        if i < k {
            assert(line[i] == key[i]);
        } else if i < k + 4 {
            assert(line[i] == eq_quote()[i - k]);
        } else if i < k + 4 + e {
            assert(line[i] == esc(v)[i - k - 4]);
        } else {
            assert(line[i] == '"');
        }
    }
}

/// Every line written for a sequence of frames is clean.
pub proof fn lemma_enc_frames_clean(fs: Seq<(Seq<char>, FrameView)>)
    ensures
        all_clean(enc_frames(fs)),
        enc_frames(fs).len() == 4 * fs.len(),
    decreases fs.len(),
{
    if fs.len() > 0 {
        lemma_enc_frames_clean(fs.skip(1));
        lemma_kv_line_clean(key_key(), fs[0].0);
        lemma_kv_line_clean(type_key(), fs[0].1.frame_type);
        lemma_kv_line_clean(path_key(), fs[0].1.path);
        assert(line_clean(frames_header()));
        let whole = enc_frames(fs);
        let head = enc_frame(fs[0]);
        assert forall|k: int| 0 <= k < whole.len() implies line_clean(#[trigger] whole[k]) by {
            if k < 4 {
                assert(whole[k] == head[k]);
            } else {
                assert(whole[k] == enc_frames(fs.skip(1))[k - 4]);
            }
        }
    }
}

/// Every line written for a sequence of emotions is clean.
pub proof fn lemma_enc_emotions_clean(es: Seq<EmotionView>)
    ensures
        all_clean(enc_emotions(es)),
    decreases es.len(),
{
    if es.len() > 0 {
        lemma_enc_emotions_clean(es.skip(1));
        lemma_enc_frames_clean(es[0].frames);
        lemma_kv_line_clean(name_key(), es[0].name);
        assert(line_clean(emotions_header()));
        let whole = enc_emotions(es);
        let head = enc_emotion(es[0]);
        assert forall|k: int| 0 <= k < whole.len() implies line_clean(#[trigger] whole[k]) by {
            if k < head.len() {
                assert(whole[k] == head[k]);
                if k >= 2 {
                    assert(head[k] == enc_frames(es[0].frames)[k - 2]);
                }
            } else {
                assert(whole[k] == enc_emotions(es.skip(1))[k - head.len()]);
            }
        }
    }
}

/// Every line of a character document is clean.
pub proof fn lemma_enc_doc_clean(d: CharView)
    ensures
        all_clean(enc_doc(d)),
{
    lemma_enc_emotions_clean(d.emotions);
    lemma_kv_line_clean(name_key(), d.name);
    let whole = enc_doc(d);
    assert forall|k: int| 0 <= k < whole.len() implies line_clean(#[trigger] whole[k]) by {
        if k >= 1 {
            assert(whole[k] == enc_emotions(d.emotions)[k - 1]);
        }
    }
}

/// The frame lines written for `fs`, followed by anything that does not start
/// with the frame header, parse back to exactly `fs`.
pub proof fn lemma_parse_enc_frames(fs: Seq<(Seq<char>, FrameView)>, rest: Seq<Seq<char>>)
    requires
        rest.len() == 0 || rest[0] != frames_header(),
    ensures
        parse_frames(enc_frames(fs) + rest) == Some(fs),
    decreases fs.len(),
{
    let lines = enc_frames(fs) + rest;
    if fs.len() == 0 {
        assert(lines =~= rest);
        assert(parse_frames(rest) == Some(Seq::<(Seq<char>, FrameView)>::empty()));
        assert(Some(Seq::<(Seq<char>, FrameView)>::empty()) == Some(fs)) by {
            assert(fs =~= Seq::<(Seq<char>, FrameView)>::empty());
        }
    } else {
        let head = enc_frame(fs[0]);
        assert(lines[0] == head[0]);
        assert(lines[1] == head[1]);
        assert(lines[2] == head[2]);
        assert(lines[3] == head[3]);
        lemma_parse_kv_line(key_key(), fs[0].0);
        lemma_parse_kv_line(type_key(), fs[0].1.frame_type);
        lemma_parse_kv_line(path_key(), fs[0].1.path);
        assert(lines.skip(4) =~= enc_frames(fs.skip(1)) + rest);
        lemma_parse_enc_frames(fs.skip(1), rest);
        assert(FrameView { frame_type: fs[0].1.frame_type, path: fs[0].1.path } == fs[0].1);
        assert(seq![(fs[0].0, fs[0].1)] + fs.skip(1) =~= fs);
    }
}

/// The emotion lines written for well-formed `es` parse back to exactly `es`.
pub proof fn lemma_parse_enc_emotions(es: Seq<EmotionView>)
    requires
        forall|i: int| 0 <= i < es.len() ==> (#[trigger] es[i]).wf(),
    ensures
        parse_emotions(enc_emotions(es)) == Some(es),
    decreases es.len(),
{
    let lines = enc_emotions(es);
    if es.len() == 0 {
        assert(parse_emotions(lines) == Some(Seq::<EmotionView>::empty()));
        assert(es =~= Seq::<EmotionView>::empty());
    } else {
        let head = enc_emotion(es[0]);
        let fs = es[0].frames;
        let tail = enc_emotions(es.skip(1));
        assert(lines[0] == head[0]);
        assert(lines[1] == head[1]);
        lemma_parse_kv_line(name_key(), es[0].name);
        lemma_enc_frames_clean(fs);
        assert(lines.skip(2) =~= enc_frames(fs) + tail);
        if es.len() > 1 {
            assert(tail[0] == enc_emotion(es.skip(1)[0])[0]);
            assert(tail[0] == emotions_header());
            assert(emotions_header() != frames_header()) by {
                assert(emotions_header().len() != frames_header().len());
            }
        } else {
            assert(tail =~= Seq::<Seq<char>>::empty());
        }
        lemma_parse_enc_frames(fs, tail);
        let next = 2 + 4 * fs.len() as int;
        assert(lines.len() == head.len() + tail.len());
        assert(head.len() == 2 + enc_frames(fs).len());
        assert(next <= lines.len());
        assert(lines.skip(next) =~= tail);
        assert(forall|i: int| 0 <= i < es.skip(1).len() ==> es.skip(1)[i] == es[i + 1]);
        lemma_parse_enc_emotions(es.skip(1));
        assert(EmotionView { name: es[0].name, frames: fs } == es[0]);
        assert(seq![es[0]] + es.skip(1) =~= es);
    }
}

fn name_key_vec() -> (v: Vec<char>)
    ensures
        v@ == name_key(),
{
    let v = str_to_chars("name");
    proof {
        reveal_strlit("name");
        assert(v@ =~= name_key());
    }
    v
}

fn key_key_vec() -> (v: Vec<char>)
    ensures
        v@ == key_key(),
{
    let v = str_to_chars("key");
    proof {
        reveal_strlit("key");
        assert(v@ =~= key_key());
    }
    v
}

fn type_key_vec() -> (v: Vec<char>)
    ensures
        v@ == type_key(),
{
    let v = str_to_chars("frame_type");
    proof {
        reveal_strlit("frame_type");
        assert(v@ =~= type_key());
    }
    v
}

fn path_key_vec() -> (v: Vec<char>)
    ensures
        v@ == path_key(),
{
    let v = str_to_chars("path");
    proof {
        reveal_strlit("path");
        assert(v@ =~= path_key());
    }
    v
}

fn emotions_header_vec() -> (v: Vec<char>)
    ensures
        v@ == emotions_header(),
{
    let v = str_to_chars("[[emotions]]");
    proof {
        reveal_strlit("[[emotions]]");
        assert(v@ =~= emotions_header());
    }
    v
}

fn frames_header_vec() -> (v: Vec<char>)
    ensures
        v@ == frames_header(),
{
    let v = str_to_chars("[[emotions.frames]]");
    proof {
        reveal_strlit("[[emotions.frames]]");
        assert(v@ =~= frames_header());
    }
    v
}

/// One key/value line for the given key and value.
fn make_kv_line(key: &Vec<char>, v: &Vec<char>) -> (r: Vec<char>)
    ensures
        r@ == kv_line(key@, v@),
{
    let mut r: Vec<char> = Vec::new();
    append_chars(&mut r, key);
    r.push(' ');
    r.push('=');
    r.push(' ');
    r.push('"');
    let e = escape(v);
    append_chars(&mut r, &e);
    r.push('"');
    proof {
        assert(r@ =~= kv_line(key@, v@));
    }
    r
}

/// The value of a key/value line for the given key, or `None` if the line is
/// not such a line.
fn parse_kv_x(key: &Vec<char>, line: &Vec<char>) -> (r: Option<Vec<char>>)
    requires
        key@.len() <= 32,
    ensures
        match r {
            Some(v) => parse_kv(key@, line@) == Some(v@),
            None => parse_kv(key@, line@) is None,
        },
{
    let ghost p = key@ + eq_quote();
    let klen = key.len();
    if line.len() < klen + 5 {
        return None;
    }
    let mut j: usize = 0;
    while j < klen
        invariant
            klen == key@.len(),
            p == key@ + eq_quote(),
            p.len() == klen + 4,
            line@.len() > klen + 4,
            j <= klen,
            forall|k: int| 0 <= k < j ==> line@[k] == key@[k],
        decreases klen - j,
    {
        if line[j] != key[j] {
            proof {
                assert(p[j as int] == key@[j as int]);
                assert(line@.take(p.len() as int) != p) by {
                    if line@.take(p.len() as int) == p {
                        assert(line@.take(p.len() as int)[j as int] == line@[j as int]);
                    }
                }
            }
            return None;
        }
        j = j + 1;
    }
    let c0 = line[klen];
    let c1 = line[klen + 1];
    let c2 = line[klen + 2];
    let c3 = line[klen + 3];
    if !(c0 == ' ' && c1 == '=' && c2 == ' ' && c3 == '"') {
        proof {
            assert(p[klen as int] == ' ' && p[klen + 1] == '=' && p[klen + 2] == ' ' && p[klen + 3]
                == '"');
            assert(line@.take(p.len() as int) != p) by {
                if line@.take(p.len() as int) == p {
                    assert(line@.take(p.len() as int)[klen as int] == line@[klen as int]);
                    assert(line@.take(p.len() as int)[klen + 1] == line@[klen + 1]);
                    assert(line@.take(p.len() as int)[klen + 2] == line@[klen + 2]);
                    assert(line@.take(p.len() as int)[klen + 3] == line@[klen + 3]);
                }
            }
        }
        return None;
    }
    if line[line.len() - 1] != '"' {
        return None;
    }
    proof {
        assert(line@.take(p.len() as int) =~= p);
    }
    let mut mid: Vec<char> = Vec::new();
    let mut m: usize = klen + 4;
    while m < line.len() - 1
        invariant
            klen + 4 <= m <= line@.len() - 1,
            line@.len() > klen + 4,
            klen == key@.len(),
            mid@ == line@.subrange(klen + 4, m as int),
        decreases line@.len() - m,
    {
        mid.push(line[m]);
        m = m + 1;
        proof {
            assert(mid@ =~= line@.subrange(klen + 4, m as int));
        }
    }
    match unescape(&mid) {
        Some(v) => Some(v),
        None => None,
    }
}

/// Builds the frame lines for the frames of one emotion, from index `i` on.
fn encode_frames_x(fs: &Vec<(String, EmotionFrame)>, i: usize) -> (r: Vec<Vec<char>>)
    requires
        i <= fs@.len(),
    ensures
        views_of(r@) == enc_frames(frames_view(fs@).skip(i as int)),
    decreases fs@.len() - i,
{
    let ghost fv = frames_view(fs@);
    if i == fs.len() {
        let r: Vec<Vec<char>> = Vec::new();
        proof {
            assert(fv.skip(i as int) =~= Seq::<(Seq<char>, FrameView)>::empty());
            assert(views_of(r@) =~= enc_frames(fv.skip(i as int)));
        }
        return r;
    }
    let mut r: Vec<Vec<char>> = Vec::new();
    r.push(frames_header_vec());
    let kk = key_key_vec();
    let tk = type_key_vec();
    let pk = path_key_vec();
    let kchars = str_to_chars(fs[i].0.as_str());
    let tchars = str_to_chars(fs[i].1.frame_type.as_str());
    let pchars = str_to_chars(fs[i].1.path.as_str());
    r.push(make_kv_line(&kk, &kchars));
    r.push(make_kv_line(&tk, &tchars));
    r.push(make_kv_line(&pk, &pchars));
    let ghost head = r@;
    let mut rest = encode_frames_x(fs, i + 1);
    r.append(&mut rest);
    proof {
        lemma_views_of_append(head, r@.skip(4));
        assert(r@ =~= head + r@.skip(4));
        assert(fv.skip(i as int)[0] == fv[i as int]);
        assert(fv[i as int] == (fs@[i as int].0@, fs@[i as int].1@));
        assert(views_of(head) =~= enc_frame(fv.skip(i as int)[0]));
        assert(fv.skip(i as int).skip(1) =~= fv.skip(i + 1));
        assert(views_of(r@) =~= enc_frames(fv.skip(i as int)));
    }
    r
}

/// Builds the lines for the emotions, from index `i` on.
fn encode_emotions_x(es: &Vec<Emotion>, i: usize) -> (r: Vec<Vec<char>>)
    requires
        i <= es@.len(),
    ensures
        views_of(r@) == enc_emotions(emotions_view(es@).skip(i as int)),
    decreases es@.len() - i,
{
    let ghost ev = emotions_view(es@);
    if i == es.len() {
        let r: Vec<Vec<char>> = Vec::new();
        proof {
            assert(ev.skip(i as int) =~= Seq::<EmotionView>::empty());
            assert(views_of(r@) =~= enc_emotions(ev.skip(i as int)));
        }
        return r;
    }
    let mut r: Vec<Vec<char>> = Vec::new();
    r.push(emotions_header_vec());
    let nk = name_key_vec();
    let nchars = str_to_chars(es[i].name.as_str());
    r.push(make_kv_line(&nk, &nchars));
    let ghost head = r@;
    let mut frames = encode_frames_x(&es[i].frames, 0);
    let ghost flen = frames@.len() as int;
    r.append(&mut frames);
    let ghost mid = r@;
    let mut rest = encode_emotions_x(es, i + 1);
    r.append(&mut rest);
    proof {
        let e = ev.skip(i as int)[0];
        assert(e == ev[i as int]);
        assert(frames_view(es@[i as int].frames@).skip(0) =~= e.frames);
        lemma_views_of_append(head, mid.skip(2));
        assert(mid =~= head + mid.skip(2));
        assert(views_of(mid) =~= enc_emotion(e));
        lemma_views_of_append(mid, r@.skip(mid.len() as int));
        assert(r@ =~= mid + r@.skip(mid.len() as int));
        assert(ev.skip(i as int).skip(1) =~= ev.skip(i + 1));
        assert(views_of(r@) =~= enc_emotions(ev.skip(i as int)));
    }
    r
}

/// The document lines for a character definition.
pub fn encode_document(d: &CharacterData) -> (r: Vec<Vec<char>>)
    ensures
        views_of(r@) == enc_doc(d@),
{
    let mut r: Vec<Vec<char>> = Vec::new();
    let nk = name_key_vec();
    let nchars = str_to_chars(d.name.as_str());
    r.push(make_kv_line(&nk, &nchars));
    let ghost head = r@;
    let mut rest = encode_emotions_x(&d.emotions, 0);
    r.append(&mut rest);
    proof {
        lemma_views_of_append(head, r@.skip(1));
        assert(r@ =~= head + r@.skip(1));
        assert(emotions_view(d.emotions@).skip(0) =~= d@.emotions);
        assert(views_of(r@) =~= enc_doc(d@));
    }
    r
}

/// Parses frame blocks from index `i` on; returns the frames and the index of
/// the first line after them.
fn parse_frames_x(lines: &Vec<Vec<char>>, i: usize) -> (r: Option<(Vec<(String, EmotionFrame)>, usize)>)
    requires
        i <= lines@.len(),
    ensures
        match r {
            Some(pair) => {
                &&& parse_frames(views_of(lines@).skip(i as int)) == Some(frames_view(pair.0@))
                &&& i <= pair.1 <= lines@.len()
                &&& pair.1 == i + 4 * pair.0@.len()
            },
            None => parse_frames(views_of(lines@).skip(i as int)) is None,
        },
    decreases lines@.len() - i,
{
    let ghost ls = views_of(lines@).skip(i as int);
    if i == lines.len() {
        let out: Vec<(String, EmotionFrame)> = Vec::new();
        proof {
            assert(ls.len() == 0);
            assert(frames_view(out@) =~= Seq::<(Seq<char>, FrameView)>::empty());
        }
        return Some((out, i));
    }
    proof {
        assert(ls[0] == views_of(lines@)[i as int]);
    }
    let fh = frames_header_vec();
    if !vec_chars_eq(&lines[i], &fh) {
        let out: Vec<(String, EmotionFrame)> = Vec::new();
        proof {
            assert(frames_view(out@) =~= Seq::<(Seq<char>, FrameView)>::empty());
        }
        return Some((out, i));
    }
    if lines.len() - i < 4 {
        return None;
    }
    proof {
        assert(ls[1] == views_of(lines@)[i + 1]);
        assert(ls[2] == views_of(lines@)[i + 2]);
        assert(ls[3] == views_of(lines@)[i + 3]);
    }
    let kk = key_key_vec();
    let tk = type_key_vec();
    let pk = path_key_vec();
    let k = match parse_kv_x(&kk, &lines[i + 1]) {
        Some(v) => v,
        None => {
            return None;
        },
    };
    let t = match parse_kv_x(&tk, &lines[i + 2]) {
        Some(v) => v,
        None => {
            return None;
        },
    };
    let p = match parse_kv_x(&pk, &lines[i + 3]) {
        Some(v) => v,
        None => {
            return None;
        },
    };
    proof {
        assert(ls.skip(4) =~= views_of(lines@).skip(i + 4));
    }
    match parse_frames_x(lines, i + 4) {
        Some(pair) => {
            let mut out = pair.0;
            let ghost restv = frames_view(out@);
            let frame = (
                chars_to_string(&k),
                EmotionFrame { frame_type: chars_to_string(&t), path: chars_to_string(&p) },
            );
            out.insert(0, frame);
            proof {
                assert(frames_view(out@) =~= seq![(k@, FrameView { frame_type: t@, path: p@ })]
                    + restv);
            }
            Some((out, pair.1))
        },
        None => None,
    }
}

/// Parses emotion blocks from index `i` to the end of the document.
fn parse_emotions_x(lines: &Vec<Vec<char>>, i: usize) -> (r: Option<Vec<Emotion>>)
    requires
        i <= lines@.len(),
    ensures
        match r {
            Some(es) => {
                &&& parse_emotions(views_of(lines@).skip(i as int)) == Some(emotions_view(es@))
                &&& forall|k: int| 0 <= k < es@.len() ==> (#[trigger] es@[k])@.wf()
            },
            None => parse_emotions(views_of(lines@).skip(i as int)) is None,
        },
    decreases lines@.len() - i,
{
    let ghost ls = views_of(lines@).skip(i as int);
    if i == lines.len() {
        let out: Vec<Emotion> = Vec::new();
        proof {
            assert(ls.len() == 0);
            assert(emotions_view(out@) =~= Seq::<EmotionView>::empty());
        }
        return Some(out);
    }
    proof {
        assert(ls[0] == views_of(lines@)[i as int]);
    }
    let eh = emotions_header_vec();
    if !vec_chars_eq(&lines[i], &eh) {
        return None;
    }
    if lines.len() - i < 2 {
        return None;
    }
    proof {
        assert(ls[1] == views_of(lines@)[i + 1]);
    }
    let nk = name_key_vec();
    let nm = match parse_kv_x(&nk, &lines[i + 1]) {
        Some(v) => v,
        None => {
            return None;
        },
    };
    proof {
        assert(ls.skip(2) =~= views_of(lines@).skip(i + 2));
    }
    let (fs, next) = match parse_frames_x(lines, i + 2) {
        Some(pair) => pair,
        None => {
            return None;
        },
    };
    proof {
        assert(2 + 4 * frames_view(fs@).len() as int <= ls.len());
    }
    if !crate::character::frame_names_unique(&fs) {
        proof {
            let e = EmotionView { name: nm@, frames: frames_view(fs@) };
            assert(e.frames == frames_view(fs@));
            assert(!e.wf());
        }
        return None;
    }
    proof {
        assert(ls.skip(2 + 4 * frames_view(fs@).len() as int) =~= views_of(lines@).skip(
            next as int,
        ));
    }
    match parse_emotions_x(lines, next) {
        Some(rest) => {
            let mut out = rest;
            let ghost restv = emotions_view(out@);
            let emotion = Emotion { name: chars_to_string(&nm), frames: fs };
            proof {
                assert(emotion@.wf());
            }
            out.insert(0, emotion);
            proof {
                assert(emotions_view(out@) =~= seq![emotion@] + restv);
            }
            Some(out)
        },
        None => None,
    }
}

/// Parses a whole document into a character definition. The result is
/// well-formed; a malformed document (or duplicate frame names) yields
/// `None`, exactly when the document specification does.
pub fn parse_document(lines: &Vec<Vec<char>>) -> (r: Option<CharacterData>)
    ensures
        match r {
            Some(c) => parse_doc(views_of(lines@)) == Some(c@) && c.wf(),
            None => parse_doc(views_of(lines@)) is None,
        },
{
    if lines.len() == 0 {
        return None;
    }
    proof {
        assert(views_of(lines@)[0] == lines@[0]@);
    }
    let nk = name_key_vec();
    let nm = match parse_kv_x(&nk, &lines[0]) {
        Some(v) => v,
        None => {
            return None;
        },
    };
    proof {
        assert(views_of(lines@).skip(1) == views_of(lines@).skip(1));
    }
    match parse_emotions_x(lines, 1) {
        Some(es) => {
            let c = CharacterData { name: chars_to_string(&nm), emotions: es };
            proof {
                assert(c@ =~= CharView { name: nm@, emotions: emotions_view(es@) });
            }
            Some(c)
        },
        None => None,
    }
}

/// Round trip of the document: the lines written for a well-formed character
/// definition parse back to exactly that definition.
pub proof fn lemma_parse_enc_doc(d: CharView)
    requires
        d.wf(),
    ensures
        parse_doc(enc_doc(d)) == Some(d),
{
    let lines = enc_doc(d);
    lemma_parse_kv_line(name_key(), d.name);
    assert(lines[0] == kv_line(name_key(), d.name));
    assert(lines.skip(1) =~= enc_emotions(d.emotions));
    lemma_parse_enc_emotions(d.emotions);
    assert(CharView { name: d.name, emotions: d.emotions } == d);
}

} // verus!
