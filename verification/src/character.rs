//! The character data model: a character has a name and an ordered list of
//! emotions; each emotion maps frame names to frames; a frame has a type tag
//! and an image path. Frame names are unique within one emotion.

use vstd::prelude::*;

verus! {

/// Mathematical view of one frame: a type tag and an image path.
#[verifier::ext_equal]
pub struct FrameView {
    pub frame_type: Seq<char>,
    pub path: Seq<char>,
}

/// Mathematical view of one emotion: a name and the named frames, in order.
#[verifier::ext_equal]
pub struct EmotionView {
    pub name: Seq<char>,
    pub frames: Seq<(Seq<char>, FrameView)>,
}

/// Mathematical view of a whole character definition.
#[verifier::ext_equal]
pub struct CharView {
    pub name: Seq<char>,
    pub emotions: Seq<EmotionView>,
}

/// One frame of an emotion: a type tag and the path of its image file.
pub struct EmotionFrame {
    pub frame_type: String,
    pub path: String,
}

/// One named emotion: its name and its frames, keyed by frame name.
pub struct Emotion {
    pub name: String,
    pub frames: Vec<(String, EmotionFrame)>,
}

/// A whole character definition.
pub struct CharacterData {
    pub name: String,
    pub emotions: Vec<Emotion>,
}

impl View for EmotionFrame {
    type V = FrameView;

    open spec fn view(&self) -> FrameView {
        FrameView { frame_type: self.frame_type@, path: self.path@ }
    }
}

/// The views of a sequence of named frames.
pub open spec fn frames_view(fs: Seq<(String, EmotionFrame)>) -> Seq<(Seq<char>, FrameView)> {
    fs.map_values(|kv: (String, EmotionFrame)| (kv.0@, kv.1@))
}

/// The views of a sequence of emotions.
pub open spec fn emotions_view(es: Seq<Emotion>) -> Seq<EmotionView> {
    es.map_values(|e: Emotion| e@)
}

impl View for Emotion {
    type V = EmotionView;

    open spec fn view(&self) -> EmotionView {
        EmotionView { name: self.name@, frames: frames_view(self.frames@) }
    }
}

impl View for CharacterData {
    type V = CharView;

    open spec fn view(&self) -> CharView {
        CharView { name: self.name@, emotions: emotions_view(self.emotions@) }
    }
}

impl EmotionView {
    /// Frame names are unique within one emotion.
    pub open spec fn wf(self) -> bool {
        forall|i: int, j: int|
            0 <= i < j < self.frames.len() ==> self.frames[i].0 != self.frames[j].0
    }
}

impl CharView {
    pub open spec fn wf(self) -> bool {
        forall|i: int| 0 <= i < self.emotions.len() ==> (#[trigger] self.emotions[i]).wf()
    }

    /// All frames of the character, over all emotions, in order.
    pub open spec fn all_frames(self) -> Seq<(Seq<char>, FrameView)> {
        frames_concat(self.emotions)
    }
}

/// The frames of a sequence of emotions, in order.
pub open spec fn frames_concat(es: Seq<EmotionView>) -> Seq<(Seq<char>, FrameView)>
    decreases es.len(),
{
    if es.len() == 0 {
        Seq::empty()
    } else {
        es[0].frames + frames_concat(es.skip(1))
    }
}

/// `frames_concat` distributes over concatenation.
pub proof fn lemma_frames_concat_append(a: Seq<EmotionView>, b: Seq<EmotionView>)
    ensures
        frames_concat(a + b) == frames_concat(a) + frames_concat(b),
    decreases a.len(),
{
    if a.len() == 0 {
        assert(a + b =~= b);
        assert(frames_concat(a) + frames_concat(b) =~= frames_concat(b));
    } else {
        assert((a + b).skip(1) =~= a.skip(1) + b);
        lemma_frames_concat_append(a.skip(1), b);
        assert(frames_concat(a + b) =~= frames_concat(a) + frames_concat(b));
    }
}

/// The frames of one more emotion extend the concatenation at its end.
pub proof fn lemma_frames_concat_take_step(es: Seq<EmotionView>, k: int)
    requires
        0 <= k < es.len(),
    ensures
        frames_concat(es.take(k + 1)) == frames_concat(es.take(k)) + es[k].frames,
{
    assert(es.take(k + 1) =~= es.take(k) + seq![es[k]]);
    lemma_frames_concat_append(es.take(k), seq![es[k]]);
    assert(seq![es[k]].skip(1) =~= Seq::<EmotionView>::empty());
    assert(frames_concat(Seq::<EmotionView>::empty()) =~= Seq::<(Seq<char>, FrameView)>::empty());
    assert(es[k].frames + Seq::<(Seq<char>, FrameView)>::empty() =~= es[k].frames);
    assert(frames_concat(seq![es[k]]) =~= es[k].frames);
}

impl Emotion {
    pub open spec fn wf(self) -> bool {
        self@.wf()
    }
}

/// Whether all frame names in the list are distinct.
pub fn frame_names_unique(fs: &Vec<(String, EmotionFrame)>) -> (b: bool)
    ensures
        b == (forall|x: int, y: int|
            0 <= x < y < fs@.len() ==> frames_view(fs@)[x].0 != frames_view(fs@)[y].0),
{
    let ghost fv = frames_view(fs@);
    let mut x: usize = 0;
    while x < fs.len()
        invariant
            fv == frames_view(fs@),
            x <= fs@.len(),
            forall|a: int, b: int| 0 <= a < b < fs@.len() && a < x ==> fv[a].0 != fv[b].0,
        decreases fs@.len() - x,
    {
        let mut y: usize = x + 1;
        while y < fs.len()
            invariant
                fv == frames_view(fs@),
                x < fs@.len(),
                x + 1 <= y <= fs@.len(),
                forall|b: int| x < b < y ==> fv[x as int].0 != fv[b].0,
            decreases fs@.len() - y,
        {
            if fs[x].0 == fs[y].0 {
                proof {
                    assert(fv[x as int].0 == fs@[x as int].0@);
                    assert(fv[y as int].0 == fs@[y as int].0@);
                }
                return false;
            }
            proof {
                assert(fv[x as int].0 == fs@[x as int].0@);
                assert(fv[y as int].0 == fs@[y as int].0@);
            }
            y = y + 1;
        }
        x = x + 1;
    }
    true
}

impl CharacterData {
    pub open spec fn wf(self) -> bool {
        self@.wf()
    }

    /// Whether the definition is well-formed: within every emotion no two
    /// frames share a name.
    pub fn check_wf(&self) -> (b: bool)
        ensures
            b == self.wf(),
    {
        let ghost ev = emotions_view(self.emotions@);
        let mut k: usize = 0;
        while k < self.emotions.len()
            invariant
                k <= self.emotions@.len(),
                ev == emotions_view(self.emotions@),
                forall|m: int| 0 <= m < k ==> (#[trigger] ev[m]).wf(),
            decreases self.emotions@.len() - k,
        {
            if !frame_names_unique(&self.emotions[k].frames) {
                proof {
                    assert(ev[k as int] == self.emotions@[k as int]@);
                    let fsv = frames_view(self.emotions@[k as int].frames@);
                    assert(ev[k as int].frames == fsv);
                    let (x, y) = choose|x: int, y: int|
                        0 <= x < y < fsv.len() && fsv[x].0 == fsv[y].0;
                    assert(ev[k as int].frames[x].0 == ev[k as int].frames[y].0);
                    assert(!ev[k as int].wf());
                    assert(self@.emotions[k as int] == ev[k as int]);
                    assert(!self@.wf());
                }
                return false;
            }
            proof {
                assert(ev[k as int] == self.emotions@[k as int]@);
                assert(ev[k as int].wf());
            }
            k = k + 1;
        }
        proof {
            assert(self@.emotions == ev);
            assert(self@.wf());
        }
        true
    }
}

} // verus!
