//! The archive codec: packs a character definition together with its image
//! bytes into one container, and unpacks a container back into a character
//! definition plus its image bytes. Every frame path is reduced to its base
//! file name inside the archive, so the archive is location-independent.

use vstd::prelude::*;
use vstd::utf8::{decode_utf8, encode_utf8, encode_utf8_valid_utf8, encode_utf8_decode_utf8,
    valid_utf8};
use crate::character::{
    CharView, CharacterData, Emotion, EmotionFrame, EmotionView, FrameView, emotions_view,
    frames_view, frames_concat, lemma_frames_concat_append, lemma_frames_concat_take_step,
};
use crate::doc::{enc_doc, parse_doc, encode_document, parse_document, lemma_parse_enc_doc,
    lemma_enc_doc_clean};
use crate::lines::{lines_of, unlines, lemma_lines_unlines, join_lines, split_lines};
use crate::paths::{base_of, valid_base, base_name, joined};
use crate::text::{bytes_to_string, chars_to_string, str_to_chars};
use crate::zipio::{ArchiveReader, ArchiveWriter, EntryError, reader_entries, reader_sound,
    writer_entries, zip_entries_of, zip_wf};

verus! {

/// Why a save or a load failed.
#[derive(Debug)]
pub enum CodecError {
    /// A frame path with no extractable base file name; holds that path.
    InvalidPath(String),
    /// A referenced image file is absent at save time; holds its path.
    ImageMissing(String),
    /// The archive lacks the metadata entry.
    MetadataMissing,
    /// The metadata entry is not a well-formed character document.
    Malformed,
    /// An image entry named by the metadata is absent; holds that name.
    EntryMissing(String),
    /// Two frames resolve to the same base file name, or one resolves to the
    /// metadata entry's name, so the archive cannot hold both; holds that
    /// name.
    BaseNameCollision(String),
    /// The container itself could not be written or read.
    Archive,
}

impl CodecError {
    /// The error as one descriptive line, naming the file or entry concerned.
    pub open spec fn spec_message(self) -> Seq<char> {
        match self {
            CodecError::InvalidPath(p) => "Invalid file path: "@ + p@,
            CodecError::ImageMissing(p) => "Image file not found: "@ + p@,
            CodecError::MetadataMissing => "Character entry not found in archive"@,
            CodecError::Malformed => "Invalid character data in archive"@,
            CodecError::EntryMissing(n) => "Image file not found in archive: "@ + n@,
            CodecError::BaseNameCollision(n) => "Duplicate base file name in archive: "@ + n@,
            CodecError::Archive => "Archive could not be read or written"@,
        }
    }

    /// The error as one descriptive line.
    pub fn message(&self) -> (r: String)
        ensures
            r@ == self.spec_message(),
    {
        match self {
            CodecError::InvalidPath(p) => {
                let mut s = "Invalid file path: ".to_owned();
                s.append(p.as_str());
                s
            },
            CodecError::ImageMissing(p) => {
                let mut s = "Image file not found: ".to_owned();
                s.append(p.as_str());
                s
            },
            CodecError::MetadataMissing => "Character entry not found in archive".to_owned(),
            CodecError::Malformed => "Invalid character data in archive".to_owned(),
            CodecError::EntryMissing(n) => {
                let mut s = "Image file not found in archive: ".to_owned();
                s.append(n.as_str());
                s
            },
            CodecError::BaseNameCollision(n) => {
                let mut s = "Duplicate base file name in archive: ".to_owned();
                s.append(n.as_str());
                s
            },
            CodecError::Archive => "Archive could not be read or written".to_owned(),
        }
    }
}

/// The image files available at save time: path and content, looked up by
/// path, first match first.
pub struct ImageStore {
    pub files: Vec<(String, Vec<u8>)>,
}

impl View for ImageStore {
    type V = Seq<(Seq<char>, Seq<u8>)>;

    open spec fn view(&self) -> Seq<(Seq<char>, Seq<u8>)> {
        self.files@.map_values(|kv: (String, Vec<u8>)| (kv.0@, kv.1@))
    }
}

/// The content stored under the first occurrence of a path.
pub open spec fn lookup(st: Seq<(Seq<char>, Seq<u8>)>, p: Seq<char>) -> Option<Seq<u8>>
    decreases st.len(),
{
    if st.len() == 0 {
        None
    } else if st[0].0 == p {
        Some(st[0].1)
    } else {
        lookup(st.skip(1), p)
    }
}

impl ImageStore {
    /// An empty store.
    pub fn new() -> (st: ImageStore)
        ensures
            st@ =~= Seq::<(Seq<char>, Seq<u8>)>::empty(),
    {
        ImageStore { files: Vec::new() }
    }

    /// Adds one file at the end of the store.
    pub fn add(&mut self, path: String, bytes: Vec<u8>)
        ensures
            final(self)@ == old(self)@.push((path@, bytes@)),
    {
        let ghost before = self@;
        self.files.push((path, bytes));
        proof {
            assert(self@ =~= before.push((self.files@.last().0@, self.files@.last().1@)));
        }
    }

    /// The content stored under a path, if any.
    pub fn get(&self, path: &String) -> (r: Option<&Vec<u8>>)
        ensures
            match r {
                Some(b) => lookup(self@, path@) == Some(b@),
                None => lookup(self@, path@) is None,
            },
    {
        let mut i: usize = 0;
        proof {
            assert(self@.skip(0) =~= self@);
        }
        while i < self.files.len()
            invariant
                i <= self.files@.len(),
                self@.len() == self.files@.len(),
                lookup(self@, path@) == lookup(self@.skip(i as int), path@),
                forall|k: int| 0 <= k < self@.len() ==> (#[trigger] self@[k]) == (
                    self.files@[k].0@,
                    self.files@[k].1@,
                ),
            decreases self.files@.len() - i,
        {
            proof {
                assert(self@.skip(i as int)[0] == self@[i as int]);
            }
            if crate::text::string_eq(&self.files[i].0, path) {
                return Some(&self.files[i].1);
            }
            proof {
                assert(self@.skip(i as int).skip(1) =~= self@.skip(i + 1));
            }
            i = i + 1;
        }
        proof {
            assert(self@.skip(self@.len() as int) =~= Seq::<(Seq<char>, Seq<u8>)>::empty());
        }
        None
    }
}

/// A copy of a byte vector.
pub fn copy_bytes(b: &Vec<u8>) -> (r: Vec<u8>)
    ensures
        r@ == b@,
{
    let mut r: Vec<u8> = Vec::new();
    let mut i: usize = 0;
    while i < b.len()
        invariant
            i <= b@.len(),
            r@ == b@.take(i as int),
        decreases b@.len() - i,
    {
        r.push(b[i]);
        i = i + 1;
        proof {
            assert(r@ =~= b@.take(i as int));
        }
    }
    proof {
        assert(b@.take(b@.len() as int) =~= b@);
    }
    r
}

/// All frames of a character, over all emotions, in order.
pub fn collect_frames(data: &CharacterData) -> (r: Vec<(String, EmotionFrame)>)
    ensures
        frames_view(r@) == data@.all_frames(),
{
    let ghost ev = emotions_view(data.emotions@);
    let mut out: Vec<(String, EmotionFrame)> = Vec::new();
    let mut k: usize = 0;
    proof {
        assert(ev.take(0) =~= Seq::<EmotionView>::empty());
        assert(frames_view(out@) =~= frames_concat(ev.take(0)));
    }
    while k < data.emotions.len()
        invariant
            k <= data.emotions@.len(),
            ev == emotions_view(data.emotions@),
            frames_view(out@) == frames_concat(ev.take(k as int)),
        decreases data.emotions@.len() - k,
    {
        let frames = &data.emotions[k].frames;
        let ghost base = frames_view(out@);
        let mut j: usize = 0;
        while j < frames.len()
            invariant
                j <= frames@.len(),
                frames_view(frames@) == ev[k as int].frames,
                k < ev.len(),
                frames_view(out@) == base + ev[k as int].frames.take(j as int),
            decreases frames@.len() - j,
        {
            let name = frames[j].0.clone();
            let frame = EmotionFrame {
                frame_type: frames[j].1.frame_type.clone(),
                path: frames[j].1.path.clone(),
            };
            let ghost nv = name@;
            let ghost fv2 = frame@;
            let ghost before_out = frames_view(out@);
            proof {
                assert(nv == frames_view(frames@)[j as int].0);
                assert(fv2 =~= frames_view(frames@)[j as int].1);
            }
            out.push((name, frame));
            j = j + 1;
            proof {
                assert(frames_view(out@) =~= before_out.push((nv, fv2)));
                assert(ev[k as int].frames.take(j as int) =~= ev[k as int].frames.take(j - 1).push(
                    ev[k as int].frames[j - 1],
                ));
                assert(frames_view(out@) =~= base + ev[k as int].frames.take(j as int));
            }
        }
        proof {
            assert(ev[k as int].frames.take(frames@.len() as int) =~= ev[k as int].frames);
            lemma_frames_concat_take_step(ev, k as int);
        }
        k = k + 1;
    }
    proof {
        assert(ev.take(ev.len() as int) =~= ev);
    }
    out
}

/// One frame with its path reduced to its base file name.
pub open spec fn strip_frame(kv: (Seq<char>, FrameView)) -> (Seq<char>, FrameView) {
    (kv.0, FrameView { frame_type: kv.1.frame_type, path: base_of(kv.1.path) })
}

/// One emotion with every frame path reduced to its base file name.
pub open spec fn strip_emotion(e: EmotionView) -> EmotionView {
    EmotionView {
        name: e.name,
        frames: e.frames.map_values(|kv: (Seq<char>, FrameView)| strip_frame(kv)),
    }
}

/// The character with every frame path reduced to its base file name.
pub open spec fn strip_view(d: CharView) -> CharView {
    CharView { name: d.name, emotions: d.emotions.map_values(|e: EmotionView| strip_emotion(e)) }
}

/// Every frame path has an extractable base file name.
pub open spec fn all_paths_valid(d: CharView) -> bool {
    forall|i: int|
        0 <= i < d.all_frames().len() ==> valid_base((#[trigger] d.all_frames()[i]).1.path)
}

/// Every frame path is present in the store.
pub open spec fn all_images_present(d: CharView, st: Seq<(Seq<char>, Seq<u8>)>) -> bool {
    forall|i: int|
        0 <= i < d.all_frames().len() ==> lookup(st, (#[trigger] d.all_frames()[i]).1.path)
            is Some
}

/// `p` is the path of some frame of the character.
pub open spec fn is_frame_path(d: CharView, p: Seq<char>) -> bool {
    exists|i: int| 0 <= i < d.all_frames().len() && (#[trigger] d.all_frames()[i]).1.path == p
}

/// No two frames share a base file name.
pub open spec fn distinct_bases(d: CharView) -> bool {
    forall|i: int, j: int|
        0 <= i < j < d.all_frames().len() ==> base_of(d.all_frames()[i].1.path) != base_of(
            d.all_frames()[j].1.path,
        )
}

/// No frame's base file name is the metadata entry's name.
pub open spec fn bases_clear_of_metadata(d: CharView) -> bool {
    forall|i: int|
        0 <= i < d.all_frames().len() ==> base_of((#[trigger] d.all_frames()[i]).1.path)
            != ct_name()
}

/// `p` is a base file name that two frames share, or one that collides with
/// the metadata entry's name.
pub open spec fn is_base_collision(d: CharView, p: Seq<char>) -> bool {
    (exists|i: int, j: int|
        0 <= i < j < d.all_frames().len() && base_of(d.all_frames()[i].1.path) == p && base_of(
            d.all_frames()[j].1.path,
        ) == p) || (p == ct_name() && exists|i: int|
        0 <= i < d.all_frames().len() && base_of((#[trigger] d.all_frames()[i]).1.path) == p)
}

/// Everything handed to the container is within the format's limits: every
/// entry well under the plain-offset size cap and every name's encoding
/// within the header's length field.
pub open spec fn within_format_limits(d: CharView, st: Seq<(Seq<char>, Seq<u8>)>) -> bool {
    &&& metadata_bytes(d).len() < 0x80000000
    &&& forall|i: int|
        0 <= i < d.all_frames().len() ==> encode_utf8(
            base_of((#[trigger] d.all_frames()[i]).1.path),
        ).len() < 65536
    &&& forall|i: int|
        0 <= i < d.all_frames().len() ==> lookup(
            st,
            (#[trigger] d.all_frames()[i]).1.path,
        ).unwrap().len() < 0x80000000
}

/// The metadata entry's name is short and plain.
pub proof fn lemma_ct_name_small()
    ensures
        encode_utf8(ct_name()).len() < 65536,
{
    assert(vstd::utf8::is_ascii_chars(ct_name()));
    vstd::utf8::is_ascii_chars_encode_utf8(ct_name());
}

/// The name of the metadata entry.
pub open spec fn ct_name() -> Seq<char> {
    seq!['c', 'h', 'a', 'r', 'a', 'c', 't', 'e', 'r', '.', 't', 'o', 'm', 'l']
}

/// The bytes of the metadata entry: the document of the stripped character,
/// UTF-8 encoded.
pub open spec fn metadata_bytes(d: CharView) -> Seq<u8> {
    encode_utf8(unlines(enc_doc(strip_view(d))))
}

/// The archive entries after writing one image entry per frame, in order,
/// over the starting entries `m0`.
pub open spec fn image_entries(
    m0: Map<Seq<char>, Seq<u8>>,
    frames: Seq<(Seq<char>, FrameView)>,
    st: Seq<(Seq<char>, Seq<u8>)>,
) -> Map<Seq<char>, Seq<u8>>
    decreases frames.len(),
{
    if frames.len() == 0 {
        m0
    } else {
        image_entries(
            m0.insert(
                base_of(frames[0].1.path),
                match lookup(st, frames[0].1.path) {
                    Some(b) => b,
                    None => Seq::empty(),
                },
            ),
            frames.skip(1),
            st,
        )
    }
}

/// The entries of a saved archive: the metadata entry, then one image entry
/// per frame under its base file name.
pub open spec fn save_entries(d: CharView, st: Seq<(Seq<char>, Seq<u8>)>) -> Map<
    Seq<char>,
    Seq<u8>,
> {
    image_entries(
        Map::<Seq<char>, Seq<u8>>::empty().insert(ct_name(), metadata_bytes(d)),
        d.all_frames(),
        st,
    )
}

/// The frame at position `j` of emotion `k` stands in the character's frame
/// concatenation.
pub proof fn lemma_frames_concat_index(es: Seq<EmotionView>, k: int, j: int)
    requires
        0 <= k < es.len(),
        0 <= j < es[k].frames.len(),
    ensures
        0 <= frames_concat(es.take(k)).len() + j < frames_concat(es).len(),
        frames_concat(es)[frames_concat(es.take(k)).len() + j] == es[k].frames[j],
{
    lemma_frames_concat_take_step(es, k);
    assert(es =~= es.take(k + 1) + es.skip(k + 1));
    lemma_frames_concat_append(es.take(k + 1), es.skip(k + 1));
}

/// Stripping paths keeps the frame names, so a well-formed character stays
/// well-formed.
pub proof fn lemma_strip_wf(d: CharView)
    requires
        d.wf(),
    ensures
        strip_view(d).wf(),
{
    let s = strip_view(d);
    assert forall|k: int| 0 <= k < s.emotions.len() implies (#[trigger] s.emotions[k]).wf() by {
        assert(d.emotions[k].wf());
        assert forall|i: int, j: int|
            0 <= i < j < s.emotions[k].frames.len() implies s.emotions[k].frames[i].0
            != s.emotions[k].frames[j].0 by {
            assert(s.emotions[k].frames[i].0 == d.emotions[k].frames[i].0);
            assert(s.emotions[k].frames[j].0 == d.emotions[k].frames[j].0);
        }
    }
}

/// The character with every frame path reduced to its base file name.
fn strip_character(data: &CharacterData) -> (r: CharacterData)
    requires
        all_paths_valid(data@),
    ensures
        r@ == strip_view(data@),
{
    let ghost ev = emotions_view(data.emotions@);
    let ghost target = ev.map_values(|e: EmotionView| strip_emotion(e));
    let mut new_emotions: Vec<Emotion> = Vec::new();
    let mut k: usize = 0;
    while k < data.emotions.len()
        invariant
            k <= data.emotions@.len(),
            ev == emotions_view(data.emotions@),
            target == ev.map_values(|e: EmotionView| strip_emotion(e)),
            all_paths_valid(data@),
            emotions_view(new_emotions@) == target.take(k as int),
        decreases data.emotions@.len() - k,
    {
        let frames = &data.emotions[k].frames;
        let mut new_frames: Vec<(String, EmotionFrame)> = Vec::new();
        let ghost ftarget = ev[k as int].frames.map_values(
            |kv: (Seq<char>, FrameView)| strip_frame(kv),
        );
        let mut j: usize = 0;
        while j < frames.len()
            invariant
                j <= frames@.len(),
                k < ev.len(),
                ev == emotions_view(data.emotions@),
                frames_view(frames@) == ev[k as int].frames,
                ftarget == ev[k as int].frames.map_values(
                    |kv: (Seq<char>, FrameView)| strip_frame(kv),
                ),
                all_paths_valid(data@),
                frames_view(new_frames@) == ftarget.take(j as int),
            decreases frames@.len() - j,
        {
            let base = match base_name(&frames[j].1.path) {
                Some(b) => b,
                None => {
                    // unreachable: every frame path was shown valid above
                    proof {
                        lemma_frames_concat_index(ev, k as int, j as int);
                        let idx = frames_concat(ev.take(k as int)).len() + j as int;
                        assert(data@.emotions == ev);
                        assert(data@.all_frames()[idx] == ev[k as int].frames[j as int]);
                        assert(valid_base(data@.all_frames()[idx].1.path));
                        assert(ev[k as int].frames[j as int].1.path == frames@[j as int].1.path@);
                        assert(false);
                    }
                    return CharacterData { name: String::new(), emotions: Vec::new() };
                },
            };
            let name = frames[j].0.clone();
            let frame = EmotionFrame { frame_type: frames[j].1.frame_type.clone(), path: base };
            let ghost nv = name@;
            let ghost fv2 = frame@;
            let ghost before = frames_view(new_frames@);
            proof {
                assert(fv2 =~= strip_frame(ev[k as int].frames[j as int]).1);
                assert(nv == strip_frame(ev[k as int].frames[j as int]).0);
            }
            new_frames.push((name, frame));
            j = j + 1;
            proof {
                assert(frames_view(new_frames@) =~= before.push((nv, fv2)));
                assert(ftarget.take(j as int) =~= ftarget.take(j - 1).push(ftarget[j - 1]));
            }
        }
        let ename = data.emotions[k].name.clone();
        let ghost env = ename@;
        let emotion = Emotion { name: ename, frames: new_frames };
        let ghost emv = emotion@;
        proof {
            assert(ftarget.take(frames@.len() as int) =~= ftarget);
            assert(emv =~= strip_emotion(ev[k as int]));
        }
        let ghost before_e = emotions_view(new_emotions@);
        new_emotions.push(emotion);
        k = k + 1;
        proof {
            assert(emotions_view(new_emotions@) =~= before_e.push(emv));
            assert(target.take(k as int) =~= target.take(k - 1).push(target[k - 1]));
        }
    }
    let name = data.name.clone();
    let r = CharacterData { name, emotions: new_emotions };
    proof {
        assert(target.take(target.len() as int) =~= target);
        assert(r@ =~= strip_view(data@));
    }
    r
}

/// The character with every frame path set below the given directory.
pub open spec fn prefix_frame(dir: Seq<char>, kv: (Seq<char>, FrameView)) -> (Seq<char>, FrameView) {
    (kv.0, FrameView { frame_type: kv.1.frame_type, path: joined(dir, kv.1.path) })
}

pub open spec fn prefix_emotion(dir: Seq<char>, e: EmotionView) -> EmotionView {
    EmotionView {
        name: e.name,
        frames: e.frames.map_values(|kv: (Seq<char>, FrameView)| prefix_frame(dir, kv)),
    }
}

pub open spec fn prefix_view(d: CharView, dir: Seq<char>) -> CharView {
    CharView {
        name: d.name,
        emotions: d.emotions.map_values(|e: EmotionView| prefix_emotion(dir, e)),
    }
}

/// The character with every frame path rewritten to stand below `dir`, as
/// the load operation leaves extracted images there.
pub fn prefix_paths(data: &CharacterData, dir: &String) -> (r: CharacterData)
    ensures
        r@ == prefix_view(data@, dir@),
{
    let ghost ev = emotions_view(data.emotions@);
    let ghost target = ev.map_values(|e: EmotionView| prefix_emotion(dir@, e));
    let mut new_emotions: Vec<Emotion> = Vec::new();
    let mut k: usize = 0;
    while k < data.emotions.len()
        invariant
            k <= data.emotions@.len(),
            ev == emotions_view(data.emotions@),
            target == ev.map_values(|e: EmotionView| prefix_emotion(dir@, e)),
            emotions_view(new_emotions@) == target.take(k as int),
        decreases data.emotions@.len() - k,
    {
        let frames = &data.emotions[k].frames;
        let mut new_frames: Vec<(String, EmotionFrame)> = Vec::new();
        let ghost ftarget = ev[k as int].frames.map_values(
            |kv: (Seq<char>, FrameView)| prefix_frame(dir@, kv),
        );
        let mut j: usize = 0;
        while j < frames.len()
            invariant
                j <= frames@.len(),
                k < ev.len(),
                ev == emotions_view(data.emotions@),
                frames_view(frames@) == ev[k as int].frames,
                ftarget == ev[k as int].frames.map_values(
                    |kv: (Seq<char>, FrameView)| prefix_frame(dir@, kv),
                ),
                frames_view(new_frames@) == ftarget.take(j as int),
            decreases frames@.len() - j,
        {
            let new_path = crate::paths::join_path(dir, &frames[j].1.path);
            let name = frames[j].0.clone();
            let frame = EmotionFrame { frame_type: frames[j].1.frame_type.clone(), path: new_path };
            let ghost nv = name@;
            let ghost fv2 = frame@;
            let ghost before = frames_view(new_frames@);
            proof {
                assert(fv2 =~= prefix_frame(dir@, ev[k as int].frames[j as int]).1);
                assert(nv == prefix_frame(dir@, ev[k as int].frames[j as int]).0);
            }
            new_frames.push((name, frame));
            j = j + 1;
            proof {
                assert(frames_view(new_frames@) =~= before.push((nv, fv2)));
                assert(ftarget.take(j as int) =~= ftarget.take(j - 1).push(ftarget[j - 1]));
            }
        }
        let ename = data.emotions[k].name.clone();
        let emotion = Emotion { name: ename, frames: new_frames };
        let ghost emv = emotion@;
        proof {
            assert(ftarget.take(frames@.len() as int) =~= ftarget);
            assert(emv =~= prefix_emotion(dir@, ev[k as int]));
        }
        let ghost before_e = emotions_view(new_emotions@);
        new_emotions.push(emotion);
        k = k + 1;
        proof {
            assert(emotions_view(new_emotions@) =~= before_e.push(emv));
            assert(target.take(k as int) =~= target.take(k - 1).push(target[k - 1]));
        }
    }
    let name = data.name.clone();
    let r = CharacterData { name, emotions: new_emotions };
    proof {
        assert(target.take(target.len() as int) =~= target);
        assert(r@ =~= prefix_view(data@, dir@));
    }
    r
}

/// Packs a character definition and its images into one archive. Fails with
/// an error naming an invalid frame path if one has no base file name; with
/// an error naming a colliding base file name if two frames share one (or
/// one takes the metadata entry's name), since the container holds one entry
/// per name; with an error naming a missing image if a frame path is absent
/// from the store; or with a container error if the container itself cannot
/// be written. When nothing of that is wrong and the entries are within the
/// container format's limits, the save succeeds, and the archive holds
/// exactly the metadata entry and one image entry per frame under its base
/// file name.
#[verifier::rlimit(100)]
#[verifier::spinoff_prover]
pub fn build_archive(data: &CharacterData, images: &ImageStore) -> (r: Result<Vec<u8>, CodecError>)
    requires
        data.wf(),
    ensures
        match r {
            Ok(bytes) => zip_entries_of(bytes@) == save_entries(data@, images@) && zip_wf(bytes@)
                && all_paths_valid(data@) && all_images_present(data@, images@) && distinct_bases(
                data@,
            ) && bases_clear_of_metadata(data@),
            Err(e) => match e {
                CodecError::InvalidPath(p) => !valid_base(p@) && is_frame_path(data@, p@),
                CodecError::BaseNameCollision(p) => all_paths_valid(data@) && is_base_collision(
                    data@,
                    p@,
                ),
                CodecError::ImageMissing(p) => all_paths_valid(data@) && distinct_bases(data@)
                    && bases_clear_of_metadata(data@) && is_frame_path(data@, p@) && lookup(
                    images@,
                    p@,
                ) is None,
                CodecError::Archive => !within_format_limits(data@, images@),
                _ => false,
            },
        },
        !all_paths_valid(data@) ==> (r matches Err(CodecError::InvalidPath(_))),
        all_paths_valid(data@) && !(distinct_bases(data@) && bases_clear_of_metadata(data@)) ==> (r
            matches Err(CodecError::BaseNameCollision(_))),
        all_paths_valid(data@) && distinct_bases(data@) && bases_clear_of_metadata(data@)
            && !all_images_present(data@, images@) ==> (r matches Err(CodecError::ImageMissing(_))),
        all_paths_valid(data@) && distinct_bases(data@) && bases_clear_of_metadata(data@)
            && all_images_present(data@, images@) && within_format_limits(data@, images@) ==> r
            is Ok,
{
    let frames = collect_frames(data);
    let ghost af = data@.all_frames();
    let n = frames.len();
    let mut bases: Vec<String> = Vec::new();
    let mut i: usize = 0;
    while i < n
        invariant
            n == frames@.len(),
            frames_view(frames@) == af,
            af == data@.all_frames(),
            i <= n,
            bases@.len() == i,
            forall|m: int|
                0 <= m < i ==> valid_base((#[trigger] af[m]).1.path) && bases@[m]@ == base_of(
                    af[m].1.path,
                ),
        decreases n - i,
    {
        proof {
            assert(af[i as int] == (frames@[i as int].0@, frames@[i as int].1@));
        }
        match base_name(&frames[i].1.path) {
            Some(b) => {
                bases.push(b);
            },
            None => {
                return Err(CodecError::InvalidPath(frames[i].1.path.clone()));
            },
        }
        i = i + 1;
    }
    proof {
        assert(all_paths_valid(data@));
    }
    let metadata_name = "character.toml".to_owned();
    proof {
        reveal_strlit("character.toml");
        assert(metadata_name@ =~= ct_name());
    }
    let mut i: usize = 0;
    while i < n
        invariant
            n == frames@.len(),
            af == data@.all_frames(),
            af.len() == n,
            i <= n,
            bases@.len() == n,
            metadata_name@ == ct_name(),
            all_paths_valid(data@),
            forall|m: int|
                0 <= m < n ==> valid_base((#[trigger] af[m]).1.path) && bases@[m]@ == base_of(
                    af[m].1.path,
                ),
            forall|a: int, b: int|
                0 <= a < b < n && a < i ==> base_of(af[a].1.path) != base_of(af[b].1.path),
            forall|a: int| 0 <= a < i ==> base_of((#[trigger] af[a]).1.path) != ct_name(),
        decreases n - i,
    {
        if crate::text::string_eq(&bases[i], &metadata_name) {
            proof {
                assert(bases@[i as int]@ == base_of(af[i as int].1.path));
                assert(base_of((data@.all_frames()[i as int]).1.path) == ct_name());
                assert(is_base_collision(data@, bases@[i as int]@));
            }
            return Err(CodecError::BaseNameCollision(bases[i].clone()));
        }
        let mut j: usize = i + 1;
        while j < n
            invariant
                n == frames@.len(),
                af == data@.all_frames(),
                af.len() == n,
                i < n,
                i + 1 <= j <= n,
                bases@.len() == n,
                forall|m: int|
                    0 <= m < n ==> valid_base((#[trigger] af[m]).1.path) && bases@[m]@ == base_of(
                        af[m].1.path,
                    ),
                forall|b: int| i < b < j ==> base_of(af[i as int].1.path) != base_of(af[b].1.path),
                all_paths_valid(data@),
            decreases n - j,
        {
            if crate::text::string_eq(&bases[i], &bases[j]) {
                proof {
                    assert(bases@[i as int]@ == base_of(af[i as int].1.path));
                    assert(bases@[j as int]@ == base_of(af[j as int].1.path));
                    assert(base_of((data@.all_frames()[i as int]).1.path) == bases@[i as int]@
                        && base_of((data@.all_frames()[j as int]).1.path) == bases@[i as int]@);
                    assert(is_base_collision(data@, bases@[i as int]@));
                }
                return Err(CodecError::BaseNameCollision(bases[i].clone()));
            }
            j = j + 1;
        }
        i = i + 1;
    }
    proof {
        assert(distinct_bases(data@));
        assert(bases_clear_of_metadata(data@));
    }
    let mut contents: Vec<Vec<u8>> = Vec::new();
    let mut i: usize = 0;
    while i < n
        invariant
            n == frames@.len(),
            frames_view(frames@) == af,
            af == data@.all_frames(),
            i <= n,
            contents@.len() == i,
            all_paths_valid(data@),
            distinct_bases(data@),
            bases_clear_of_metadata(data@),
            forall|m: int|
                0 <= m < i ==> lookup(images@, (#[trigger] af[m]).1.path) == Some(
                    contents@[m]@,
                ),
        decreases n - i,
    {
        proof {
            assert(af[i as int] == (frames@[i as int].0@, frames@[i as int].1@));
        }
        match images.get(&frames[i].1.path) {
            Some(b) => {
                contents.push(copy_bytes(b));
            },
            None => {
                return Err(CodecError::ImageMissing(frames[i].1.path.clone()));
            },
        }
        i = i + 1;
    }
    proof {
        assert(all_images_present(data@, images@));
    }
    let stripped = strip_character(data);
    let doc_lines = encode_document(&stripped);
    let chars = join_lines(&doc_lines);
    let text = chars_to_string(&chars);
    let mut w = ArchiveWriter::new();
    let meta = text.as_str().as_bytes();
    proof {
        assert(meta@ == metadata_bytes(data@));
    }
    match w.add_entry(metadata_name.as_str(), meta) {
        Ok(_) => {},
        Err(_) => {
            proof {
                lemma_ct_name_small();
                assert(!within_format_limits(data@, images@));
            }
            return Err(CodecError::Archive);
        },
    }
    let ghost m0 = Map::<Seq<char>, Seq<u8>>::empty().insert(ct_name(), metadata_bytes(data@));
    proof {
        assert(writer_entries(w) =~= m0);
        assert(af.skip(0) =~= af);
    }
    let mut i: usize = 0;
    while i < n
        invariant
            n == frames@.len(),
            af == data@.all_frames(),
            af.len() == n,
            i <= n,
            bases@.len() == n,
            contents@.len() == n,
            all_paths_valid(data@),
            distinct_bases(data@),
            bases_clear_of_metadata(data@),
            all_images_present(data@, images@),
            forall|m: int|
                0 <= m < n ==> valid_base((#[trigger] af[m]).1.path) && bases@[m]@ == base_of(
                    af[m].1.path,
                ),
            forall|m: int|
                0 <= m < n ==> lookup(images@, (#[trigger] af[m]).1.path) == Some(
                    contents@[m]@,
                ),
            writer_entries(w).contains_key(ct_name()),
            writer_entries(w)[ct_name()] == metadata_bytes(data@),
            forall|m: int|
                0 <= m < i ==> writer_entries(w).contains_key(
                    base_of((#[trigger] af[m]).1.path),
                ) && writer_entries(w)[base_of(af[m].1.path)] == contents@[m]@,
            forall|k: Seq<char>|
                #[trigger] writer_entries(w).contains_key(k) ==> k == ct_name() || exists|m: int|
                    0 <= m < i && base_of((#[trigger] af[m]).1.path) == k,
            image_entries(writer_entries(w), af.skip(i as int), images@) == save_entries(
                data@,
                images@,
            ),
        decreases n - i,
    {
        let ghost before = writer_entries(w);
        proof {
            assert(!before.contains_key(bases@[i as int]@)) by {
                if before.contains_key(base_of(af[i as int].1.path)) {
                    assert(base_of(af[i as int].1.path) != ct_name());
                    let m = choose|m: int|
                        0 <= m < i && base_of((#[trigger] af[m]).1.path) == base_of(
                            af[i as int].1.path,
                        );
                    assert(base_of(af[m].1.path) != base_of(af[i as int].1.path));
                }
            }
        }
        match w.add_entry(bases[i].as_str(), contents[i].as_slice()) {
            Ok(_) => {},
            Err(_) => {
                proof {
                    assert(!within_format_limits(data@, images@)) by {
                        if within_format_limits(data@, images@) {
                            assert(encode_utf8(base_of(af[i as int].1.path)).len() < 65536);
                            assert(lookup(images@, af[i as int].1.path) == Some(
                                contents@[i as int]@,
                            ));
                            assert(contents@[i as int]@.len() < 0x80000000);
                            assert forall|k: Seq<char>| #[trigger]
                                before.contains_key(k) implies before[k].len() < 0x80000000 by {
                                if k != ct_name() {
                                    let m = choose|m: int|
                                        0 <= m < i && base_of((#[trigger] af[m]).1.path) == k;
                                    assert(before[k] == contents@[m]@);
                                    assert(lookup(images@, af[m].1.path) == Some(contents@[m]@));
                                }
                            }
                            assert(false);
                        }
                    }
                }
                return Err(CodecError::Archive);
            },
        }
        proof {
            assert(af.skip(i as int)[0] == af[i as int]);
            assert(af.skip(i as int).skip(1) =~= af.skip(i + 1));
            assert(writer_entries(w) == before.insert(
                base_of(af[i as int].1.path),
                contents@[i as int]@,
            ));
            assert(image_entries(before, af.skip(i as int), images@) == image_entries(
                writer_entries(w),
                af.skip(i + 1),
                images@,
            ));
            assert forall|k: Seq<char>| #[trigger]
                writer_entries(w).contains_key(k) implies k == ct_name() || exists|m: int|
                0 <= m < i + 1 && base_of((#[trigger] af[m]).1.path) == k by {
                if k == base_of(af[i as int].1.path) {
                    assert(0 <= (i as int) && (i as int) < i + 1 && base_of(af[i as int].1.path) == k);
                } else {
                    assert(before.contains_key(k));
                }
            }
        }
        i = i + 1;
    }
    proof {
        assert(af.skip(n as int) =~= Seq::<(Seq<char>, FrameView)>::empty());
    }
    match w.finish() {
        Ok(bytes) => Ok(bytes),
        Err(_) => {
            proof {
                assert(!within_format_limits(data@, images@)) by {
                    if within_format_limits(data@, images@) {
                        assert forall|k: Seq<char>| #[trigger]
                            writer_entries(w).contains_key(k) implies writer_entries(w)[k].len()
                            < 0x80000000 && encode_utf8(k).len() < 65536 by {
                            if k == ct_name() {
                                lemma_ct_name_small();
                            } else {
                                let m = choose|m: int|
                                    0 <= m < n && base_of((#[trigger] af[m]).1.path) == k;
                                assert(writer_entries(w)[k] == contents@[m]@);
                                assert(lookup(images@, af[m].1.path) == Some(contents@[m]@));
                            }
                        }
                        assert(false);
                    }
                }
            }
            Err(CodecError::Archive)
        },
    }
}

/// A character definition loaded back from an archive, with the raw bytes of
/// each image: one per frame, in frame order, named by the frame's base file
/// name, to which the frame's path is also rewritten.
pub struct LoadedCharacter {
    pub data: CharacterData,
    pub images: Vec<(String, Vec<u8>)>,
}

/// The character a metadata entry's bytes encode: the parse of their decoded
/// text, or `None` for bytes that are not text or not a well-formed
/// document.
pub open spec fn metadata_character(e: Seq<u8>) -> Option<CharView> {
    if valid_utf8(e) {
        parse_doc(lines_of(decode_utf8(e)))
    } else {
        None
    }
}

/// Stripping the emotions commutes with concatenating their frames.
pub proof fn lemma_strip_frames_concat(es: Seq<EmotionView>)
    ensures
        frames_concat(es.map_values(|e: EmotionView| strip_emotion(e))) == frames_concat(
            es,
        ).map_values(|kv: (Seq<char>, FrameView)| strip_frame(kv)),
    decreases es.len(),
{
    let f = |e: EmotionView| strip_emotion(e);
    let g = |kv: (Seq<char>, FrameView)| strip_frame(kv);
    if es.len() == 0 {
        assert(es.map_values(f).len() == 0);
        assert(frames_concat(es.map_values(f)) =~= frames_concat(es).map_values(g));
    } else {
        lemma_strip_frames_concat(es.skip(1));
        assert(es.map_values(f).skip(1) =~= es.skip(1).map_values(f));
        assert(es.map_values(f)[0] == strip_emotion(es[0]));
        assert(frames_concat(es.map_values(f)) =~= frames_concat(es).map_values(g));
    }
}

/// The frames of a stripped character are the stripped frames, in order.
pub proof fn lemma_strip_all_frames(d: CharView)
    ensures
        strip_view(d).all_frames() == d.all_frames().map_values(
            |kv: (Seq<char>, FrameView)| strip_frame(kv),
        ),
{
    lemma_strip_frames_concat(d.emotions);
}

/// Unpacks an archive. Fails with a distinct error if the metadata entry is
/// absent, if it is not a well-formed character document, if a stored frame
/// path has no base file name, or if a frame's image entry is absent; a
/// container that cannot be read is a container error, and never arises on a
/// container the writer produced. On success the character is exactly the
/// one the metadata encodes, with every frame path reduced to its base file
/// name, and every image holds the bytes of its archive entry.
#[verifier::rlimit(100)]
#[verifier::spinoff_prover]
pub fn decode_archive(bytes: &Vec<u8>) -> (r: Result<LoadedCharacter, CodecError>)
    ensures
        ({
            let entries = zip_entries_of(bytes@);
            let mc = metadata_character(entries[ct_name()]);
            match r {
                Ok(lc) => {
                    &&& entries.contains_key(ct_name())
                    &&& mc is Some
                    &&& lc.data@ == strip_view(mc.unwrap())
                    &&& lc.data.wf()
                    &&& lc.images@.len() == lc.data@.all_frames().len()
                    &&& forall|m: int|
                        0 <= m < lc.images@.len() ==> (#[trigger] lc.images@[m]).0@
                            == lc.data@.all_frames()[m].1.path && entries.contains_key(
                            lc.data@.all_frames()[m].1.path,
                        ) && lc.images@[m].1@ == entries[lc.data@.all_frames()[m].1.path]
                },
                Err(e) => match e {
                    CodecError::MetadataMissing => !entries.contains_key(ct_name()),
                    CodecError::Malformed => entries.contains_key(ct_name()) && mc is None,
                    CodecError::InvalidPath(p) => entries.contains_key(ct_name()) && mc is Some
                        && !valid_base(p@) && is_frame_path(mc.unwrap(), p@),
                    CodecError::EntryMissing(nm) => entries.contains_key(ct_name()) && mc is Some
                        && !entries.contains_key(nm@) && (exists|i: int|
                        0 <= i < mc.unwrap().all_frames().len() && base_of(
                            (#[trigger] mc.unwrap().all_frames()[i]).1.path,
                        ) == nm@),
                    CodecError::Archive => true,
                    _ => false,
                },
            }
        }),
        zip_wf(bytes@) ==> !(r matches Err(CodecError::Archive)),
{
    let ghost entries = zip_entries_of(bytes@);
    let mut reader = match ArchiveReader::open(bytes.as_slice()) {
        Ok(a) => a,
        Err(_) => {
            return Err(CodecError::Archive);
        },
    };
    proof {
        reveal_strlit("character.toml");
        assert("character.toml"@ =~= ct_name());
    }
    let meta = match reader.read_entry("character.toml") {
        Ok(b) => b,
        Err(EntryError::NotFound) => {
            return Err(CodecError::MetadataMissing);
        },
        Err(EntryError::ReadFailed) => {
            proof {
                if zip_wf(bytes@) {
                    assert(reader_sound(reader));
                    assert(false);
                }
            }
            return Err(CodecError::Archive);
        },
    };
    let text = match bytes_to_string(&meta) {
        Some(s) => s,
        None => {
            return Err(CodecError::Malformed);
        },
    };
    proof {
        encode_utf8_valid_utf8(text@);
        encode_utf8_decode_utf8(text@);
    }
    let chars = str_to_chars(text.as_str());
    let doc_lines = split_lines(&chars);
    let data = match parse_document(&doc_lines) {
        Some(d) => d,
        None => {
            return Err(CodecError::Malformed);
        },
    };
    proof {
        assert(metadata_character(entries[ct_name()]) == Some(data@));
    }
    let frames = collect_frames(&data);
    let ghost af = data@.all_frames();
    let n = frames.len();
    let mut images: Vec<(String, Vec<u8>)> = Vec::new();
    let mut i: usize = 0;
    while i < n
        invariant
            n == frames@.len(),
            frames_view(frames@) == af,
            af == data@.all_frames(),
            af.len() == n,
            data.wf(),
            reader_entries(reader) == entries,
            entries == zip_entries_of(bytes@),
            entries.contains_key(ct_name()),
            metadata_character(entries[ct_name()]) == Some(data@),
            zip_wf(bytes@) ==> reader_sound(reader),
            i <= n,
            images@.len() == i,
            forall|m: int|
                0 <= m < i ==> valid_base((#[trigger] af[m]).1.path) && images@[m].0@ == base_of(
                    af[m].1.path,
                ) && entries.contains_key(base_of(af[m].1.path)) && images@[m].1@ == entries[
                base_of(af[m].1.path)],
        decreases n - i,
    {
        proof {
            assert(af[i as int] == (frames@[i as int].0@, frames@[i as int].1@));
        }
        let base = match base_name(&frames[i].1.path) {
            Some(b) => b,
            None => {
                proof {
                    assert(is_frame_path(data@, frames@[i as int].1.path@)) by {
                        assert(0 <= (i as int) && (i as int) < data@.all_frames().len()
                            && (data@.all_frames()[i as int]).1.path == frames@[i as int].1.path@);
                    }
                }
                return Err(CodecError::InvalidPath(frames[i].1.path.clone()));
            },
        };
        let content = match reader.read_entry(base.as_str()) {
            Ok(b) => b,
            Err(EntryError::NotFound) => {
                proof {
                    let mc = metadata_character(entries[ct_name()]);
                    assert(mc.unwrap() == data@);
                    assert(exists|m: int|
                        0 <= m < mc.unwrap().all_frames().len() && base_of(
                            (#[trigger] mc.unwrap().all_frames()[m]).1.path,
                        ) == base@) by {
                        assert(0 <= (i as int) && (i as int) < mc.unwrap().all_frames().len()
                            && base_of((mc.unwrap().all_frames()[i as int]).1.path) == base@);
                    }
                }
                return Err(CodecError::EntryMissing(base));
            },
            Err(EntryError::ReadFailed) => {
                proof {
                    if zip_wf(bytes@) {
                        assert(reader_sound(reader));
                        assert(false);
                    }
                }
                return Err(CodecError::Archive);
            },
        };
        let ghost nv = base@;
        let ghost cv = content@;
        let ghost before = images@;
        proof {
            assert(valid_base(af[i as int].1.path));
            assert(nv == base_of(af[i as int].1.path));
            assert(entries.contains_key(nv) && cv == entries[nv]);
        }
        images.push((base, content));
        i = i + 1;
        proof {
            assert(images@ =~= before.push((images@.last().0, images@.last().1)));
            assert(images@[i - 1].0@ == nv && images@[i - 1].1@ == cv);
        }
    }
    proof {
        assert(all_paths_valid(data@));
    }
    let out = strip_character(&data);
    proof {
        lemma_strip_wf(data@);
        lemma_strip_all_frames(data@);
        assert(out@.all_frames().len() == af.len());
        assert forall|m: int|
            0 <= m < images@.len() implies (#[trigger] images@[m]).0@
            == out@.all_frames()[m].1.path && entries.contains_key(out@.all_frames()[m].1.path)
            && images@[m].1@ == entries[out@.all_frames()[m].1.path] by {
            assert(out@.all_frames()[m] == strip_frame(af[m]));
        }
    }
    Ok(LoadedCharacter { data: out, images })
}

/// Some frame of `fs` has the base file name `k`.
pub open spec fn has_base(fs: Seq<(Seq<char>, FrameView)>, k: Seq<char>) -> bool {
    exists|i: int| 0 <= i < fs.len() && base_of((#[trigger] fs[i]).1.path) == k
}

/// What the image-entry fold does to the entry map, when every image is
/// present and no two frames share a base file name: names not written stay
/// as they were, and each frame's base name maps to its image bytes.
pub proof fn lemma_image_entries_props(
    m0: Map<Seq<char>, Seq<u8>>,
    fs: Seq<(Seq<char>, FrameView)>,
    st: Seq<(Seq<char>, Seq<u8>)>,
)
    requires
        forall|i: int, j: int|
            0 <= i < j < fs.len() ==> base_of(fs[i].1.path) != base_of(fs[j].1.path),
        forall|i: int| 0 <= i < fs.len() ==> lookup(st, (#[trigger] fs[i]).1.path) is Some,
    ensures
        forall|k: Seq<char>|
            !has_base(fs, k) ==> (#[trigger] image_entries(m0, fs, st).contains_key(k))
                == m0.contains_key(k) && (m0.contains_key(k) ==> image_entries(m0, fs, st)[k]
                == m0[k]),
        forall|i: int|
            0 <= i < fs.len() ==> image_entries(m0, fs, st).contains_key(
                base_of((#[trigger] fs[i]).1.path),
            ) && image_entries(m0, fs, st)[base_of(fs[i].1.path)] == lookup(
                st,
                fs[i].1.path,
            ).unwrap(),
    decreases fs.len(),
{
    if fs.len() > 0 {
        let b0 = base_of(fs[0].1.path);
        let c0 = lookup(st, fs[0].1.path).unwrap();
        let m1 = m0.insert(b0, c0);
        let rest = fs.skip(1);
        assert(forall|i: int| 0 <= i < rest.len() ==> rest[i] == fs[i + 1]);
        lemma_image_entries_props(m1, rest, st);
        assert(image_entries(m0, fs, st) == image_entries(m1, rest, st));
        assert(!has_base(rest, b0)) by {
            if has_base(rest, b0) {
                let i = choose|i: int| 0 <= i < rest.len() && base_of(rest[i].1.path) == b0;
                assert(base_of(fs[0].1.path) != base_of(fs[i + 1].1.path));
            }
        }
        assert forall|k: Seq<char>|
            !has_base(fs, k) implies (#[trigger] image_entries(m0, fs, st).contains_key(k))
            == m0.contains_key(k) && (m0.contains_key(k) ==> image_entries(m0, fs, st)[k]
            == m0[k]) by {
            assert(base_of(fs[0].1.path) != k);
            assert(!has_base(rest, k)) by {
                if has_base(rest, k) {
                    let i = choose|i: int| 0 <= i < rest.len() && base_of(rest[i].1.path) == k;
                    assert(base_of(fs[i + 1].1.path) == k);
                }
            }
            assert(m1.contains_key(k) == m0.contains_key(k));
        }
        assert forall|i: int|
            0 <= i < fs.len() implies image_entries(m0, fs, st).contains_key(
            base_of((#[trigger] fs[i]).1.path),
        ) && image_entries(m0, fs, st)[base_of(fs[i].1.path)] == lookup(
            st,
            fs[i].1.path,
        ).unwrap() by {
            if i == 0 {
                assert(m1.contains_key(b0) && m1[b0] == c0);
            } else {
                assert(fs[i] == rest[i - 1]);
            }
        }
    }
}

/// Round trip of a saved archive, at the entry level: the archive written
/// for a well-formed character holds the metadata entry, whose text parses
/// back to exactly the character in its stripped form, and one entry per
/// frame holding exactly that frame's image bytes. This holds whenever no
/// two frames share a base file name and none is named like the metadata
/// entry; with such a collision the later entry is the one that could not be
/// written beside the earlier.
#[verifier::rlimit(50)]
pub proof fn lemma_archive_round_trip(d: CharView, st: Seq<(Seq<char>, Seq<u8>)>)
    requires
        d.wf(),
        all_images_present(d, st),
        forall|i: int, j: int|
            0 <= i < j < d.all_frames().len() ==> base_of(d.all_frames()[i].1.path) != base_of(
                d.all_frames()[j].1.path,
            ),
        forall|i: int|
            0 <= i < d.all_frames().len() ==> base_of((#[trigger] d.all_frames()[i]).1.path)
                != ct_name(),
    ensures
        save_entries(d, st).contains_key(ct_name()),
        save_entries(d, st)[ct_name()] == metadata_bytes(d),
        metadata_character(save_entries(d, st)[ct_name()]) == Some(strip_view(d)),
        forall|text: Seq<char>|
            #[trigger] encode_utf8(text) == save_entries(d, st)[ct_name()] ==> parse_doc(
                lines_of(text),
            ) == Some(strip_view(d)),
        forall|i: int|
            0 <= i < d.all_frames().len() ==> save_entries(d, st).contains_key(
                base_of((#[trigger] d.all_frames()[i]).1.path),
            ) && save_entries(d, st)[base_of(d.all_frames()[i].1.path)] == lookup(
                st,
                d.all_frames()[i].1.path,
            ).unwrap(),
{
    let m0 = Map::<Seq<char>, Seq<u8>>::empty().insert(ct_name(), metadata_bytes(d));
    lemma_image_entries_props(m0, d.all_frames(), st);
    assert(!has_base(d.all_frames(), ct_name())) by {
        if has_base(d.all_frames(), ct_name()) {
            let i = choose|i: int|
                0 <= i < d.all_frames().len() && base_of(d.all_frames()[i].1.path) == ct_name();
            assert(base_of(d.all_frames()[i].1.path) != ct_name());
        }
    }
    assert(save_entries(d, st) == image_entries(m0, d.all_frames(), st));
    assert(m0.contains_key(ct_name()) && m0[ct_name()] == metadata_bytes(d));
    assert(image_entries(m0, d.all_frames(), st).contains_key(ct_name()) == m0.contains_key(
        ct_name(),
    ));
    assert(save_entries(d, st).contains_key(ct_name()));
    assert(save_entries(d, st)[ct_name()] == metadata_bytes(d));
    lemma_metadata_round_trip(d);
    assert forall|text: Seq<char>| #[trigger]
        encode_utf8(text) == save_entries(d, st)[ct_name()] implies parse_doc(lines_of(text))
        == Some(strip_view(d)) by {
        assert(encode_utf8(text) == metadata_bytes(d));
    }
}

/// Round trip of the archived metadata: whatever string the metadata bytes
/// of a well-formed character decode to, parsing it yields back exactly the
/// character in its stripped (base-file-name) form.
pub proof fn lemma_metadata_round_trip(d: CharView)
    requires
        d.wf(),
    ensures
        forall|text: Seq<char>|
            #[trigger] encode_utf8(text) == metadata_bytes(d) ==> parse_doc(lines_of(text))
                == Some(strip_view(d)),
        metadata_character(metadata_bytes(d)) == Some(strip_view(d)),
{
    encode_utf8_valid_utf8(unlines(enc_doc(strip_view(d))));
    encode_utf8_decode_utf8(unlines(enc_doc(strip_view(d))));
    let s = strip_view(d);
    lemma_strip_wf(d);
    lemma_enc_doc_clean(s);
    lemma_lines_unlines(enc_doc(s));
    lemma_parse_enc_doc(s);
    let doc = unlines(enc_doc(s));
    assert forall|text: Seq<char>| #[trigger]
        encode_utf8(text) == metadata_bytes(d) implies parse_doc(lines_of(text)) == Some(s) by {
        encode_utf8_decode_utf8(text);
        encode_utf8_decode_utf8(doc);
        assert(text == doc);
    }
}

} // verus!
