//! Recognition of decoded audio by its first bytes.
use crate::bytes::starts_with;
use crate::text::same_text;
use vstd::prelude::*;

verus! {

/// The start of an MP3 file with a tag in front.
pub const ID3_TAG: [u8; 3] = [0x49, 0x44, 0x33];

/// The start of a FLAC file.
pub const FLAC_TAG: [u8; 4] = [0x66, 0x4c, 0x61, 0x43];

/// The start of an Ogg file.
pub const OGG_TAG: [u8; 4] = [0x4f, 0x67, 0x67, 0x53];

/// Starts of MP3 frames.
pub const MP3_FRAME_FB: [u8; 2] = [0xff, 0xfb];

pub const MP3_FRAME_F3: [u8; 2] = [0xff, 0xf3];

pub const MP3_FRAME_FA: [u8; 2] = [0xff, 0xfa];

/// Whether `data` begins like an MP3 file.
pub open spec fn looks_like_mp3(data: Seq<u8>) -> bool {
    ID3_TAG@.is_prefix_of(data) || MP3_FRAME_FB@.is_prefix_of(data) || MP3_FRAME_F3@.is_prefix_of(
        data,
    ) || MP3_FRAME_FA@.is_prefix_of(data)
}

/// The file name extension for audio that begins like `data`; "bin" if it is of no
/// known kind.
pub open spec fn extension_of(data: Seq<u8>) -> Seq<char> {
    if looks_like_mp3(data) {
        "mp3"@
    } else if FLAC_TAG@.is_prefix_of(data) {
        "flac"@
    } else if OGG_TAG@.is_prefix_of(data) {
        "ogg"@
    } else {
        "bin"@
    }
}

/// Whether `data` is of a known kind.
pub open spec fn is_audio(data: Seq<u8>) -> bool {
    looks_like_mp3(data) || FLAC_TAG@.is_prefix_of(data) || OGG_TAG@.is_prefix_of(data)
}

/// A decoded file, or the complaint that comes in its place.
pub open spec fn file_outcome(res: Result<(Vec<u8>, String), String>) -> Result<
    (Seq<u8>, Seq<char>),
    Seq<char>,
> {
    match res {
        Ok((audio, ext)) => Ok((audio@, ext@)),
        Err(text) => Err(text@),
    }
}

/// The complaint about decoded data that is no audio.
pub open spec fn no_audio() -> Seq<char> {
    "解密后无法识别音频格式"@
}

/// Decoded audio together with its extension; audio of no known kind is refused with
/// the given complaint.
pub open spec fn recognised(audio: Seq<u8>, complaint: Seq<char>) -> Result<
    (Seq<u8>, Seq<char>),
    Seq<char>,
> {
    if is_audio(audio) {
        Ok((audio, extension_of(audio)))
    } else {
        Err(complaint)
    }
}

/// The file name extension for audio that begins like `data`.
pub fn sniff_ext(data: &[u8]) -> (ext: &'static str)
    ensures
        ext@ == extension_of(data@),
{
    if starts_with(data, &ID3_TAG) {
        "mp3"
    } else if starts_with(data, &MP3_FRAME_FB) || starts_with(data, &MP3_FRAME_F3) || starts_with(
        data,
        &MP3_FRAME_FA,
    ) {
        "mp3"
    } else if starts_with(data, &FLAC_TAG) {
        "flac"
    } else if starts_with(data, &OGG_TAG) {
        "ogg"
    } else {
        "bin"
    }
}

/// The extension of recognised audio.
pub fn sniff_audio(data: &[u8]) -> (res: Result<String, String>)
    ensures
        match res {
            Ok(ext) => is_audio(data@) && ext@ == extension_of(data@),
            Err(text) => !is_audio(data@) && text@ == no_audio(),
        },
{
    let ext = sniff_ext(data);
    proof {
        lemma_bin_is_no_audio(data@);
    }
    if !same_text(ext, "bin") {
        return Ok(ext.to_string());
    }
    Err("解密后无法识别音频格式".to_string())
}

/// Unknown audio, and no other, gets the extension "bin".
pub proof fn lemma_bin_is_no_audio(data: Seq<u8>)
    ensures
        extension_of(data) == "bin"@ <==> !is_audio(data),
{
    reveal_strlit("mp3");
    reveal_strlit("flac");
    reveal_strlit("ogg");
    reveal_strlit("bin");
    assert("mp3"@[0] == 'm' && "flac"@[0] == 'f' && "ogg"@[0] == 'o' && "bin"@[0] == 'b');
}

proof fn lemma_cut_prefix(tag: Seq<u8>, data: Seq<u8>, n: int)
    requires
        tag.len() <= 4,
        4 <= n <= data.len(),
    ensures
        tag.is_prefix_of(data.subrange(0, n)) <==> tag.is_prefix_of(data),
{
    let cut = data.subrange(0, n);
    assert(cut.subrange(0, tag.len() as int) =~= data.subrange(0, tag.len() as int));
}

/// The first four bytes tell the kind of audio.
pub proof fn law_four_bytes_tell(data: Seq<u8>, n: int)
    requires
        4 <= n <= data.len(),
    ensures
        is_audio(data.subrange(0, n)) == is_audio(data),
        extension_of(data.subrange(0, n)) == extension_of(data),
{
    lemma_cut_prefix(ID3_TAG@, data, n);
    lemma_cut_prefix(MP3_FRAME_FB@, data, n);
    lemma_cut_prefix(MP3_FRAME_F3@, data, n);
    lemma_cut_prefix(MP3_FRAME_FA@, data, n);
    lemma_cut_prefix(FLAC_TAG@, data, n);
    lemma_cut_prefix(OGG_TAG@, data, n);
}

/// Audio is told by its first bytes and by nothing else: "ID3" or one of three frame starts
/// make an MP3 file, "fLaC" a FLAC file and "OggS" an Ogg file. Recognised audio is handed
/// out as it is, and everything else is refused with the complaint given.
pub proof fn law_kinds_of_audio(data: Seq<u8>, complaint: Seq<char>)
    ensures
        ({
            let n = data.len();
            let id3 = n >= 3 && data[0] == 0x49 && data[1] == 0x44 && data[2] == 0x33;
            let frame = n >= 2 && data[0] == 0xff && (data[1] == 0xfb || data[1] == 0xf3
                || data[1] == 0xfa);
            let flac = n >= 4 && data[0] == 0x66 && data[1] == 0x4c && data[2] == 0x61 && data[3]
                == 0x43;
            let ogg = n >= 4 && data[0] == 0x4f && data[1] == 0x67 && data[2] == 0x67 && data[3]
                == 0x53;
            &&& is_audio(data) <==> id3 || frame || flac || ogg
            &&& id3 || frame ==> recognised(data, complaint) == Ok::<
                (Seq<u8>, Seq<char>),
                Seq<char>,
            >((data, "mp3"@))
            &&& flac ==> recognised(data, complaint) == Ok::<(Seq<u8>, Seq<char>), Seq<char>>(
                (data, "flac"@),
            )
            &&& ogg ==> recognised(data, complaint) == Ok::<(Seq<u8>, Seq<char>), Seq<char>>(
                (data, "ogg"@),
            )
            &&& !(id3 || frame || flac || ogg) ==> recognised(data, complaint) == Err::<
                (Seq<u8>, Seq<char>),
                Seq<char>,
            >(complaint) && extension_of(data) == "bin"@
        }),
{
    lemma_prefix_bytes(ID3_TAG@, data);
    lemma_prefix_bytes(MP3_FRAME_FB@, data);
    lemma_prefix_bytes(MP3_FRAME_F3@, data);
    lemma_prefix_bytes(MP3_FRAME_FA@, data);
    lemma_prefix_bytes(FLAC_TAG@, data);
    lemma_prefix_bytes(OGG_TAG@, data);
}

/// A prefix agrees byte by byte.
pub proof fn lemma_prefix_bytes(tag: Seq<u8>, data: Seq<u8>)
    ensures
        tag.is_prefix_of(data) <==> tag.len() <= data.len() && forall|i: int|
            0 <= i < tag.len() ==> #[trigger] tag[i] == data[i],
{
    if tag.len() <= data.len() {
        let front = data.subrange(0, tag.len() as int);
        assert(forall|i: int| 0 <= i < tag.len() ==> #[trigger] front[i] == data[i]);
        if forall|i: int| 0 <= i < tag.len() ==> #[trigger] tag[i] == data[i] {
            assert(tag =~= front);
        }
        if tag.is_prefix_of(data) {
            assert(tag == front);
        }
    }
}

} // verus!
