//! The choice of the decoder by file name.
use crate::audio::{extension_of, file_outcome, is_audio};
use crate::keys::KeyDatabase;
use crate::kgg::{decrypt_kgg_bytes, kgg_decoded, kgg_inside, kgg_is_inside};
use crate::kgm::{decrypt_kgm, kgm_decoded};
use crate::kwm::{decrypt_kwm, kwm_decoded};
use crate::ncm::{decrypt_ncm, ncm_decoded};
use crate::qmc_file::{decrypt_qmc, qmc_decoded};
use crate::text::{
    ascii_lower, extension_in_lower_case, lemma_last_dot_before, lower_extension, same_text,
};
use vstd::prelude::*;
use vstd::string::StringExecFns;

verus! {

/// The kinds of files that are told apart.
#[derive(Clone, Copy, Debug, PartialEq, Eq, Structural)]
pub enum Container {
    Kgg,
    Kgm,
    Ncm,
    Kwm,
    Qmc,
    Lyrics,
    Unknown,
}

/// Whether files with the extension `ext` are QMC files.
pub open spec fn is_qmc_extension(ext: Seq<char>) -> bool {
    ||| ext == "qmc0"@
    ||| ext == "qmc2"@
    ||| ext == "qmc3"@
    ||| ext == "qmc4"@
    ||| ext == "qmc6"@
    ||| ext == "qmc8"@
    ||| ext == "qmcflac"@
    ||| ext == "qmcogg"@
    ||| ext == "tkm"@
    ||| ext == "mflac"@
    ||| ext == "mflac0"@
    ||| ext == "mflac1"@
    ||| ext == "mgg"@
    ||| ext == "mgg0"@
    ||| ext == "mgg1"@
    ||| ext == "mggl"@
}

/// The kind of the files with the extension `ext`.
pub open spec fn container_of(ext: Seq<char>) -> Container {
    if ext == "kgg"@ {
        Container::Kgg
    } else if ext == "kgm"@ || ext == "kgma"@ || ext == "vpr"@ {
        Container::Kgm
    } else if ext == "ncm"@ {
        Container::Ncm
    } else if ext == "kwm"@ {
        Container::Kwm
    } else if is_qmc_extension(ext) {
        Container::Qmc
    } else if ext == "krc"@ {
        Container::Lyrics
    } else {
        Container::Unknown
    }
}

/// The complaint about an extension that no decoder is for.
pub open spec fn unsupported(ext: Seq<char>) -> Seq<char> {
    "暂不支持 ."@ + (if ext.len() == 0 {
        "?"@
    } else {
        ext
    }) + " 格式"@
}

/// A file decoded by the decoder that its name selects.
pub open spec fn file_decoded(data: Seq<u8>, filename: Seq<char>, keys: KeyDatabase) -> Result<
    (Seq<u8>, Seq<char>),
    Seq<char>,
> {
    let ext = lower_extension(filename);
    match container_of(ext) {
        Container::Kgg => kgg_decoded(data, keys),
        Container::Kgm => kgm_decoded(data, ext, keys),
        Container::Ncm => ncm_decoded(data),
        Container::Kwm => kwm_decoded(data),
        Container::Qmc => qmc_decoded(data),
        Container::Lyrics => Err("KRC 是歌词格式，请使用歌词转换入口"@),
        Container::Unknown => Err(unsupported(ext)),
    }
}

/// Whether what decoding looks at lies inside the file.
pub open spec fn file_inside(data: Seq<u8>, filename: Seq<char>, keys: KeyDatabase) -> bool {
    container_of(lower_extension(filename)) == Container::Kgg ==> kgg_inside(data, keys)
}

/// The kind of the files with the extension `ext`.
fn find_container(ext: &str) -> (container: Container)
    ensures
        container == container_of(ext@),
{
    if same_text(ext, "kgg") {
        Container::Kgg
    } else if same_text(ext, "kgm") || same_text(ext, "kgma") || same_text(ext, "vpr") {
        Container::Kgm
    } else if same_text(ext, "ncm") {
        Container::Ncm
    } else if same_text(ext, "kwm") {
        Container::Kwm
    } else if same_text(ext, "qmc0") || same_text(ext, "qmc2") || same_text(ext, "qmc3")
        || same_text(ext, "qmc4") || same_text(ext, "qmc6") || same_text(ext, "qmc8")
        || same_text(ext, "qmcflac") || same_text(ext, "qmcogg") || same_text(ext, "tkm")
        || same_text(ext, "mflac") || same_text(ext, "mflac0") || same_text(ext, "mflac1")
        || same_text(ext, "mgg") || same_text(ext, "mgg0") || same_text(ext, "mgg1") || same_text(
        ext,
        "mggl",
    ) {
        Container::Qmc
    } else if same_text(ext, "krc") {
        Container::Lyrics
    } else {
        Container::Unknown
    }
}

/// Decodes a file by the decoder that its name selects, with the keys of the local
/// database.
pub fn decrypt_file(data: &[u8], filename: &str, keys: &KeyDatabase) -> (res: Result<
    (Vec<u8>, String),
    String,
>)
    requires
        file_inside(data@, filename@, *keys),
    ensures
        file_outcome(res) == file_decoded(data@, filename@, *keys),
{
    let ext = extension_in_lower_case(filename);
    match find_container(ext.as_str()) {
        Container::Kgg => decrypt_kgg_bytes(data, keys),
        Container::Kgm => decrypt_kgm(data, ext.as_str(), keys),
        Container::Ncm => decrypt_ncm(data),
        Container::Kwm => decrypt_kwm(data),
        Container::Qmc => decrypt_qmc(data),
        Container::Lyrics => Err(
            "KRC 是歌词格式，请使用歌词转换入口".to_string(),
        ),
        Container::Unknown => {
            let mut text = "暂不支持 .".to_string();
            if ext.as_str().is_empty() {
                text.append("?");
            } else {
                text.append(ext.as_str());
            }
            text.append(" 格式");
            Err(text)
        },
    }
}

/// Decodes a file if what decoding looks at lies inside it.
pub fn try_decrypt_file(data: &[u8], filename: &str, keys: &KeyDatabase) -> (res: Option<
    Result<(Vec<u8>, String), String>,
>)
    ensures
        res is Some <==> file_inside(data@, filename@, *keys),
        res matches Some(decoded) ==> file_outcome(decoded) == file_decoded(
            data@,
            filename@,
            *keys,
        ),
{
    let ext = extension_in_lower_case(filename);
    if find_container(ext.as_str()) == Container::Kgg && !kgg_is_inside(data, keys) {
        return None;
    }
    Some(decrypt_file(data, filename, keys))
}

/// Whatever decoder is chosen, what it hands out is audio of a known kind under the
/// extension for that kind: MP3, FLAC or Ogg.
pub proof fn law_decoded_audio_is_recognised(
    data: Seq<u8>,
    filename: Seq<char>,
    keys: KeyDatabase,
)
    ensures
        file_decoded(data, filename, keys) matches Ok((audio, ext)) ==> {
            &&& is_audio(audio)
            &&& ext == extension_of(audio)
            &&& ext == "mp3"@ || ext == "flac"@ || ext == "ogg"@
        },
{
}

/// Only the extension of a file name matters, and not whether its ASCII letters are
/// capitals.
pub proof fn law_extension_alone_selects(
    data: Seq<u8>,
    stem: Seq<char>,
    ext: Seq<char>,
    other_stem: Seq<char>,
    other_ext: Seq<char>,
    keys: KeyDatabase,
)
    requires
        !ext.contains('.'),
        !other_ext.contains('.'),
        ext.len() == other_ext.len(),
        forall|i: int|
            0 <= i < ext.len() ==> #[trigger] ascii_lower(ext[i]) == ascii_lower(other_ext[i]),
    ensures
        file_decoded(data, stem + seq!['.'] + ext, keys) == file_decoded(
            data,
            other_stem + seq!['.'] + other_ext,
            keys,
        ),
{
    lemma_last_dot_before(stem, ext);
    lemma_last_dot_before(other_stem, other_ext);
    assert(lower_extension(stem + seq!['.'] + ext) =~= lower_extension(
        other_stem + seq!['.'] + other_ext,
    ));
}

/// The extensions of QMC files are names for one container: whichever of them a file has,
/// in whatever case, it is decoded as the same QMC file.
pub proof fn law_qmc_extensions_agree(
    data: Seq<u8>,
    filename: Seq<char>,
    other_filename: Seq<char>,
    keys: KeyDatabase,
)
    requires
        is_qmc_extension(lower_extension(filename)),
        is_qmc_extension(lower_extension(other_filename)),
    ensures
        file_decoded(data, filename, keys) == qmc_decoded(data),
        file_decoded(data, filename, keys) == file_decoded(data, other_filename, keys),
{
    lemma_qmc_extension(lower_extension(filename));
    lemma_qmc_extension(lower_extension(other_filename));
}

/// No extension of QMC files is one of another container.
proof fn lemma_qmc_extension(ext: Seq<char>)
    requires
        is_qmc_extension(ext),
    ensures
        container_of(ext) == Container::Qmc,
{
    reveal_strlit("kgg");
    reveal_strlit("kgm");
    reveal_strlit("kgma");
    reveal_strlit("vpr");
    reveal_strlit("ncm");
    reveal_strlit("kwm");
    reveal_strlit("qmc0");
    reveal_strlit("qmc2");
    reveal_strlit("qmc3");
    reveal_strlit("qmc4");
    reveal_strlit("qmc6");
    reveal_strlit("qmc8");
    reveal_strlit("qmcflac");
    reveal_strlit("qmcogg");
    reveal_strlit("tkm");
    reveal_strlit("mflac");
    reveal_strlit("mflac0");
    reveal_strlit("mflac1");
    reveal_strlit("mgg");
    reveal_strlit("mgg0");
    reveal_strlit("mgg1");
    reveal_strlit("mggl");
    assert(ext[0] == 'q' || ext[0] == 't' || ext[0] == 'm');
    assert("kgg"@[0] == 'k' && "kgm"@[0] == 'k' && "kgma"@[0] == 'k' && "vpr"@[0] == 'v'
        && "ncm"@[0] == 'n' && "kwm"@[0] == 'k');
}

/// Which extension, in lower case, selects which decoder; what a file with any other one is
/// answered.
pub proof fn law_extension_selects(data: Seq<u8>, filename: Seq<char>, keys: KeyDatabase)
    ensures
        ({
            let ext = lower_extension(filename);
            let got = file_decoded(data, filename, keys);
            &&& ext == "kgg"@ ==> got == kgg_decoded(data, keys)
            &&& ext == "kgm"@ || ext == "kgma"@ || ext == "vpr"@ ==> got == kgm_decoded(
                data,
                ext,
                keys,
            )
            &&& ext == "ncm"@ ==> got == ncm_decoded(data)
            &&& ext == "kwm"@ ==> got == kwm_decoded(data)
            &&& ext == "krc"@ ==> got == Err::<(Seq<u8>, Seq<char>), Seq<char>>(
                "KRC 是歌词格式，请使用歌词转换入口"@,
            )
            &&& ext.len() == 0 ==> got == Err::<(Seq<u8>, Seq<char>), Seq<char>>(
                "暂不支持 ."@ + "?"@ + " 格式"@,
            )
            &&& ext.len() > 7 ==> got == Err::<(Seq<u8>, Seq<char>), Seq<char>>(
                "暂不支持 ."@ + ext + " 格式"@,
            )
            &&& ext.len() > 0 && ext != "kgg"@ && ext != "kgm"@ && ext != "kgma"@ && ext != "vpr"@
                && ext != "ncm"@ && ext != "kwm"@ && ext != "krc"@ && ext != "qmc0"@ && ext
                != "qmc2"@ && ext != "qmc3"@ && ext != "qmc4"@ && ext != "qmc6"@ && ext != "qmc8"@
                && ext != "qmcflac"@ && ext != "qmcogg"@ && ext != "tkm"@ && ext != "mflac"@ && ext
                != "mflac0"@ && ext != "mflac1"@ && ext != "mgg"@ && ext != "mgg0"@ && ext
                != "mgg1"@ && ext != "mggl"@ ==> got == Err::<(Seq<u8>, Seq<char>), Seq<char>>(
                "暂不支持 ."@ + ext + " 格式"@,
            )
        }),
{
    let ext = lower_extension(filename);
    lemma_extensions_differ(ext);
}

proof fn lemma_extensions_differ(ext: Seq<char>)
    ensures
        ext == "kgg"@ ==> container_of(ext) == Container::Kgg,
        ext == "kgm"@ || ext == "kgma"@ || ext == "vpr"@ ==> container_of(ext) == Container::Kgm,
        ext == "ncm"@ ==> container_of(ext) == Container::Ncm,
        ext == "kwm"@ ==> container_of(ext) == Container::Kwm,
        ext == "krc"@ ==> container_of(ext) == Container::Lyrics,
        ext.len() == 0 || ext.len() > 7 ==> container_of(ext) == Container::Unknown,
{
    reveal_strlit("kgg");
    reveal_strlit("kgm");
    reveal_strlit("kgma");
    reveal_strlit("vpr");
    reveal_strlit("ncm");
    reveal_strlit("kwm");
    reveal_strlit("krc");
    reveal_strlit("qmc0");
    reveal_strlit("qmc2");
    reveal_strlit("qmc3");
    reveal_strlit("qmc4");
    reveal_strlit("qmc6");
    reveal_strlit("qmc8");
    reveal_strlit("qmcflac");
    reveal_strlit("qmcogg");
    reveal_strlit("tkm");
    reveal_strlit("mflac");
    reveal_strlit("mflac0");
    reveal_strlit("mflac1");
    reveal_strlit("mgg");
    reveal_strlit("mgg0");
    reveal_strlit("mgg1");
    reveal_strlit("mggl");
    assert("kgg"@[1] == 'g' && "kgg"@[2] == 'g');
    assert("kgm"@[1] == 'g' && "kgm"@[2] == 'm');
    assert("ncm"@[0] == 'n' && "vpr"@[0] == 'v');
    assert("kwm"@[0] == 'k' && "kwm"@[1] == 'w' && "krc"@[0] == 'k' && "krc"@[1] == 'r');
    assert("kgma"@.len() == 4 && "kgma"@[0] == 'k');
    assert(is_qmc_extension(ext) ==> ext[0] == 'q' || ext[0] == 't' || ext[0] == 'm');
}

/// Only KGG files can end too early for decoding to look at them.
pub proof fn law_others_inside(data: Seq<u8>, filename: Seq<char>, keys: KeyDatabase)
    ensures
        lower_extension(filename) != "kgg"@ ==> file_inside(data, filename, keys),
        lower_extension(filename) == "kgg"@ ==> file_inside(data, filename, keys) == kgg_inside(
            data,
            keys,
        ),
{
}

} // verus!
