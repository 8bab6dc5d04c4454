//! What kind of file a name says.

use vstd::prelude::*;

use crate::categories;
use crate::categories::FileCategory;
use crate::cleanup::spelled_as;
use crate::text;
use crate::treemap;

verus! {

/// The extensions of films.
pub open spec fn video_words() -> Seq<Seq<char>> {
    seq![
        "mp4"@,
        "mkv"@,
        "avi"@,
        "mov"@,
        "wmv"@,
        "flv"@,
        "webm"@,
        "m4v"@,
    ]
}

/// The extensions of pictures.
pub open spec fn image_words() -> Seq<Seq<char>> {
    seq![
        "jpg"@,
        "jpeg"@,
        "png"@,
        "gif"@,
        "bmp"@,
        "svg"@,
        "webp"@,
        "tiff"@,
        "ico"@,
        "heic"@,
    ]
}

/// The extensions of sound.
pub open spec fn audio_words() -> Seq<Seq<char>> {
    seq![
        "mp3"@,
        "wav"@,
        "flac"@,
        "aac"@,
        "ogg"@,
        "wma"@,
        "m4a"@,
        "opus"@,
    ]
}

/// The extensions of documents.
pub open spec fn document_words() -> Seq<Seq<char>> {
    seq![
        "pdf"@,
        "doc"@,
        "docx"@,
        "xls"@,
        "xlsx"@,
        "ppt"@,
        "pptx"@,
        "txt"@,
        "rtf"@,
        "csv"@,
        "pages"@,
        "numbers"@,
        "key"@,
    ]
}

/// The extensions of archives.
pub open spec fn archive_words() -> Seq<Seq<char>> {
    seq![
        "zip"@,
        "tar"@,
        "gz"@,
        "rar"@,
        "7z"@,
        "bz2"@,
        "xz"@,
        "tgz"@,
        "zst"@,
        "dmg"@,
        "iso"@,
    ]
}

/// The extensions of program text and what belongs to it.
pub open spec fn code_words() -> Seq<Seq<char>> {
    seq![
        "rs"@,
        "js"@,
        "ts"@,
        "py"@,
        "go"@,
        "c"@,
        "cpp"@,
        "h"@,
        "hpp"@,
        "java"@,
        "rb"@,
        "swift"@,
        "kt"@,
        "cs"@,
        "jsx"@,
        "tsx"@,
        "vue"@,
        "svelte"@,
        "json"@,
        "yaml"@,
        "yml"@,
        "toml"@,
        "xml"@,
        "ini"@,
        "cfg"@,
        "conf"@,
        "lock"@,
        "html"@,
        "htm"@,
        "css"@,
        "scss"@,
        "sass"@,
        "less"@,
        "md"@,
        "mdx"@,
    ]
}

/// How long a word is, its first two letters and its last.
spec fn mark(word: Seq<char>) -> (nat, char, char, char) {
    (
        word.len(),
        text::lower(word[0]),
        if word.len() > 1 {
            text::lower(word[1])
        } else {
            '.'
        },
        text::lower(word.last()),
    )
}

proof fn lemma_alike_mark(name: Seq<char>, word: Seq<char>)
    requires
        text::all_alike(name, word),
        word.len() >= 1,
    ensures
        mark(name) == mark(word),
{
    text::lemma_alike(name, word);
    let (a, b) = (text::lowered(name), text::lowered(word));
    assert(a.len() == name.len() && b.len() == word.len());
    assert(a[0] == b[0] && a[a.len() - 1] == b[b.len() - 1]);
    if word.len() > 1 {
        assert(a[1] == b[1]);
    }
}

spec fn video_mark(m: (nat, char, char, char)) -> bool {
    ||| m == (3nat, 'a', 'v', 'i')
    ||| m == (3nat, 'f', 'l', 'v')
    ||| m == (3nat, 'm', '4', 'v')
    ||| m == (3nat, 'm', 'k', 'v')
    ||| m == (3nat, 'm', 'o', 'v')
    ||| m == (3nat, 'm', 'p', '4')
    ||| m == (3nat, 'w', 'm', 'v')
    ||| m == (4nat, 'w', 'e', 'm')
}

proof fn lemma_video_words(ext: Seq<char>)
    ensures
        spelled_as(ext, video_words()) == text::listed(text::lowered(ext), categories::VIDEO@),
        spelled_as(ext, video_words()) ==> video_mark(mark(ext)),
{
    let words = video_words();
    let list = categories::VIDEO@;
    assert(list.len() == words.len());
    assert(list[0]@ == words[0]);
    assert(video_mark(mark("mp4"@)) && "mp4"@.len() >= 1 && text::lowered("mp4"@) == "mp4"@) by {
        reveal_strlit("mp4");
        assert(text::lowered("mp4"@) =~= "mp4"@);
    }
    assert(list[1]@ == words[1]);
    assert(video_mark(mark("mkv"@)) && "mkv"@.len() >= 1 && text::lowered("mkv"@) == "mkv"@) by {
        reveal_strlit("mkv");
        assert(text::lowered("mkv"@) =~= "mkv"@);
    }
    assert(list[2]@ == words[2]);
    assert(video_mark(mark("avi"@)) && "avi"@.len() >= 1 && text::lowered("avi"@) == "avi"@) by {
        reveal_strlit("avi");
        assert(text::lowered("avi"@) =~= "avi"@);
    }
    assert(list[3]@ == words[3]);
    assert(video_mark(mark("mov"@)) && "mov"@.len() >= 1 && text::lowered("mov"@) == "mov"@) by {
        reveal_strlit("mov");
        assert(text::lowered("mov"@) =~= "mov"@);
    }
    assert(list[4]@ == words[4]);
    assert(video_mark(mark("wmv"@)) && "wmv"@.len() >= 1 && text::lowered("wmv"@) == "wmv"@) by {
        reveal_strlit("wmv");
        assert(text::lowered("wmv"@) =~= "wmv"@);
    }
    assert(list[5]@ == words[5]);
    assert(video_mark(mark("flv"@)) && "flv"@.len() >= 1 && text::lowered("flv"@) == "flv"@) by {
        reveal_strlit("flv");
        assert(text::lowered("flv"@) =~= "flv"@);
    }
    assert(list[6]@ == words[6]);
    assert(video_mark(mark("webm"@)) && "webm"@.len() >= 1 && text::lowered("webm"@) == "webm"@) by {
        reveal_strlit("webm");
        assert(text::lowered("webm"@) =~= "webm"@);
    }
    assert(list[7]@ == words[7]);
    assert(video_mark(mark("m4v"@)) && "m4v"@.len() >= 1 && text::lowered("m4v"@) == "m4v"@) by {
        reveal_strlit("m4v");
        assert(text::lowered("m4v"@) =~= "m4v"@);
    }
    assert forall|i: int| 0 <= i < words.len() implies list[i]@ == #[trigger] words[i]
        && words[i].len() >= 1 && video_mark(mark(words[i])) && text::lowered(words[i])
        == words[i] by {
    }
    if spelled_as(ext, words) {
        let i = choose|i: int| 0 <= i < words.len() && text::all_alike(ext, #[trigger] words[i]);
        lemma_alike_mark(ext, words[i]);
        text::lemma_alike(ext, words[i]);
        assert(list[i]@ == text::lowered(ext));
    }
    if text::listed(text::lowered(ext), list) {
        let i = choose|i: int| 0 <= i < list.len() && #[trigger] list[i]@ == text::lowered(ext);
        assert(words[i] == list[i]@);
        text::lemma_alike(ext, words[i]);
    }
}

spec fn image_mark(m: (nat, char, char, char)) -> bool {
    ||| m == (3nat, 'b', 'm', 'p')
    ||| m == (3nat, 'g', 'i', 'f')
    ||| m == (3nat, 'i', 'c', 'o')
    ||| m == (3nat, 'j', 'p', 'g')
    ||| m == (3nat, 'p', 'n', 'g')
    ||| m == (3nat, 's', 'v', 'g')
    ||| m == (4nat, 'h', 'e', 'c')
    ||| m == (4nat, 'j', 'p', 'g')
    ||| m == (4nat, 't', 'i', 'f')
    ||| m == (4nat, 'w', 'e', 'p')
}

proof fn lemma_image_words(ext: Seq<char>)
    ensures
        spelled_as(ext, image_words()) == text::listed(text::lowered(ext), categories::IMAGE@),
        spelled_as(ext, image_words()) ==> image_mark(mark(ext)),
{
    let words = image_words();
    let list = categories::IMAGE@;
    assert(list.len() == words.len());
    assert(list[0]@ == words[0]);
    assert(image_mark(mark("jpg"@)) && "jpg"@.len() >= 1 && text::lowered("jpg"@) == "jpg"@) by {
        reveal_strlit("jpg");
        assert(text::lowered("jpg"@) =~= "jpg"@);
    }
    assert(list[1]@ == words[1]);
    assert(image_mark(mark("jpeg"@)) && "jpeg"@.len() >= 1 && text::lowered("jpeg"@) == "jpeg"@) by {
        reveal_strlit("jpeg");
        assert(text::lowered("jpeg"@) =~= "jpeg"@);
    }
    assert(list[2]@ == words[2]);
    assert(image_mark(mark("png"@)) && "png"@.len() >= 1 && text::lowered("png"@) == "png"@) by {
        reveal_strlit("png");
        assert(text::lowered("png"@) =~= "png"@);
    }
    assert(list[3]@ == words[3]);
    assert(image_mark(mark("gif"@)) && "gif"@.len() >= 1 && text::lowered("gif"@) == "gif"@) by {
        reveal_strlit("gif");
        assert(text::lowered("gif"@) =~= "gif"@);
    }
    assert(list[4]@ == words[4]);
    assert(image_mark(mark("bmp"@)) && "bmp"@.len() >= 1 && text::lowered("bmp"@) == "bmp"@) by {
        reveal_strlit("bmp");
        assert(text::lowered("bmp"@) =~= "bmp"@);
    }
    assert(list[5]@ == words[5]);
    assert(image_mark(mark("svg"@)) && "svg"@.len() >= 1 && text::lowered("svg"@) == "svg"@) by {
        reveal_strlit("svg");
        assert(text::lowered("svg"@) =~= "svg"@);
    }
    assert(list[6]@ == words[6]);
    assert(image_mark(mark("webp"@)) && "webp"@.len() >= 1 && text::lowered("webp"@) == "webp"@) by {
        reveal_strlit("webp");
        assert(text::lowered("webp"@) =~= "webp"@);
    }
    assert(list[7]@ == words[7]);
    assert(image_mark(mark("tiff"@)) && "tiff"@.len() >= 1 && text::lowered("tiff"@) == "tiff"@) by {
        reveal_strlit("tiff");
        assert(text::lowered("tiff"@) =~= "tiff"@);
    }
    assert(list[8]@ == words[8]);
    assert(image_mark(mark("ico"@)) && "ico"@.len() >= 1 && text::lowered("ico"@) == "ico"@) by {
        reveal_strlit("ico");
        assert(text::lowered("ico"@) =~= "ico"@);
    }
    assert(list[9]@ == words[9]);
    assert(image_mark(mark("heic"@)) && "heic"@.len() >= 1 && text::lowered("heic"@) == "heic"@) by {
        reveal_strlit("heic");
        assert(text::lowered("heic"@) =~= "heic"@);
    }
    assert forall|i: int| 0 <= i < words.len() implies list[i]@ == #[trigger] words[i]
        && words[i].len() >= 1 && image_mark(mark(words[i])) && text::lowered(words[i])
        == words[i] by {
    }
    if spelled_as(ext, words) {
        let i = choose|i: int| 0 <= i < words.len() && text::all_alike(ext, #[trigger] words[i]);
        lemma_alike_mark(ext, words[i]);
        text::lemma_alike(ext, words[i]);
        assert(list[i]@ == text::lowered(ext));
    }
    if text::listed(text::lowered(ext), list) {
        let i = choose|i: int| 0 <= i < list.len() && #[trigger] list[i]@ == text::lowered(ext);
        assert(words[i] == list[i]@);
        text::lemma_alike(ext, words[i]);
    }
}

spec fn audio_mark(m: (nat, char, char, char)) -> bool {
    ||| m == (3nat, 'a', 'a', 'c')
    ||| m == (3nat, 'm', '4', 'a')
    ||| m == (3nat, 'm', 'p', '3')
    ||| m == (3nat, 'o', 'g', 'g')
    ||| m == (3nat, 'w', 'a', 'v')
    ||| m == (3nat, 'w', 'm', 'a')
    ||| m == (4nat, 'f', 'l', 'c')
    ||| m == (4nat, 'o', 'p', 's')
}

proof fn lemma_audio_words(ext: Seq<char>)
    ensures
        spelled_as(ext, audio_words()) == text::listed(text::lowered(ext), categories::AUDIO@),
        spelled_as(ext, audio_words()) ==> audio_mark(mark(ext)),
{
    let words = audio_words();
    let list = categories::AUDIO@;
    assert(list.len() == words.len());
    assert(list[0]@ == words[0]);
    assert(audio_mark(mark("mp3"@)) && "mp3"@.len() >= 1 && text::lowered("mp3"@) == "mp3"@) by {
        reveal_strlit("mp3");
        assert(text::lowered("mp3"@) =~= "mp3"@);
    }
    assert(list[1]@ == words[1]);
    assert(audio_mark(mark("wav"@)) && "wav"@.len() >= 1 && text::lowered("wav"@) == "wav"@) by {
        reveal_strlit("wav");
        assert(text::lowered("wav"@) =~= "wav"@);
    }
    assert(list[2]@ == words[2]);
    assert(audio_mark(mark("flac"@)) && "flac"@.len() >= 1 && text::lowered("flac"@) == "flac"@) by {
        reveal_strlit("flac");
        assert(text::lowered("flac"@) =~= "flac"@);
    }
    assert(list[3]@ == words[3]);
    assert(audio_mark(mark("aac"@)) && "aac"@.len() >= 1 && text::lowered("aac"@) == "aac"@) by {
        reveal_strlit("aac");
        assert(text::lowered("aac"@) =~= "aac"@);
    }
    assert(list[4]@ == words[4]);
    assert(audio_mark(mark("ogg"@)) && "ogg"@.len() >= 1 && text::lowered("ogg"@) == "ogg"@) by {
        reveal_strlit("ogg");
        assert(text::lowered("ogg"@) =~= "ogg"@);
    }
    assert(list[5]@ == words[5]);
    assert(audio_mark(mark("wma"@)) && "wma"@.len() >= 1 && text::lowered("wma"@) == "wma"@) by {
        reveal_strlit("wma");
        assert(text::lowered("wma"@) =~= "wma"@);
    }
    assert(list[6]@ == words[6]);
    assert(audio_mark(mark("m4a"@)) && "m4a"@.len() >= 1 && text::lowered("m4a"@) == "m4a"@) by {
        reveal_strlit("m4a");
        assert(text::lowered("m4a"@) =~= "m4a"@);
    }
    assert(list[7]@ == words[7]);
    assert(audio_mark(mark("opus"@)) && "opus"@.len() >= 1 && text::lowered("opus"@) == "opus"@) by {
        reveal_strlit("opus");
        assert(text::lowered("opus"@) =~= "opus"@);
    }
    assert forall|i: int| 0 <= i < words.len() implies list[i]@ == #[trigger] words[i]
        && words[i].len() >= 1 && audio_mark(mark(words[i])) && text::lowered(words[i])
        == words[i] by {
    }
    if spelled_as(ext, words) {
        let i = choose|i: int| 0 <= i < words.len() && text::all_alike(ext, #[trigger] words[i]);
        lemma_alike_mark(ext, words[i]);
        text::lemma_alike(ext, words[i]);
        assert(list[i]@ == text::lowered(ext));
    }
    if text::listed(text::lowered(ext), list) {
        let i = choose|i: int| 0 <= i < list.len() && #[trigger] list[i]@ == text::lowered(ext);
        assert(words[i] == list[i]@);
        text::lemma_alike(ext, words[i]);
    }
}

spec fn document_mark(m: (nat, char, char, char)) -> bool {
    ||| m == (3nat, 'c', 's', 'v')
    ||| m == (3nat, 'd', 'o', 'c')
    ||| m == (3nat, 'k', 'e', 'y')
    ||| m == (3nat, 'p', 'd', 'f')
    ||| m == (3nat, 'p', 'p', 't')
    ||| m == (3nat, 'r', 't', 'f')
    ||| m == (3nat, 't', 'x', 't')
    ||| m == (3nat, 'x', 'l', 's')
    ||| m == (4nat, 'd', 'o', 'x')
    ||| m == (4nat, 'p', 'p', 'x')
    ||| m == (4nat, 'x', 'l', 'x')
    ||| m == (5nat, 'p', 'a', 's')
    ||| m == (7nat, 'n', 'u', 's')
}

proof fn lemma_document_words(ext: Seq<char>)
    ensures
        spelled_as(ext, document_words()) == text::listed(text::lowered(ext), categories::DOCUMENT@),
        spelled_as(ext, document_words()) ==> document_mark(mark(ext)),
{
    let words = document_words();
    let list = categories::DOCUMENT@;
    assert(list.len() == words.len());
    assert(list[0]@ == words[0]);
    assert(document_mark(mark("pdf"@)) && "pdf"@.len() >= 1 && text::lowered("pdf"@) == "pdf"@) by {
        reveal_strlit("pdf");
        assert(text::lowered("pdf"@) =~= "pdf"@);
    }
    assert(list[1]@ == words[1]);
    assert(document_mark(mark("doc"@)) && "doc"@.len() >= 1 && text::lowered("doc"@) == "doc"@) by {
        reveal_strlit("doc");
        assert(text::lowered("doc"@) =~= "doc"@);
    }
    assert(list[2]@ == words[2]);
    assert(document_mark(mark("docx"@)) && "docx"@.len() >= 1 && text::lowered("docx"@) == "docx"@) by {
        reveal_strlit("docx");
        assert(text::lowered("docx"@) =~= "docx"@);
    }
    assert(list[3]@ == words[3]);
    assert(document_mark(mark("xls"@)) && "xls"@.len() >= 1 && text::lowered("xls"@) == "xls"@) by {
        reveal_strlit("xls");
        assert(text::lowered("xls"@) =~= "xls"@);
    }
    assert(list[4]@ == words[4]);
    assert(document_mark(mark("xlsx"@)) && "xlsx"@.len() >= 1 && text::lowered("xlsx"@) == "xlsx"@) by {
        reveal_strlit("xlsx");
        assert(text::lowered("xlsx"@) =~= "xlsx"@);
    }
    assert(list[5]@ == words[5]);
    assert(document_mark(mark("ppt"@)) && "ppt"@.len() >= 1 && text::lowered("ppt"@) == "ppt"@) by {
        reveal_strlit("ppt");
        assert(text::lowered("ppt"@) =~= "ppt"@);
    }
    assert(list[6]@ == words[6]);
    assert(document_mark(mark("pptx"@)) && "pptx"@.len() >= 1 && text::lowered("pptx"@) == "pptx"@) by {
        reveal_strlit("pptx");
        assert(text::lowered("pptx"@) =~= "pptx"@);
    }
    assert(list[7]@ == words[7]);
    assert(document_mark(mark("txt"@)) && "txt"@.len() >= 1 && text::lowered("txt"@) == "txt"@) by {
        reveal_strlit("txt");
        assert(text::lowered("txt"@) =~= "txt"@);
    }
    assert(list[8]@ == words[8]);
    assert(document_mark(mark("rtf"@)) && "rtf"@.len() >= 1 && text::lowered("rtf"@) == "rtf"@) by {
        reveal_strlit("rtf");
        assert(text::lowered("rtf"@) =~= "rtf"@);
    }
    assert(list[9]@ == words[9]);
    assert(document_mark(mark("csv"@)) && "csv"@.len() >= 1 && text::lowered("csv"@) == "csv"@) by {
        reveal_strlit("csv");
        assert(text::lowered("csv"@) =~= "csv"@);
    }
    assert(list[10]@ == words[10]);
    assert(document_mark(mark("pages"@)) && "pages"@.len() >= 1 && text::lowered("pages"@) == "pages"@) by {
        reveal_strlit("pages");
        assert(text::lowered("pages"@) =~= "pages"@);
    }
    assert(list[11]@ == words[11]);
    assert(document_mark(mark("numbers"@)) && "numbers"@.len() >= 1 && text::lowered("numbers"@) == "numbers"@) by {
        reveal_strlit("numbers");
        assert(text::lowered("numbers"@) =~= "numbers"@);
    }
    assert(list[12]@ == words[12]);
    assert(document_mark(mark("key"@)) && "key"@.len() >= 1 && text::lowered("key"@) == "key"@) by {
        reveal_strlit("key");
        assert(text::lowered("key"@) =~= "key"@);
    }
    assert forall|i: int| 0 <= i < words.len() implies list[i]@ == #[trigger] words[i]
        && words[i].len() >= 1 && document_mark(mark(words[i])) && text::lowered(words[i])
        == words[i] by {
    }
    if spelled_as(ext, words) {
        let i = choose|i: int| 0 <= i < words.len() && text::all_alike(ext, #[trigger] words[i]);
        lemma_alike_mark(ext, words[i]);
        text::lemma_alike(ext, words[i]);
        assert(list[i]@ == text::lowered(ext));
    }
    if text::listed(text::lowered(ext), list) {
        let i = choose|i: int| 0 <= i < list.len() && #[trigger] list[i]@ == text::lowered(ext);
        assert(words[i] == list[i]@);
        text::lemma_alike(ext, words[i]);
    }
}

spec fn archive_mark(m: (nat, char, char, char)) -> bool {
    ||| m == (2nat, '7', 'z', 'z')
    ||| m == (2nat, 'g', 'z', 'z')
    ||| m == (2nat, 'x', 'z', 'z')
    ||| m == (3nat, 'b', 'z', '2')
    ||| m == (3nat, 'd', 'm', 'g')
    ||| m == (3nat, 'i', 's', 'o')
    ||| m == (3nat, 'r', 'a', 'r')
    ||| m == (3nat, 't', 'a', 'r')
    ||| m == (3nat, 't', 'g', 'z')
    ||| m == (3nat, 'z', 'i', 'p')
    ||| m == (3nat, 'z', 's', 't')
}

proof fn lemma_archive_words(ext: Seq<char>)
    ensures
        spelled_as(ext, archive_words()) == text::listed(text::lowered(ext), categories::ARCHIVE@),
        spelled_as(ext, archive_words()) ==> archive_mark(mark(ext)),
{
    let words = archive_words();
    let list = categories::ARCHIVE@;
    assert(list.len() == words.len());
    assert(list[0]@ == words[0]);
    assert(archive_mark(mark("zip"@)) && "zip"@.len() >= 1 && text::lowered("zip"@) == "zip"@) by {
        reveal_strlit("zip");
        assert(text::lowered("zip"@) =~= "zip"@);
    }
    assert(list[1]@ == words[1]);
    assert(archive_mark(mark("tar"@)) && "tar"@.len() >= 1 && text::lowered("tar"@) == "tar"@) by {
        reveal_strlit("tar");
        assert(text::lowered("tar"@) =~= "tar"@);
    }
    assert(list[2]@ == words[2]);
    assert(archive_mark(mark("gz"@)) && "gz"@.len() >= 1 && text::lowered("gz"@) == "gz"@) by {
        reveal_strlit("gz");
        assert(text::lowered("gz"@) =~= "gz"@);
    }
    assert(list[3]@ == words[3]);
    assert(archive_mark(mark("rar"@)) && "rar"@.len() >= 1 && text::lowered("rar"@) == "rar"@) by {
        reveal_strlit("rar");
        assert(text::lowered("rar"@) =~= "rar"@);
    }
    assert(list[4]@ == words[4]);
    assert(archive_mark(mark("7z"@)) && "7z"@.len() >= 1 && text::lowered("7z"@) == "7z"@) by {
        reveal_strlit("7z");
        assert(text::lowered("7z"@) =~= "7z"@);
    }
    assert(list[5]@ == words[5]);
    assert(archive_mark(mark("bz2"@)) && "bz2"@.len() >= 1 && text::lowered("bz2"@) == "bz2"@) by {
        reveal_strlit("bz2");
        assert(text::lowered("bz2"@) =~= "bz2"@);
    }
    assert(list[6]@ == words[6]);
    assert(archive_mark(mark("xz"@)) && "xz"@.len() >= 1 && text::lowered("xz"@) == "xz"@) by {
        reveal_strlit("xz");
        assert(text::lowered("xz"@) =~= "xz"@);
    }
    assert(list[7]@ == words[7]);
    assert(archive_mark(mark("tgz"@)) && "tgz"@.len() >= 1 && text::lowered("tgz"@) == "tgz"@) by {
        reveal_strlit("tgz");
        assert(text::lowered("tgz"@) =~= "tgz"@);
    }
    assert(list[8]@ == words[8]);
    assert(archive_mark(mark("zst"@)) && "zst"@.len() >= 1 && text::lowered("zst"@) == "zst"@) by {
        reveal_strlit("zst");
        assert(text::lowered("zst"@) =~= "zst"@);
    }
    assert(list[9]@ == words[9]);
    assert(archive_mark(mark("dmg"@)) && "dmg"@.len() >= 1 && text::lowered("dmg"@) == "dmg"@) by {
        reveal_strlit("dmg");
        assert(text::lowered("dmg"@) =~= "dmg"@);
    }
    assert(list[10]@ == words[10]);
    assert(archive_mark(mark("iso"@)) && "iso"@.len() >= 1 && text::lowered("iso"@) == "iso"@) by {
        reveal_strlit("iso");
        assert(text::lowered("iso"@) =~= "iso"@);
    }
    assert forall|i: int| 0 <= i < words.len() implies list[i]@ == #[trigger] words[i]
        && words[i].len() >= 1 && archive_mark(mark(words[i])) && text::lowered(words[i])
        == words[i] by {
    }
    if spelled_as(ext, words) {
        let i = choose|i: int| 0 <= i < words.len() && text::all_alike(ext, #[trigger] words[i]);
        lemma_alike_mark(ext, words[i]);
        text::lemma_alike(ext, words[i]);
        assert(list[i]@ == text::lowered(ext));
    }
    if text::listed(text::lowered(ext), list) {
        let i = choose|i: int| 0 <= i < list.len() && #[trigger] list[i]@ == text::lowered(ext);
        assert(words[i] == list[i]@);
        text::lemma_alike(ext, words[i]);
    }
}

spec fn code_mark(m: (nat, char, char, char)) -> bool {
    ||| m == (1nat, 'c', '.', 'c')
    ||| m == (1nat, 'h', '.', 'h')
    ||| m == (2nat, 'c', 's', 's')
    ||| m == (2nat, 'g', 'o', 'o')
    ||| m == (2nat, 'j', 's', 's')
    ||| m == (2nat, 'k', 't', 't')
    ||| m == (2nat, 'm', 'd', 'd')
    ||| m == (2nat, 'p', 'y', 'y')
    ||| m == (2nat, 'r', 'b', 'b')
    ||| m == (2nat, 'r', 's', 's')
    ||| m == (2nat, 't', 's', 's')
    ||| m == (3nat, 'c', 'f', 'g')
    ||| m == (3nat, 'c', 'p', 'p')
    ||| m == (3nat, 'c', 's', 's')
    ||| m == (3nat, 'h', 'p', 'p')
    ||| m == (3nat, 'h', 't', 'm')
    ||| m == (3nat, 'i', 'n', 'i')
    ||| m == (3nat, 'j', 's', 'x')
    ||| m == (3nat, 'm', 'd', 'x')
    ||| m == (3nat, 't', 's', 'x')
    ||| m == (3nat, 'v', 'u', 'e')
    ||| m == (3nat, 'x', 'm', 'l')
    ||| m == (3nat, 'y', 'm', 'l')
    ||| m == (4nat, 'c', 'o', 'f')
    ||| m == (4nat, 'h', 't', 'l')
    ||| m == (4nat, 'j', 'a', 'a')
    ||| m == (4nat, 'j', 's', 'n')
    ||| m == (4nat, 'l', 'e', 's')
    ||| m == (4nat, 'l', 'o', 'k')
    ||| m == (4nat, 's', 'a', 's')
    ||| m == (4nat, 's', 'c', 's')
    ||| m == (4nat, 't', 'o', 'l')
    ||| m == (4nat, 'y', 'a', 'l')
    ||| m == (5nat, 's', 'w', 't')
    ||| m == (6nat, 's', 'v', 'e')
}

proof fn lemma_code_words(ext: Seq<char>)
    ensures
        spelled_as(ext, code_words()) == text::listed(text::lowered(ext), categories::CODE@),
        spelled_as(ext, code_words()) ==> code_mark(mark(ext)),
{
    let words = code_words();
    let list = categories::CODE@;
    assert(list.len() == words.len());
    assert(list[0]@ == words[0]);
    assert(code_mark(mark("rs"@)) && "rs"@.len() >= 1 && text::lowered("rs"@) == "rs"@) by {
        reveal_strlit("rs");
        assert(text::lowered("rs"@) =~= "rs"@);
    }
    assert(list[1]@ == words[1]);
    assert(code_mark(mark("js"@)) && "js"@.len() >= 1 && text::lowered("js"@) == "js"@) by {
        reveal_strlit("js");
        assert(text::lowered("js"@) =~= "js"@);
    }
    assert(list[2]@ == words[2]);
    assert(code_mark(mark("ts"@)) && "ts"@.len() >= 1 && text::lowered("ts"@) == "ts"@) by {
        reveal_strlit("ts");
        assert(text::lowered("ts"@) =~= "ts"@);
    }
    assert(list[3]@ == words[3]);
    assert(code_mark(mark("py"@)) && "py"@.len() >= 1 && text::lowered("py"@) == "py"@) by {
        reveal_strlit("py");
        assert(text::lowered("py"@) =~= "py"@);
    }
    assert(list[4]@ == words[4]);
    assert(code_mark(mark("go"@)) && "go"@.len() >= 1 && text::lowered("go"@) == "go"@) by {
        reveal_strlit("go");
        assert(text::lowered("go"@) =~= "go"@);
    }
    assert(list[5]@ == words[5]);
    assert(code_mark(mark("c"@)) && "c"@.len() >= 1 && text::lowered("c"@) == "c"@) by {
        reveal_strlit("c");
        assert(text::lowered("c"@) =~= "c"@);
    }
    assert(list[6]@ == words[6]);
    assert(code_mark(mark("cpp"@)) && "cpp"@.len() >= 1 && text::lowered("cpp"@) == "cpp"@) by {
        reveal_strlit("cpp");
        assert(text::lowered("cpp"@) =~= "cpp"@);
    }
    assert(list[7]@ == words[7]);
    assert(code_mark(mark("h"@)) && "h"@.len() >= 1 && text::lowered("h"@) == "h"@) by {
        reveal_strlit("h");
        assert(text::lowered("h"@) =~= "h"@);
    }
    assert(list[8]@ == words[8]);
    assert(code_mark(mark("hpp"@)) && "hpp"@.len() >= 1 && text::lowered("hpp"@) == "hpp"@) by {
        reveal_strlit("hpp");
        assert(text::lowered("hpp"@) =~= "hpp"@);
    }
    assert(list[9]@ == words[9]);
    assert(code_mark(mark("java"@)) && "java"@.len() >= 1 && text::lowered("java"@) == "java"@) by {
        reveal_strlit("java");
        assert(text::lowered("java"@) =~= "java"@);
    }
    assert(list[10]@ == words[10]);
    assert(code_mark(mark("rb"@)) && "rb"@.len() >= 1 && text::lowered("rb"@) == "rb"@) by {
        reveal_strlit("rb");
        assert(text::lowered("rb"@) =~= "rb"@);
    }
    assert(list[11]@ == words[11]);
    assert(code_mark(mark("swift"@)) && "swift"@.len() >= 1 && text::lowered("swift"@) == "swift"@) by {
        reveal_strlit("swift");
        assert(text::lowered("swift"@) =~= "swift"@);
    }
    assert(list[12]@ == words[12]);
    assert(code_mark(mark("kt"@)) && "kt"@.len() >= 1 && text::lowered("kt"@) == "kt"@) by {
        reveal_strlit("kt");
        assert(text::lowered("kt"@) =~= "kt"@);
    }
    assert(list[13]@ == words[13]);
    assert(code_mark(mark("cs"@)) && "cs"@.len() >= 1 && text::lowered("cs"@) == "cs"@) by {
        reveal_strlit("cs");
        assert(text::lowered("cs"@) =~= "cs"@);
    }
    assert(list[14]@ == words[14]);
    assert(code_mark(mark("jsx"@)) && "jsx"@.len() >= 1 && text::lowered("jsx"@) == "jsx"@) by {
        reveal_strlit("jsx");
        assert(text::lowered("jsx"@) =~= "jsx"@);
    }
    assert(list[15]@ == words[15]);
    assert(code_mark(mark("tsx"@)) && "tsx"@.len() >= 1 && text::lowered("tsx"@) == "tsx"@) by {
        reveal_strlit("tsx");
        assert(text::lowered("tsx"@) =~= "tsx"@);
    }
    assert(list[16]@ == words[16]);
    assert(code_mark(mark("vue"@)) && "vue"@.len() >= 1 && text::lowered("vue"@) == "vue"@) by {
        reveal_strlit("vue");
        assert(text::lowered("vue"@) =~= "vue"@);
    }
    assert(list[17]@ == words[17]);
    assert(code_mark(mark("svelte"@)) && "svelte"@.len() >= 1 && text::lowered("svelte"@) == "svelte"@) by {
        reveal_strlit("svelte");
        assert(text::lowered("svelte"@) =~= "svelte"@);
    }
    assert(list[18]@ == words[18]);
    assert(code_mark(mark("json"@)) && "json"@.len() >= 1 && text::lowered("json"@) == "json"@) by {
        reveal_strlit("json");
        assert(text::lowered("json"@) =~= "json"@);
    }
    assert(list[19]@ == words[19]);
    assert(code_mark(mark("yaml"@)) && "yaml"@.len() >= 1 && text::lowered("yaml"@) == "yaml"@) by {
        reveal_strlit("yaml");
        assert(text::lowered("yaml"@) =~= "yaml"@);
    }
    assert(list[20]@ == words[20]);
    assert(code_mark(mark("yml"@)) && "yml"@.len() >= 1 && text::lowered("yml"@) == "yml"@) by {
        reveal_strlit("yml");
        assert(text::lowered("yml"@) =~= "yml"@);
    }
    assert(list[21]@ == words[21]);
    assert(code_mark(mark("toml"@)) && "toml"@.len() >= 1 && text::lowered("toml"@) == "toml"@) by {
        reveal_strlit("toml");
        assert(text::lowered("toml"@) =~= "toml"@);
    }
    assert(list[22]@ == words[22]);
    assert(code_mark(mark("xml"@)) && "xml"@.len() >= 1 && text::lowered("xml"@) == "xml"@) by {
        reveal_strlit("xml");
        assert(text::lowered("xml"@) =~= "xml"@);
    }
    assert(list[23]@ == words[23]);
    assert(code_mark(mark("ini"@)) && "ini"@.len() >= 1 && text::lowered("ini"@) == "ini"@) by {
        reveal_strlit("ini");
        assert(text::lowered("ini"@) =~= "ini"@);
    }
    assert(list[24]@ == words[24]);
    assert(code_mark(mark("cfg"@)) && "cfg"@.len() >= 1 && text::lowered("cfg"@) == "cfg"@) by {
        reveal_strlit("cfg");
        assert(text::lowered("cfg"@) =~= "cfg"@);
    }
    assert(list[25]@ == words[25]);
    assert(code_mark(mark("conf"@)) && "conf"@.len() >= 1 && text::lowered("conf"@) == "conf"@) by {
        reveal_strlit("conf");
        assert(text::lowered("conf"@) =~= "conf"@);
    }
    assert(list[26]@ == words[26]);
    assert(code_mark(mark("lock"@)) && "lock"@.len() >= 1 && text::lowered("lock"@) == "lock"@) by {
        reveal_strlit("lock");
        assert(text::lowered("lock"@) =~= "lock"@);
    }
    assert(list[27]@ == words[27]);
    assert(code_mark(mark("html"@)) && "html"@.len() >= 1 && text::lowered("html"@) == "html"@) by {
        reveal_strlit("html");
        assert(text::lowered("html"@) =~= "html"@);
    }
    assert(list[28]@ == words[28]);
    assert(code_mark(mark("htm"@)) && "htm"@.len() >= 1 && text::lowered("htm"@) == "htm"@) by {
        reveal_strlit("htm");
        assert(text::lowered("htm"@) =~= "htm"@);
    }
    assert(list[29]@ == words[29]);
    assert(code_mark(mark("css"@)) && "css"@.len() >= 1 && text::lowered("css"@) == "css"@) by {
        reveal_strlit("css");
        assert(text::lowered("css"@) =~= "css"@);
    }
    assert(list[30]@ == words[30]);
    assert(code_mark(mark("scss"@)) && "scss"@.len() >= 1 && text::lowered("scss"@) == "scss"@) by {
        reveal_strlit("scss");
        assert(text::lowered("scss"@) =~= "scss"@);
    }
    assert(list[31]@ == words[31]);
    assert(code_mark(mark("sass"@)) && "sass"@.len() >= 1 && text::lowered("sass"@) == "sass"@) by {
        reveal_strlit("sass");
        assert(text::lowered("sass"@) =~= "sass"@);
    }
    assert(list[32]@ == words[32]);
    assert(code_mark(mark("less"@)) && "less"@.len() >= 1 && text::lowered("less"@) == "less"@) by {
        reveal_strlit("less");
        assert(text::lowered("less"@) =~= "less"@);
    }
    assert(list[33]@ == words[33]);
    assert(code_mark(mark("md"@)) && "md"@.len() >= 1 && text::lowered("md"@) == "md"@) by {
        reveal_strlit("md");
        assert(text::lowered("md"@) =~= "md"@);
    }
    assert(list[34]@ == words[34]);
    assert(code_mark(mark("mdx"@)) && "mdx"@.len() >= 1 && text::lowered("mdx"@) == "mdx"@) by {
        reveal_strlit("mdx");
        assert(text::lowered("mdx"@) =~= "mdx"@);
    }
    assert forall|i: int| 0 <= i < words.len() implies list[i]@ == #[trigger] words[i]
        && words[i].len() >= 1 && code_mark(mark(words[i])) && text::lowered(words[i])
        == words[i] by {
    }
    if spelled_as(ext, words) {
        let i = choose|i: int| 0 <= i < words.len() && text::all_alike(ext, #[trigger] words[i]);
        lemma_alike_mark(ext, words[i]);
        text::lemma_alike(ext, words[i]);
        assert(list[i]@ == text::lowered(ext));
    }
    if text::listed(text::lowered(ext), list) {
        let i = choose|i: int| 0 <= i < list.len() && #[trigger] list[i]@ == text::lowered(ext);
        assert(words[i] == list[i]@);
        text::lemma_alike(ext, words[i]);
    }
}

/// A file is of the category that has what follows the last dot of its name, whatever the
/// case of ASCII letters, and of no other; where none has it, it is of the last category.
pub proof fn lemma_category(name: Seq<char>)
    ensures
        ({
            let ext = text::extension(name);
            let cat = categories::category_of(name);
            &&& cat == FileCategory::Video <==> spelled_as(ext, video_words())
            &&& cat == FileCategory::Image <==> spelled_as(ext, image_words())
            &&& cat == FileCategory::Audio <==> spelled_as(ext, audio_words())
            &&& cat == FileCategory::Document <==> spelled_as(ext, document_words())
            &&& cat == FileCategory::Archive <==> spelled_as(ext, archive_words())
            &&& cat == FileCategory::Code <==> spelled_as(ext, code_words())
        }),
{
    let ext = text::extension(name);
    lemma_video_words(ext);
    lemma_image_words(ext);
    lemma_audio_words(ext);
    lemma_document_words(ext);
    lemma_archive_words(ext);
    lemma_code_words(ext);
}

/// A file is of the same category whatever stands before the last dot of its name, and
/// whatever the case of ASCII letters behind it.
pub proof fn lemma_category_of_ending(
    stem: Seq<char>,
    ext: Seq<char>,
    other: Seq<char>,
    like: Seq<char>,
)
    requires
        !ext.contains('.'),
        text::all_alike(ext, like),
    ensures
        categories::category_of(stem.push('.') + ext) == categories::category_of(
            other.push('.') + like,
        ),
        categories::category_of(ext) == categories::category_of(stem.push('.') + ext),
{
    assert(!like.contains('.')) by {
        if like.contains('.') {
            let i = like.index_of('.');
            assert(text::alike(ext[i], like[i]));
            assert(ext[i] == '.');
        }
    }
    text::lemma_extension(stem, ext);
    text::lemma_extension(other, like);
    text::lemma_alike(ext, like);
}

/// In a treemap a file has the colour of its category, but for program text, which is told
/// apart further, and what has no category of its own.
pub proof fn lemma_colors_agree(name: Seq<char>)
    ensures
        ({
            let cat = categories::category_of(name);
            !(cat is Code || cat is Other) ==> treemap::entry_hue(name, false) == cat.hue()
        }),
        text::listed(text::lowered(text::extension(name)), treemap::SOURCE@)
            && categories::category_of(name) is Code ==> treemap::entry_hue(name, false)
            == FileCategory::Code.hue(),
{
}

/// What each category is called; no two look the same.
pub proof fn lemma_titles(cat: FileCategory, other: FileCategory)
    ensures
        FileCategory::Video.title() == "Videos"@,
        FileCategory::Image.title() == "Images"@,
        FileCategory::Audio.title() == "Audio"@,
        FileCategory::Document.title() == "Documents"@,
        FileCategory::Archive.title() == "Archives"@,
        FileCategory::Code.title() == "Code"@,
        FileCategory::Other.title() == "Other"@,
        cat.hue() == other.hue() ==> cat == other,
{
}

} // verus!
