//! What is remembered from one start to the next.

use vstd::prelude::*;

use crate::path;
use crate::path::NodePath;

verus! {

/// The key of the path that was scanned last.
pub const LAST_PATH: &'static str = "last_path";

/// The key of the choice to show hidden entries.
pub const SHOW_HIDDEN: &'static str = "show_hidden";

/// The text that `serde_json` finds under a key of an object. None where the
/// document is no such object, or something else stands there.
pub uninterp spec fn json_text(document: Seq<char>, key: Seq<char>) -> Option<Seq<char>>;

/// `serde_json::from_str` into a `Value`, then `Value::index` and
/// `Value::as_str`: the text under a key.
#[verifier::external_body]
fn read_text(document: &str, key: &str) -> (text: Option<String>)
    ensures
        match text {
            Some(text) => json_text(document@, key@) == Some(text@),
            None => json_text(document@, key@) is None,
        },
{
    let value: serde_json::Value = serde_json::from_str(document).ok()?;
    value[key].as_str().map(String::from)
}

/// The truth value that `serde_json` finds under a key of an object. None
/// where the document is no such object, or something else stands there.
pub uninterp spec fn json_flag(document: Seq<char>, key: Seq<char>) -> Option<bool>;

/// `serde_json::from_str` into a `Value`, then `Value::index` and
/// `Value::as_bool`: the truth value under a key.
#[verifier::external_body]
fn read_flag(document: &str, key: &str) -> (flag: Option<bool>)
    ensures
        flag == json_flag(document@, key@),
{
    let value: serde_json::Value = serde_json::from_str(document).ok()?;
    value[key].as_bool()
}

/// The object that `serde_json` writes with a text under one key and a truth
/// value under another.
pub uninterp spec fn json_object(
    text_key: Seq<char>,
    text: Seq<char>,
    flag_key: Seq<char>,
    flag: bool,
) -> Seq<char>;

/// `serde_json::Map::insert` and the `Display` of a `serde_json::Value`: an
/// object with two keys. Read again, it has what was written under each of
/// them, unless the keys are the same.
#[verifier::external_body]
fn write_object(text_key: &str, text: &str, flag_key: &str, flag: bool) -> (document: String)
    ensures
        document@ == json_object(text_key@, text@, flag_key@, flag),
        text_key@ != flag_key@ ==> json_text(document@, text_key@) == Some(text@) && json_flag(
            document@,
            flag_key@,
        ) == Some(flag),
{
    let mut object = serde_json::Map::new();
    object.insert(text_key.to_string(), serde_json::Value::from(text));
    object.insert(flag_key.to_string(), serde_json::Value::from(flag));
    serde_json::Value::Object(object).to_string()
}

/// The path that was scanned last, and whether hidden entries are shown, from
/// what was found under their keys. Hidden entries are not shown unless it is
/// said.
pub open spec fn chosen(last_path: Option<Seq<char>>, show_hidden: Option<bool>) -> (
    Option<Seq<char>>,
    bool,
) {
    (last_path, show_hidden == Some(true))
}

/// What a document says; nothing where there is none.
pub open spec fn loaded(document: Option<Seq<char>>) -> (Option<Seq<char>>, bool) {
    match document {
        Some(document) => chosen(
            json_text(document, LAST_PATH@),
            json_flag(document, SHOW_HIDDEN@),
        ),
        None => (None, false),
    }
}

/// What to go by, from what was found.
pub fn apply_found(last_path: Option<String>, show_hidden: Option<bool>) -> (found: (
    Option<String>,
    bool,
))
    ensures
        ({
            let last = match last_path {
                Some(path) => Some(path@),
                None => None,
            };
            let result = match found.0 {
                Some(path) => Some(path@),
                None => None,
            };
            (result, found.1) == chosen(last, show_hidden)
        }),
{
    let shown: bool = match show_hidden {
        Some(shown) => shown,
        None => false,
    };
    (last_path, shown)
}

/// The path that was scanned last, and whether hidden entries are shown, from
/// the document that was saved, where there is one.
pub fn load_config(document: Option<&str>) -> (found: (Option<String>, bool))
    ensures
        ({
            let result = match found.0 {
                Some(path) => Some(path@),
                None => None,
            };
            let saved = match document {
                Some(document) => Some(document@),
                None => None,
            };
            (result, found.1) == loaded(saved)
        }),
{
    match document {
        Some(document) => apply_found(
            read_text(document, LAST_PATH),
            read_flag(document, SHOW_HIDDEN),
        ),
        None => (None, false),
    }
}

/// The document to save. Loading it gives back what was saved.
pub fn save_config(last_path: &str, show_hidden: bool) -> (document: String)
    ensures
        document@ == json_object(LAST_PATH@, last_path@, SHOW_HIDDEN@, show_hidden),
        loaded(Some(document@)) == (Some(last_path@), show_hidden),
{
    proof {
        reveal_strlit("last_path");
        reveal_strlit("show_hidden");
        assert(LAST_PATH@.len() != SHOW_HIDDEN@.len());
    }
    write_object(LAST_PATH, last_path, SHOW_HIDDEN, show_hidden)
}

/// Where the document is kept in the user's directory of settings.
pub fn config_path(dir: Option<&NodePath>) -> (file: Option<NodePath>)
    ensures
        match dir {
            Some(dir) => file is Some && file->0.place() == path::join_place(
                path::join_place(dir.place(), "disk-cleaner"@),
                "config.json"@,
            ),
            None => file is None,
        },
{
    match dir {
        Some(dir) => Some(dir.join("disk-cleaner").join("config.json")),
        None => None,
    }
}

/// Hidden entries are shown only where a document says so; the path is the one it has.
pub proof fn lemma_chosen(last_path: Option<Seq<char>>, show_hidden: Option<bool>)
    ensures
        ({
            let (path, hidden) = chosen(last_path, show_hidden);
            &&& path == last_path
            &&& show_hidden is None ==> !hidden
            &&& show_hidden is Some ==> hidden == show_hidden->0
        }),
        ({
            let (path, hidden) = loaded(None);
            path is None && !hidden
        }),
{
}

/// What was saved is loaded again, both the path and whether hidden entries are shown.
pub proof fn lemma_saved_is_loaded(
    last_path: &str,
    show_hidden: bool,
    document: String,
    text: &str,
    found: (Option<String>, bool),
)
    requires
        call_ensures(save_config, (last_path, show_hidden), document),
        text@ == document@,
        call_ensures(load_config, (Some(text),), found),
    ensures
        found.0 is Some,
        found.0->0@ == last_path@,
        found.1 == show_hidden,
{
}

/// The document is kept in a directory of its own in the directory of settings.
pub proof fn lemma_kept_apart(dir: &NodePath, file: Option<NodePath>)
    requires
        call_ensures(config_path, (Some(dir),), file),
    ensures
        file is Some,
        file->0.place().parts == dir.place().parts.push("disk-cleaner"@).push("config.json"@),
{
    reveal_strlit("disk-cleaner");
    reveal_strlit("config.json");
    assert("disk-cleaner"@ != seq!['.'] && "config.json"@ != seq!['.']) by {
        assert("disk-cleaner"@.len() != 1 && "config.json"@.len() != 1);
    }
    path::lemma_join_plain(dir.place().parts, "disk-cleaner"@);
    path::lemma_join_plain(dir.place().parts.push("disk-cleaner"@), "config.json"@);
}

} // verus!
