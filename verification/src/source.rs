//! Where icon data comes from: the decisions about paths, file names, URLs
//! and the pinned Iconify version. Reading directories, files, the environment
//! and the network is left to the caller.
use vstd::prelude::*;
use crate::collection::KnownPrefixes;
use crate::text::{
    chars_of, push_str, same_text, skip_space, skip_space_back, string_of, trim, views,
};

verus! {

/// `base` joined with the relative path `name`, as `PathBuf::push` does on
/// Unix: a `/` goes between them unless `base` is empty or already ends in one.
pub open spec fn joined_path(base: Seq<char>, name: Seq<char>) -> Seq<char> {
    if base.len() == 0 || base[base.len() - 1] == '/' {
        base + name
    } else {
        base + seq!['/'] + name
    }
}

/// Joins the relative path `name` onto `base`.
pub fn join_path(base: &str, name: &str) -> (r: String)
    ensures
        r@ == joined_path(base@, name@),
{
    let v = chars_of(base);
    let n = v.len();
    let mut r = string_of(&v, 0, n);
    assert(v@.subrange(0, n as int) =~= base@);
    if n > 0 && v[n - 1] != '/' {
        push_str(&mut r, "/");
        proof {
            reveal_strlit("/");
        }
        assert("/"@ =~= seq!['/']);
    }
    push_str(&mut r, name);
    r
}

/// The directory of a local Iconify checkout: its `json` subdirectory when it
/// has one (`has_json_dir`), else the directory itself.
pub fn normalize_local_dir(dir: &str, has_json_dir: bool) -> (r: String)
    ensures
        has_json_dir ==> r@ == joined_path(dir@, "json"@),
        !has_json_dir ==> r@ == dir@,
{
    if has_json_dir {
        join_path(dir, "json")
    } else {
        dir.to_owned()
    }
}

/// `s` without surrounding whitespace.
pub fn trim_text(s: &str) -> (r: String)
    ensures
        r@ == trim(s@),
{
    let v = chars_of(s);
    let n = v.len();
    let a = skip_space(&v, 0, n);
    let b = skip_space_back(&v, a, n);
    assert(v@.subrange(0, n as int) =~= s@);
    string_of(&v, a, b)
}

/// The Iconify version in use: the one from the environment, else the one
/// from a version file, else the bundled one, without surrounding whitespace.
pub fn select_iconify_version(from_env: Option<&str>, from_file: Option<&str>, bundled: &str) -> (r:
    String)
    ensures
        r@ == trim(
            match from_env {
                Some(v) => v@,
                None => match from_file {
                    Some(v) => v@,
                    None => bundled@,
                },
            },
        ),
{
    match from_env {
        Some(v) => trim_text(v),
        None => match from_file {
            Some(v) => trim_text(v),
            None => trim_text(bundled),
        },
    }
}

/// The suffix that marks a collection file.
pub open spec fn json_suffix() -> Seq<char> {
    seq!['.', 'j', 's', 'o', 'n']
}

/// The prefix of the collection a file holds: the stem of a file whose
/// extension is `json`. A name that is only `.json` has no extension.
pub open spec fn json_stem(name: Seq<char>) -> Option<Seq<char>> {
    if name.len() > json_suffix().len() && name.skip(name.len() - json_suffix().len())
        == json_suffix() {
        Some(name.take(name.len() - json_suffix().len()))
    } else {
        None
    }
}

/// The collection prefix that a file of a local Iconify checkout holds, if
/// the file is a collection.
pub fn json_collection_prefix(file_name: &str) -> (r: Option<String>)
    ensures
        r matches Some(p) ==> json_stem(file_name@) == Some(p@),
        r is None ==> json_stem(file_name@) is None,
{
    let v = chars_of(file_name);
    let n = v.len();
    if n > 5 && v[n - 5] == '.' && v[n - 4] == 'j' && v[n - 3] == 's' && v[n - 2] == 'o' && v[n
        - 1] == 'n' {
        assert(file_name@.skip(n - 5) =~= json_suffix());
        let stem = string_of(&v, 0, n - 5);
        assert(stem@ =~= file_name@.take(n - 5));
        Some(stem)
    } else {
        proof {
            if n > 5 && file_name@.skip(n - 5) == json_suffix() {
                assert(file_name@.skip(n - 5)[0] == v@[n - 5]);
                assert(file_name@.skip(n - 5)[1] == v@[n - 4]);
                assert(file_name@.skip(n - 5)[2] == v@[n - 3]);
                assert(file_name@.skip(n - 5)[3] == v@[n - 2]);
                assert(file_name@.skip(n - 5)[4] == v@[n - 1]);
            }
        }
        None
    }
}

/// The file that holds the collection `prefix`.
pub fn collection_file_name(prefix: &str) -> (r: String)
    ensures
        r@ == prefix@ + ".json"@,
{
    let mut r = prefix.to_owned();
    push_str(&mut r, ".json");
    r
}

/// Where the collection `prefix` lies in the Iconify repository.
pub fn collection_url_path(prefix: &str) -> (r: String)
    ensures
        r@ == "json/"@ + prefix@ + ".json"@,
{
    let mut r = "json/".to_owned();
    push_str(&mut r, prefix);
    push_str(&mut r, ".json");
    r
}

/// The address of a file of the Iconify repository at `version`.
pub fn remote_url(version: &str, url_path: &str) -> (r: String)
    ensures
        r@ == "https://raw.githubusercontent.com/iconify/icon-sets/"@ + version@ + "/"@ + url_path@,
{
    let mut r = "https://raw.githubusercontent.com/iconify/icon-sets/".to_owned();
    push_str(&mut r, version);
    push_str(&mut r, "/");
    push_str(&mut r, url_path);
    r
}

/// Whether the preprocessor works for the renderer: only for `html`.
pub fn supports_renderer(renderer: &str) -> (b: bool)
    ensures
        b == (renderer@ == "html"@),
{
    same_text(renderer, "html")
}

#[verifier::external_type_specification]
#[verifier::external_body]
pub struct ExJsonError(serde_json::Error);

/// The keys of the JSON object that `bytes` hold, in the order of
/// `serde_json::Map`; none when `from_slice` rejects `bytes`: when they are no
/// JSON object, or nest deeper than the parser's recursion limit.
pub uninterp spec fn json_object_keys(bytes: Seq<u8>) -> Option<Seq<Seq<char>>>;

/// Calls `serde_json::from_slice` into a `serde_json::Map` and keeps its keys.
/// Trusted: the keys are a function of the bytes alone (`json_object_keys`),
/// and parsing fails exactly when they hold no JSON object.
#[verifier::external_body]
fn parse_object_keys(bytes: &[u8]) -> (r: Result<Vec<String>, serde_json::Error>)
    ensures
        r matches Ok(keys) ==> json_object_keys(bytes@) == Some(views(keys@)),
        r is Err ==> json_object_keys(bytes@) is None,
{
    serde_json::from_slice::<serde_json::Map<String, serde_json::Value>>(bytes).map(
        |map| map.into_iter().map(|(key, _)| key).collect(),
    )
}

/// Calls `Display::to_string` on a `serde_json::Error`; nothing is claimed of
/// the text.
#[verifier::external_body]
fn json_error_text(err: &serde_json::Error) -> String {
    err.to_string()
}

/// Why icon data could not be read.
#[derive(Debug)]
pub enum SourceError {
    /// The Iconify collections index is no JSON object; the parser's message.
    CollectionsIndex(String),
}

/// The collection prefixes listed by Iconify's `collections.json`: the keys of
/// its top-level object.
pub fn prefixes_from_index(bytes: &[u8]) -> (r: Result<KnownPrefixes, SourceError>)
    ensures
        r matches Ok(k) ==> json_object_keys(bytes@) matches Some(keys) && k@ == keys.to_set(),
        r is Err <==> json_object_keys(bytes@) is None,
{
    match parse_object_keys(bytes) {
        Ok(keys) => Ok(KnownPrefixes::from_names(keys)),
        Err(e) => Err(SourceError::CollectionsIndex(json_error_text(&e))),
    }
}

} // verus!
