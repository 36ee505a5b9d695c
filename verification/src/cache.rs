//! Content hashing for the per-definition embedding cache.

use std::hash::BuildHasher;
use vstd::prelude::*;
use crate::text::{ascii_alphanumeric, chars_of, extend_chars, hex_chars, hex_digits, is_ascii_alphanumeric, string_of};
use crate::walk::{file_name, file_name_of};

verus! {

/// The 64-bit value that std's default hasher (`DefaultHasher::new()`, fixed keys)
/// produces for a string.
pub uninterp spec fn default_str_hash(text: Seq<char>) -> u64;

/// `BuildHasher::hash_one` over `BuildHasherDefault<DefaultHasher>`: hashes `text`
/// with a freshly created default hasher.  Its value is a function of the text alone.
#[verifier::external_body]
fn hash_str(text: &str) -> (h: u64)
    ensures
        h == default_str_hash(text@),
{
    std::hash::BuildHasherDefault::<std::collections::hash_map::DefaultHasher>::default().hash_one(text)
}

/// 64-bit content hash of a definition's body text (the default hasher's value,
/// reinterpreted as a signed integer).
pub fn body_hash(text: &str) -> (h: i64)
    ensures
        h == default_str_hash(text@) as i64,
{
    hash_str(text) as i64
}


/// Characters kept in a cache file name; others become `_`.
pub open spec fn name_char(c: char) -> char {
    if ascii_alphanumeric(c) || c == '-' || c == '_' {
        c
    } else {
        '_'
    }
}

/// `<name>-<hash:016x>.db` for a repository at canonical path `canon` whose
/// path hash is `hash`, where `name` is the directory's name (or `repo`) with
/// unusual characters replaced.
pub open spec fn cache_file_name_with(canon: Seq<char>, hash: u64) -> Seq<char> {
    let base = match file_name_of(canon) {
        Some(n) => n,
        None => "repo"@,
    };
    Seq::new(base.len(), |i: int| name_char(base[i])) + "-"@ + hex_digits(hash as nat, 16) + ".db"@
}

/// The cache file name of the repository at canonical path `canon`.
pub open spec fn cache_file_name_of(canon: Seq<char>) -> Seq<char> {
    cache_file_name_with(canon, default_str_hash(canon))
}

/// File name of the embedding cache of the repository whose canonical path is
/// `canon`: keyed by the path's hash so distinct repositories never share one.
pub fn cache_file_name(canon: &str) -> (r: String)
    ensures
        r@ == cache_file_name_of(canon@),
{
    cache_file_name_for(canon, hash_str(canon))
}

/// The cache file name for canonical path `canon` and path hash `hash`.
pub fn cache_file_name_for(canon: &str, hash: u64) -> (r: String)
    ensures
        r@ == cache_file_name_with(canon@, hash),
{
    let base = match file_name(canon) {
        Some(n) => chars_of(n.as_str()),
        None => chars_of("repo"),
    };
    let mut out: Vec<char> = Vec::new();
    let mut i: usize = 0;
    while i < base.len()
        invariant
            i <= base@.len(),
            out@ == Seq::new(i as nat, |j: int| name_char(base@[j])),
        decreases base@.len() - i,
    {
        let c = base[i];
        if is_ascii_alphanumeric(c) || c == '-' || c == '_' {
            out.push(c);
        } else {
            out.push('_');
        }
        i = i + 1;
        assert(out@ =~= Seq::new(i as nat, |j: int| name_char(base@[j])));
    }
    extend_chars(&mut out, &chars_of("-"));
    extend_chars(&mut out, &hex_chars(hash, 16));
    extend_chars(&mut out, &chars_of(".db"));
    string_of(&out)
}

} // verus!
