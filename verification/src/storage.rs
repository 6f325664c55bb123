//! Where originals and thumbnails lie below a library's directory.
use vstd::prelude::*;

use crate::paths;
use crate::text;

verus! {

/// How many bytes a character takes in UTF-8.
pub open spec fn width(c: char) -> int {
    if (c as u32) < 0x80 {
        1
    } else if (c as u32) < 0x800 {
        2
    } else if (c as u32) < 0x10000 {
        3
    } else {
        4
    }
}

/// How many characters of `s` its first `n` bytes hold, if they end between two
/// characters.
pub open spec fn chars_in(s: Seq<char>, n: int) -> Option<int>
    decreases s.len(),
{
    if n == 0 {
        Some(0)
    } else if s.len() == 0 || width(s[0]) > n {
        None
    } else {
        match chars_in(s.skip(1), n - width(s[0])) {
            Some(k) => Some(k + 1),
            None => None,
        }
    }
}

fn width_of(c: char) -> (r: usize)
    ensures
        r == width(c),
{
    if (c as u32) < 0x80 {
        1
    } else if (c as u32) < 0x800 {
        2
    } else if (c as u32) < 0x10000 {
        3
    } else {
        4
    }
}

proof fn lemma_chars_in(s: Seq<char>, n: int)
    requires
        0 <= n,
    ensures
        chars_in(s, n) matches Some(k) ==> 0 <= k <= s.len() && k <= n,
    decreases s.len(),
{
    if n > 0 && s.len() > 0 && width(s[0]) <= n {
        lemma_chars_in(s.skip(1), n - width(s[0]));
    }
}

/// The first bytes of a text end no later than more of them.
proof fn lemma_chars_in_grows(s: Seq<char>, m: int, n: int)
    requires
        0 <= m <= n,
        chars_in(s, m) is Some,
        chars_in(s, n) is Some,
    ensures
        chars_in(s, m)->0 <= chars_in(s, n)->0,
    decreases s.len(),
{
    lemma_chars_in(s, n);
    if m > 0 {
        lemma_chars_in_grows(s.skip(1), m - width(s[0]), n - width(s[0]));
    }
}

/// How many characters of `cs` the first `n` bytes hold, if they end between
/// two characters.
fn count_chars(cs: &Vec<char>, n: usize) -> (r: Option<usize>)
    ensures
        r is Some <==> chars_in(cs@, n as int) is Some,
        r matches Some(k) ==> chars_in(cs@, n as int) == Some(k as int) && k <= cs.len(),
{
    let mut i: usize = 0;
    let mut left: usize = n;
    assert(cs@.skip(0) =~= cs@);
    while left > 0
        invariant
            i <= cs.len(),
            left <= n,
            chars_in(cs@, n as int) is Some <==> chars_in(cs@.skip(i as int), left as int) is Some,
            chars_in(cs@, n as int) is Some ==> chars_in(cs@, n as int)->0 == i + chars_in(
                cs@.skip(i as int),
                left as int,
            )->0,
        decreases left,
    {
        if i >= cs.len() {
            return None;
        }
        let w: usize = width_of(cs[i]);
        if w > left {
            return None;
        }
        assert(cs@.skip(i as int).skip(1) =~= cs@.skip(i + 1));
        left = left - w;
        i = i + 1;
    }
    Some(i)
}

/// Whether a hash has a character boundary behind its second and its fourth
/// byte, so that directories can be named after it.
pub open spec fn shardable(hash: Seq<char>) -> bool {
    chars_in(hash, 2) is Some && chars_in(hash, 4) is Some
}

/// Whether directories can be named after `hash`.
pub fn can_shard(hash: &str) -> (r: bool)
    ensures
        r == shardable(hash@),
{
    let cs = text::chars_of(hash);
    count_chars(&cs, 2).is_some() && count_chars(&cs, 4).is_some()
}

/// The directory for `hash` below `root`: one level named by its first two
/// bytes, one by the two behind them.
pub open spec fn shard(root: Seq<char>, hash: Seq<char>) -> Seq<char> {
    let a = chars_in(hash, 2)->0;
    let b = chars_in(hash, 4)->0;
    paths::joined(paths::joined(root, hash.take(a)), hash.subrange(a, b))
}

/// The directory for `hash` below `root`, such as `ab/cd` for `abcd1234`.
pub fn shard_dir(root: &str, hash: &str) -> (r: String)
    requires
        shardable(hash@),
    ensures
        r@ == shard(root@, hash@),
{
    let cs = text::chars_of(hash);
    let a: usize = count_chars(&cs, 2).unwrap();
    let b: usize = count_chars(&cs, 4).unwrap();
    proof {
        lemma_chars_in_grows(hash@, 2, 4);
    }
    let first = hash.substring_char(0, a);
    assert(first@ =~= hash@.take(a as int));
    let second = hash.substring_char(a, b);
    let upper = paths::join(root, first);
    paths::join(upper.as_str(), second)
}

/// Where the original with this hash and extension lies.
pub open spec fn original_at(library: Seq<char>, hash: Seq<char>, ext: Seq<char>) -> Seq<char> {
    paths::joined(shard(paths::joined(library, "originals"@), hash), hash.push('.') + ext)
}

/// Where the thumbnail of this size lies.
pub open spec fn thumbnail_at(library: Seq<char>, hash: Seq<char>, size: Seq<char>) -> Seq<char> {
    paths::joined(shard(paths::joined(library, "thumbnails"@), hash), hash.push('_') + size + ".jpg"@)
}

/// Where the original with this hash and extension lies.
pub fn original_path(library_path: &str, hash: &str, ext: &str) -> (r: String)
    requires
        shardable(hash@),
    ensures
        r@ == original_at(library_path@, hash@, ext@),
{
    let top = paths::join(library_path, "originals");
    let dir = shard_dir(top.as_str(), hash);
    let mut name = hash.to_owned();
    name.push('.');
    name.append(ext);
    paths::join(dir.as_str(), name.as_str())
}

/// Where the thumbnail of this size lies.
pub fn thumbnail_path(library_path: &str, hash: &str, size: &str) -> (r: String)
    requires
        shardable(hash@),
    ensures
        r@ == thumbnail_at(library_path@, hash@, size@),
{
    let top = paths::join(library_path, "thumbnails");
    let dir = shard_dir(top.as_str(), hash);
    let mut name = hash.to_owned();
    name.push('_');
    name.append(size);
    name.append(".jpg");
    paths::join(dir.as_str(), name.as_str())
}

/// The thumbnails of a photo, which go when the photo is deleted: the small and
/// the medium one.
pub fn thumbnail_paths(library_path: &str, hash: &str) -> (r: Vec<String>)
    requires
        shardable(hash@),
    ensures
        text::texts(r@) == seq![
            thumbnail_at(library_path@, hash@, "sm"@),
            thumbnail_at(library_path@, hash@, "md"@),
        ],
{
    let mut out: Vec<String> = Vec::new();
    out.push(thumbnail_path(library_path, hash, "sm"));
    out.push(thumbnail_path(library_path, hash, "md"));
    assert(text::texts(out@) =~= seq![
        thumbnail_at(library_path@, hash@, "sm"@),
        thumbnail_at(library_path@, hash@, "md"@),
    ]);
    out
}

/// A hexadecimal hash of at least four digits can name directories, which are
/// its first two digits and the two behind them.
pub proof fn law_hex_hash_shards(hash: Seq<char>)
    requires
        hash.len() >= 4,
        forall|i: int| 0 <= i < hash.len() ==> text::is_hex(#[trigger] hash[i]),
    ensures
        shardable(hash),
        forall|root: Seq<char>| #[trigger]
            shard(root, hash) == paths::joined(paths::joined(root, hash.subrange(0, 2)), hash.subrange(2, 4)),
{
    reveal_with_fuel(chars_in, 5);
    assert(text::is_hex(hash[0]) && text::is_hex(hash[1]) && text::is_hex(hash[2]) && text::is_hex(hash[3]));
    assert(hash.skip(1)[0] == hash[1]);
    assert(hash.skip(1).skip(1)[0] == hash[2]);
    assert(hash.skip(1).skip(1).skip(1)[0] == hash[3]);
    assert(chars_in(hash, 2) == Some(2int));
    assert(chars_in(hash, 4) == Some(4int));
    assert(hash.take(2) =~= hash.subrange(0, 2));
}

/// The original of a hexadecimal hash lies inside the library, in a directory
/// for its first two digits and one for the two behind them.
#[verifier::rlimit(30)]
pub proof fn law_original_lies_in_library(library: Seq<char>, hash: Seq<char>, ext: Seq<char>)
    requires
        hash.len() >= 4,
        forall|i: int| 0 <= i < hash.len() ==> text::is_hex(#[trigger] hash[i]),
        !ext.contains('/'),
    ensures
        shardable(hash),
        paths::components(original_at(library, hash, ext)) == paths::components(library) + seq![
            "originals"@,
            hash.subrange(0, 2),
            hash.subrange(2, 4),
            hash.push('.') + ext,
        ],
{
    law_hex_hash_shards(hash);
    reveal_strlit("originals");
    reveal_strlit(".");
    let top = paths::joined(library, "originals"@);
    let a = hash.subrange(0, 2);
    let b = hash.subrange(2, 4);
    let file = hash.push('.') + ext;
    let upper = paths::joined(top, a);
    let dir = paths::joined(upper, b);
    assert("originals"@[0] == 'o');
    paths::law_joined_name_is_child(library, "originals"@);
    assert forall|c: char| a.contains(c) || b.contains(c) implies text::is_hex(c) by {
        if a.contains(c) {
            assert(hash[a.index_of(c)] == c);
        } else {
            assert(hash[b.index_of(c) + 2] == c);
        }
    }
    paths::law_joined_name_is_child(top, a);
    paths::law_joined_name_is_child(upper, b);
    assert(!file.contains('/')) by {
        if file.contains('/') {
            let k = file.index_of('/');
            if k < hash.len() {
                assert(hash[k] == '/');
            } else if k > hash.len() {
                assert(ext[k - hash.len() - 1] == '/');
                assert(ext.contains('/'));
            }
        }
    }
    paths::law_joined_name_is_child(dir, file);
    assert(shard(top, hash) == dir);
    assert(paths::components(original_at(library, hash, ext)) =~= paths::components(library) + seq![
        "originals"@,
        a,
        b,
        file,
    ]);
}

/// A character is as wide as its UTF-8 encoding.
pub proof fn law_width_is_that_of_the_encoding(c: char)
    ensures
        width(c) == vstd::utf8::encode_scalar(c as u32).len(),
{
}

/// The first bytes of a text hold so many characters exactly if these, encoded,
/// are so many bytes.
pub proof fn law_characters_fill_the_bytes(s: Seq<char>, n: int, k: int)
    requires
        n >= 0,
        0 <= k <= s.len(),
    ensures
        chars_in(s, n) == Some(k) <==> vstd::utf8::encode_utf8(s.take(k)).len() == n,
    decreases s.len(),
{
    let part = s.take(k);
    if k > 0 {
        let rest = s.skip(1);
        let w = width(s[0]);
        assert(part[0] == s[0]);
        assert(part.drop_first() =~= rest.take(k - 1));
        law_width_is_that_of_the_encoding(s[0]);
        assert(vstd::utf8::encode_utf8(part) == vstd::utf8::encode_scalar(s[0] as u32) + vstd::utf8::encode_utf8(
            part.drop_first(),
        ));
        assert(vstd::utf8::encode_utf8(part).len() == w + vstd::utf8::encode_utf8(rest.take(k - 1)).len());
        if n >= w {
            law_characters_fill_the_bytes(rest, n - w, k - 1);
        }
        lemma_chars_in(s, n);
    } else {
        assert(vstd::utf8::encode_utf8(part).len() == 0);
        if n > 0 {
            if s.len() > 0 && width(s[0]) <= n {
                lemma_chars_in(s.skip(1), n - width(s[0]));
            }
        }
    }
}

/// A hash can name directories exactly if two of its bytes, and four of them, are
/// whole characters.
pub proof fn law_shardable_hash(hash: Seq<char>, a: int, b: int)
    requires
        0 <= a <= hash.len() && 0 <= b <= hash.len(),
        vstd::utf8::encode_utf8(hash.take(a)).len() == 2,
        vstd::utf8::encode_utf8(hash.take(b)).len() == 4,
    ensures
        shardable(hash),
        forall|root: Seq<char>| #[trigger]
            shard(root, hash) == paths::joined(paths::joined(root, hash.take(a)), hash.subrange(a, b)),
{
    law_characters_fill_the_bytes(hash, 2, a);
    law_characters_fill_the_bytes(hash, 4, b);
}

/// The thumbnails of a hexadecimal hash lie inside the library, apart from the
/// originals, in a directory for its first two digits and one for the two behind
/// them. Each size has a file of its own.
pub proof fn law_thumbnail_lies_in_library(library: Seq<char>, hash: Seq<char>, size: Seq<char>)
    requires
        hash.len() >= 4,
        forall|i: int| 0 <= i < hash.len() ==> text::is_hex(#[trigger] hash[i]),
        !size.contains('/'),
    ensures
        paths::components(thumbnail_at(library, hash, size)) == paths::components(library) + seq![
            "thumbnails"@,
            hash.subrange(0, 2),
            hash.subrange(2, 4),
            hash + seq!['_'] + size + ".jpg"@,
        ],
{
    law_hex_hash_shards(hash);
    reveal_strlit("thumbnails");
    reveal_strlit(".");
    reveal_strlit(".jpg");
    let top = paths::joined(library, "thumbnails"@);
    let a = hash.subrange(0, 2);
    let b = hash.subrange(2, 4);
    let file = hash.push('_') + size + ".jpg"@;
    let upper = paths::joined(top, a);
    let dir = paths::joined(upper, b);
    assert(file =~= hash + seq!['_'] + size + ".jpg"@);
    assert("thumbnails"@[0] == 't');
    paths::law_joined_name_is_child(library, "thumbnails"@);
    assert forall|c: char| a.contains(c) || b.contains(c) implies text::is_hex(c) by {
        if a.contains(c) {
            assert(hash[a.index_of(c)] == c);
        } else {
            assert(hash[b.index_of(c) + 2] == c);
        }
    }
    paths::law_joined_name_is_child(top, a);
    paths::law_joined_name_is_child(upper, b);
    assert(!file.contains('/')) by {
        if file.contains('/') {
            let k = file.index_of('/');
            if k < hash.len() {
                assert(hash[k] == '/');
            } else if hash.len() < k < hash.len() + 1 + size.len() {
                assert(size[k - hash.len() - 1] == '/');
                assert(size.contains('/'));
            } else if k > hash.len() {
                assert(".jpg"@[k - hash.len() - 1 - size.len()] == '/');
            }
        }
    }
    paths::law_joined_name_is_child(dir, file);
    assert(shard(top, hash) == dir);
    assert(paths::components(thumbnail_at(library, hash, size)) =~= paths::components(library) + seq![
        "thumbnails"@,
        a,
        b,
        file,
    ]);
}

/// A hash can be cut only where characters begin: behind its second and behind
/// its fourth byte.
pub proof fn law_cuts_lie_between_characters(hash: Seq<char>)
    requires
        shardable(hash),
    ensures
        exists|a: int|
            0 <= a <= hash.len() && vstd::utf8::encode_utf8(#[trigger] hash.take(a)).len() == 2,
        exists|b: int|
            0 <= b <= hash.len() && vstd::utf8::encode_utf8(#[trigger] hash.take(b)).len() == 4,
{
    let a = chars_in(hash, 2)->0;
    let b = chars_in(hash, 4)->0;
    lemma_chars_in(hash, 2);
    lemma_chars_in(hash, 4);
    law_characters_fill_the_bytes(hash, 2, a);
    law_characters_fill_the_bytes(hash, 4, b);
    assert(vstd::utf8::encode_utf8(hash.take(a)).len() == 2);
    assert(vstd::utf8::encode_utf8(hash.take(b)).len() == 4);
}

} // verus!
