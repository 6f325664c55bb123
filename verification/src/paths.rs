//! File paths as texts with `/` between their names.
use vstd::prelude::*;

use crate::text;

verus! {

/// The pieces that name something: neither empty nor `.`.
pub open spec fn named(pieces: Seq<Seq<char>>) -> Seq<Seq<char>>
    decreases pieces.len(),
{
    if pieces.len() == 0 {
        Seq::empty()
    } else if pieces.last().len() > 0 && pieces.last() != "."@ {
        named(pieces.drop_last()).push(pieces.last())
    } else {
        named(pieces.drop_last())
    }
}

/// Whether a path begins at the root.
pub open spec fn rooted(s: Seq<char>) -> bool {
    s.len() > 0 && s[0] == '/'
}

/// The components of a path: `/` for the root or `.` for a leading dot, then
/// its names. Repeated and trailing slashes and inner dots do not count.
pub open spec fn components(s: Seq<char>) -> Seq<Seq<char>> {
    let pieces = text::split_on(s, '/');
    let head = if rooted(s) {
        seq!["/"@]
    } else if pieces[0] == "."@ {
        seq!["."@]
    } else {
        Seq::empty()
    };
    head + named(pieces)
}

/// Whether a path begins at the root.
pub fn is_absolute(path: &str) -> (r: bool)
    ensures
        r == rooted(path@),
{
    path.unicode_len() > 0 && path.get_char(0) == '/'
}

/// The components of a path.
pub fn components_of<'a>(path: &'a str) -> (r: Vec<&'a str>)
    ensures
        text::str_texts(r@) == components(path@),
{
    let pieces = text::split(path, '/');
    let ghost ps = text::str_texts(pieces@);
    let mut out: Vec<&'a str> = Vec::new();
    if is_absolute(path) {
        out.push("/");
    } else {
        assert(ps[0] == pieces@[0]@);
        if text::same_text(pieces[0], ".") {
            out.push(".");
        }
    }
    let ghost head = text::str_texts(out@);
    proof {
        assert(head + named(ps.take(0)) =~= head);
    }
    let mut i: usize = 0;
    while i < pieces.len()
        invariant
            i <= pieces.len(),
            ps == text::str_texts(pieces@),
            text::str_texts(out@) == head + named(ps.take(i as int)),
        decreases pieces.len() - i,
    {
        let piece = pieces[i];
        let ghost before = out@;
        proof {
            assert(ps.take(i + 1).drop_last() =~= ps.take(i as int));
            assert(ps[i as int] == piece@);
        }
        if !piece.is_empty() && !text::same_text(piece, ".") {
            out.push(piece);
            proof {
                assert(text::str_texts(out@) =~= text::str_texts(before).push(piece@));
                assert(head + named(ps.take(i as int)).push(piece@) =~= (head + named(ps.take(i as int))).push(piece@));
            }
        }
        i = i + 1;
    }
    assert(ps.take(i as int) =~= ps);
    proof {
        assert(head =~= (if rooted(path@) {
            seq!["/"@]
        } else if ps[0] == "."@ {
            seq!["."@]
        } else {
            Seq::empty()
        }));
    }
    out
}

/// The name that a list of components ends with, unless it ends with the root,
/// a dot or `..`.
pub open spec fn last_name(c: Seq<Seq<char>>) -> Option<Seq<char>> {
    if c.len() == 0 || c.last() == "/"@ || c.last() == "."@ || c.last() == ".."@ {
        None
    } else {
        Some(c.last())
    }
}

/// The components of the directory that holds a path.
pub open spec fn parent_of(c: Seq<Seq<char>>) -> Option<Seq<Seq<char>>> {
    if c.len() == 0 || c.last() == "/"@ {
        None
    } else {
        Some(c.drop_last())
    }
}

/// Where `c` last stands in `s`: its index, or -1 if it does not occur.
pub open spec fn last_at(s: Seq<char>, c: char) -> int
    decreases s.len(),
{
    if s.len() == 0 {
        -1
    } else if s.last() == c {
        s.len() - 1
    } else {
        last_at(s.drop_last(), c)
    }
}

/// What stands behind the last dot of a name that has a dot behind its first
/// character.
pub open spec fn name_extension(name: Seq<char>) -> Option<Seq<char>> {
    if last_at(name, '.') <= 0 {
        None
    } else {
        Some(name.skip(last_at(name, '.') + 1))
    }
}

/// What stands before the extension of a name and its dot.
pub open spec fn name_stem(name: Seq<char>) -> Seq<char> {
    if last_at(name, '.') <= 0 {
        name
    } else {
        name.take(last_at(name, '.'))
    }
}

/// The extension of a path.
pub open spec fn path_extension(s: Seq<char>) -> Option<Seq<char>> {
    match last_name(components(s)) {
        Some(name) => name_extension(name),
        None => None,
    }
}

/// The stem of a path.
pub open spec fn path_stem(s: Seq<char>) -> Option<Seq<char>> {
    match last_name(components(s)) {
        Some(name) => Some(name_stem(name)),
        None => None,
    }
}

/// The name of the directory that holds a path.
pub open spec fn parent_name(s: Seq<char>) -> Option<Seq<char>> {
    match parent_of(components(s)) {
        Some(c) => last_name(c),
        None => None,
    }
}

fn last_of<'a>(c: &Vec<&'a str>, n: usize) -> (r: Option<&'a str>)
    requires
        n <= c.len(),
    ensures
        text::opt_text(r) == last_name(text::str_texts(c@).take(n as int)),
{
    let ghost t = text::str_texts(c@).take(n as int);
    if n == 0 {
        return None;
    }
    let last = c[n - 1];
    assert(t.last() == last@);
    if text::same_text(last, "/") || text::same_text(last, ".") || text::same_text(last, "..") {
        None
    } else {
        Some(last)
    }
}

/// The name of the file at `path`.
pub fn file_name<'a>(path: &'a str) -> (r: Option<&'a str>)
    ensures
        text::opt_text(r) == last_name(components(path@)),
{
    let c = components_of(path);
    assert(text::str_texts(c@).take(c.len() as int) =~= text::str_texts(c@));
    last_of(&c, c.len())
}

/// The name of the directory that holds `path`.
pub fn parent_file_name<'a>(path: &'a str) -> (r: Option<&'a str>)
    ensures
        text::opt_text(r) == parent_name(path@),
{
    let c = components_of(path);
    if c.len() == 0 || text::same_text(c[c.len() - 1], "/") {
        assert(c.len() > 0 ==> text::str_texts(c@).last() == c@.last()@);
        return None;
    }
    assert(text::str_texts(c@).last() == c@.last()@);
    assert(text::str_texts(c@).take(c.len() - 1) =~= text::str_texts(c@).drop_last());
    last_of(&c, c.len() - 1)
}

fn last_dot(cs: &Vec<char>) -> (r: Option<usize>)
    ensures
        r matches Some(k) ==> k == last_at(cs@, '.') && k < cs.len(),
        r is None ==> last_at(cs@, '.') < 0,
{
    let mut i: usize = cs.len();
    assert(cs@.take(i as int) =~= cs@);
    while i > 0
        invariant
            i <= cs.len(),
            last_at(cs@, '.') == last_at(cs@.take(i as int), '.'),
        decreases i,
    {
        if cs[i - 1] == '.' {
            return Some(i - 1);
        }
        assert(cs@.take(i as int).drop_last() =~= cs@.take(i - 1));
        i = i - 1;
    }
    None
}

/// The extension of `path`.
pub fn extension<'a>(path: &'a str) -> (r: Option<&'a str>)
    ensures
        text::opt_text(r) == path_extension(path@),
{
    match file_name(path) {
        Some(name) => {
            let cs = text::chars_of(name);
            match last_dot(&cs) {
                Some(k) => if k == 0 {
                    None
                } else {
                    let e = name.substring_char(k + 1, cs.len());
                    assert(e@ =~= name@.skip(k + 1));
                    Some(e)
                },
                None => None,
            }
        },
        None => None,
    }
}

/// The stem of `path`.
pub fn file_stem<'a>(path: &'a str) -> (r: Option<&'a str>)
    ensures
        text::opt_text(r) == path_stem(path@),
{
    match file_name(path) {
        Some(name) => {
            let cs = text::chars_of(name);
            match last_dot(&cs) {
                Some(k) => if k == 0 {
                    Some(name)
                } else {
                    let e = name.substring_char(0, k);
                    assert(e@ =~= name@.take(k as int));
                    Some(e)
                },
                None => Some(name),
            }
        },
        None => None,
    }
}

/// `part` below `base`: `part` itself if it begins at the root, else the two
/// with one slash between them.
pub open spec fn joined(base: Seq<char>, part: Seq<char>) -> Seq<char> {
    if rooted(part) {
        part
    } else if base.len() == 0 || base.last() == '/' {
        base + part
    } else {
        base.push('/') + part
    }
}

/// `part` below `base`.
pub fn join(base: &str, part: &str) -> (r: String)
    ensures
        r@ == joined(base@, part@),
{
    if is_absolute(part) {
        return part.to_owned();
    }
    let mut out = base.to_owned();
    let n: usize = base.unicode_len();
    if n > 0 && base.get_char(n - 1) != '/' {
        out.push('/');
    }
    out.append(part);
    out
}

fn same_components(a: &Vec<&str>, b: &Vec<&str>, n: usize) -> (r: bool)
    requires
        n <= a.len(),
        n <= b.len(),
    ensures
        r == (text::str_texts(a@).take(n as int) == text::str_texts(b@).take(n as int)),
{
    let ghost x = text::str_texts(a@);
    let ghost y = text::str_texts(b@);
    let mut i: usize = 0;
    while i < n
        invariant
            i <= n,
            n <= a.len(),
            n <= b.len(),
            x == text::str_texts(a@),
            y == text::str_texts(b@),
            forall|k: int| 0 <= k < i ==> x[k] == y[k],
        decreases n - i,
    {
        assert(x[i as int] == a@[i as int]@);
        assert(y[i as int] == b@[i as int]@);
        if !text::same_text(a[i], b[i]) {
            assert(x.take(n as int)[i as int] != y.take(n as int)[i as int]);
            return false;
        }
        i = i + 1;
    }
    assert(x.take(n as int) =~= y.take(n as int));
    true
}

/// Whether `path` stands directly in the directory `dir`.
pub fn is_child_of(path: &str, dir: &str) -> (r: bool)
    ensures
        r == (parent_of(components(path@)) == Some(components(dir@))),
{
    let a = components_of(path);
    let b = components_of(dir);
    assert(a.len() > 0 ==> text::str_texts(a@).last() == a@.last()@);
    if a.len() == 0 || text::same_text(a[a.len() - 1], "/") {
        return false;
    }
    assert(text::str_texts(a@).take(a.len() - 1) =~= text::str_texts(a@).drop_last());
    if b.len() != a.len() - 1 {
        return false;
    }
    assert(text::str_texts(b@).take(b.len() as int) =~= text::str_texts(b@));
    same_components(&a, &b, b.len())
}

/// Whether the components of `base` are the first of `path`.
pub open spec fn within(path: Seq<char>, base: Seq<char>) -> bool {
    components(base).len() <= components(path).len() && components(path).take(components(base).len() as int)
        == components(base)
}

/// Whether `path` is `base` or below it.
pub fn starts_with(path: &str, base: &str) -> (r: bool)
    ensures
        r == within(path@, base@),
{
    let a = components_of(path);
    let b = components_of(base);
    if b.len() > a.len() {
        return false;
    }
    assert(text::str_texts(b@).take(b.len() as int) =~= text::str_texts(b@));
    same_components(&a, &b, b.len())
}

/// A piece behind a separator is the last piece of a split.
proof fn lemma_split_behind(s: Seq<char>, name: Seq<char>, sep: char)
    requires
        !name.contains(sep),
    ensures
        text::split_on(s.push(sep) + name, sep) == text::split_on(s, sep).push(name),
    decreases s.len(),
{
    let all = s.push(sep) + name;
    text::lemma_first_at(s, sep);
    let k = text::first_at(s, sep);
    if k < s.len() {
        assert forall|i: int| 0 <= i < k implies all[i] != sep by {
            assert(all[i] == s[i]);
        }
        text::lemma_first_at_is(all, sep, k);
        assert(all.take(k) =~= s.take(k));
        assert(all.skip(k + 1) =~= s.skip(k + 1).push(sep) + name);
        lemma_split_behind(s.skip(k + 1), name, sep);
        assert(text::split_on(all, sep) =~= text::split_on(s, sep).push(name));
    } else {
        assert forall|i: int| 0 <= i < s.len() implies all[i] != sep by {
            assert(all[i] == s[i]);
        }
        text::lemma_first_at_is(all, sep, s.len() as int);
        assert(all.take(s.len() as int) =~= s);
        assert(all.skip(k + 1) =~= name);
        text::lemma_first_at(name, sep);
        assert(text::split_on(name, sep) =~= seq![name]);
        assert(text::split_on(s, sep) =~= seq![s]);
        assert(text::split_on(all, sep) =~= seq![s].push(name));
    }
}

/// A name that is joined to a directory is a child of the directory: joining
/// adds one component to those of the directory, and changes none.
pub proof fn law_joined_name_is_child(dir: Seq<char>, name: Seq<char>)
    requires
        name.len() > 0,
        !name.contains('/'),
        name != "."@,
    ensures
        components(joined(dir, name)) == components(dir).push(name),
{
    reveal_strlit(".");
    let path = joined(dir, name);
    assert(name.contains(name[0]));
    assert(!rooted(name));
    text::lemma_first_at(name, '/');
    assert(text::split_on(name, '/') =~= seq![name]);
    assert(named(seq![name].drop_last()) =~= Seq::<Seq<char>>::empty());
    assert(seq![name].drop_last() =~= Seq::<Seq<char>>::empty());
    if dir.len() == 0 {
        assert(path =~= name);
        text::lemma_first_at(dir, '/');
        assert(text::split_on(dir, '/') =~= seq![dir]);
        assert(seq![dir].drop_last() =~= Seq::<Seq<char>>::empty());
        assert(named(seq![dir]) =~= Seq::<Seq<char>>::empty());
        assert(named(seq![name]) =~= seq![name]);
        assert(components(path) =~= components(dir).push(name));
    } else if dir.last() == '/' {
        let top = dir.drop_last();
        let none = Seq::<char>::empty();
        assert(dir =~= top.push('/') + none);
        assert(path =~= top.push('/') + name);
        lemma_split_behind(top, none, '/');
        lemma_split_behind(top, name, '/');
        text::lemma_split_pieces(top, '/');
        let pieces = text::split_on(top, '/');
        assert(pieces.push(none).drop_last() =~= pieces);
        assert(pieces.push(name).drop_last() =~= pieces);
        assert(named(pieces.push(none)) == named(pieces));
        assert(named(pieces.push(name)) == named(pieces).push(name));
        assert(path[0] == dir[0]);
        assert(pieces.push(none)[0] == pieces[0] && pieces.push(name)[0] == pieces[0]);
        assert(components(path) =~= components(dir).push(name));
    } else {
        assert(path =~= dir.push('/') + name);
        lemma_split_behind(dir, name, '/');
        text::lemma_split_pieces(dir, '/');
        let pieces = text::split_on(dir, '/');
        assert(pieces.push(name).drop_last() =~= pieces);
        assert(named(pieces.push(name)) == named(pieces).push(name));
        assert(path[0] == dir[0]);
        assert(pieces.push(name)[0] == pieces[0]);
        assert(components(path) =~= components(dir).push(name));
    }
}

/// A path begins at the root exactly if it is a slash and a rest.
pub proof fn law_rooted_path_begins_with_a_slash(s: Seq<char>)
    ensures
        rooted(s) <==> exists|rest: Seq<char>| s == #[trigger] (seq!['/'] + rest),
{
    if rooted(s) {
        assert(s =~= seq!['/'] + s.skip(1));
    }
}

/// Slashes at the end and dots between slashes do not count; the empty path has
/// no components, and the root and a lone dot are their own.
pub proof fn law_empty_pieces_do_not_count(s: Seq<char>)
    ensures
        s.len() > 0 ==> components(s.push('/')) == components(s),
        s.len() > 0 ==> components(s.push('/').push('.')) == components(s),
        components(Seq::empty()) == Seq::<Seq<char>>::empty(),
        components(seq!['/']) == seq![seq!['/']],
        components(seq!['.']) == seq![seq!['.']],
{
    reveal_strlit(".");
    reveal_strlit("/");
    let none = Seq::<char>::empty();
    let dot = seq!['.'];
    assert("."@ =~= dot);
    assert("/"@ =~= seq!['/']);
    if s.len() > 0 {
        lemma_split_behind(s, none, '/');
        lemma_split_behind(s, dot, '/');
        text::lemma_split_pieces(s, '/');
        let pieces = text::split_on(s, '/');
        assert(s.push('/') + none =~= s.push('/'));
        assert(s.push('/') + dot =~= s.push('/').push('.'));
        assert(pieces.push(none).drop_last() =~= pieces);
        assert(pieces.push(dot).drop_last() =~= pieces);
        assert(pieces.push(none)[0] == pieces[0] && pieces.push(dot)[0] == pieces[0]);
        assert(s.push('/')[0] == s[0] && s.push('/').push('.')[0] == s[0]);
    }
    reveal_with_fuel(named, 3);
    text::law_splitting(none, none, '/');
    text::law_splitting(dot, none, '/');
    assert(none + seq!['/'] + none =~= seq!['/']);
    assert(seq![none].drop_last() =~= Seq::<Seq<char>>::empty());
    assert(seq![dot].drop_last() =~= Seq::<Seq<char>>::empty());
    assert(named(seq![none]) =~= Seq::<Seq<char>>::empty());
    assert(named(seq![dot]) =~= Seq::<Seq<char>>::empty());
    assert((seq![none] + seq![none]).drop_last() =~= seq![none]);
    assert(named(seq![none] + seq![none]) =~= Seq::<Seq<char>>::empty());
    assert(components(none) =~= Seq::<Seq<char>>::empty());
    assert(components(seq!['/']) =~= seq![seq!['/']]);
    assert(components(dot) =~= seq![dot]);
}

/// Joining puts one slash between a directory and what is below it, and none
/// where the directory ends with one. What begins at the root is not below it.
pub proof fn law_joining_puts_a_slash_between(base: Seq<char>, part: Seq<char>)
    ensures
        part.len() > 0 && part[0] == '/' ==> joined(base, part) == part,
        !(part.len() > 0 && part[0] == '/') ==> {
            &&& joined(base.push('/'), part) == base.push('/') + part
            &&& base.len() > 0 && base.last() != '/' ==> joined(base, part) == base.push('/') + part
            &&& joined(Seq::empty(), part) == part
        },
{
    assert(Seq::<char>::empty() + part =~= part);
}

/// A file that lies in a directory has its own name, and the directory is its
/// parent. Two dots are no name.
pub proof fn law_file_lies_in_its_directory(dir: Seq<char>, name: Seq<char>)
    requires
        name.len() > 0,
        !name.contains('/'),
        name != seq!['.'],
    ensures
        parent_of(components(joined(dir, name))) == Some(components(dir)),
        last_name(components(joined(dir, name))) == (if name == seq!['.', '.'] {
            None
        } else {
            Some(name)
        }),
        within(joined(dir, name), dir),
{
    reveal_strlit(".");
    reveal_strlit("..");
    reveal_strlit("/");
    assert("."@ =~= seq!['.']);
    assert(".."@ =~= seq!['.', '.']);
    assert("/"@ =~= seq!['/']);
    law_joined_name_is_child(dir, name);
    let c = components(dir).push(name);
    assert(c.last() == name);
    assert(c.drop_last() =~= components(dir));
    assert(c.take(components(dir).len() as int) =~= components(dir));
    if name == seq!['/'] {
        assert(name.contains(name[0]));
    }
}

/// The root and the empty path name no file, and have no parent. The current
/// directory names none either, and its parent is empty.
pub proof fn law_root_has_no_name()
    ensures
        last_name(components(seq!['/'])) is None,
        parent_of(components(seq!['/'])) is None,
        last_name(components(Seq::empty())) is None,
        parent_of(components(Seq::empty())) is None,
        last_name(components(seq!['.'])) is None,
        parent_of(components(seq!['.'])) == Some(Seq::<Seq<char>>::empty()),
{
    reveal_strlit("/");
    reveal_strlit(".");
    assert("/"@ =~= seq!['/']);
    assert("."@ =~= seq!['.']);
    assert(seq![seq!['.']].drop_last() =~= Seq::<Seq<char>>::empty());
    law_empty_pieces_do_not_count(Seq::empty());
}

/// The name of the directory of a file is that of the directory it lies in,
/// wherever that is; a file at the root, or with no directory before its name,
/// has none.
pub proof fn law_parent_is_the_directory_of_a_file(dir: Seq<char>, folder: Seq<char>, name: Seq<char>)
    requires
        name.len() > 0 && !name.contains('/') && name != seq!['.'],
        folder.len() > 0 && !folder.contains('/') && folder != seq!['.'] && folder != seq!['.', '.'],
    ensures
        parent_name(joined(joined(dir, folder), name)) == Some(folder),
        parent_name(joined(joined(dir, seq!['.', '.']), name)) is None,
        parent_name(seq!['/'] + name) is None,
        parent_name(name) is None,
{
    law_file_lies_in_its_directory(joined(dir, seq!['.', '.']), name);
    law_file_lies_in_its_directory(dir, seq!['.', '.']);
    law_file_lies_in_its_directory(joined(dir, folder), name);
    law_file_lies_in_its_directory(dir, folder);
    law_file_lies_in_its_directory(seq!['/'], name);
    law_file_lies_in_its_directory(Seq::empty(), name);
    law_root_has_no_name();
    assert(name.contains(name[0]));
    assert(joined(Seq::empty(), name) =~= name);
    assert(joined(seq!['/'], name) =~= seq!['/'] + name);
}

proof fn lemma_last_at_is(s: Seq<char>, c: char, k: int)
    requires
        -1 <= k < s.len(),
        k >= 0 ==> s[k] == c,
        forall|i: int| k < i < s.len() ==> s[i] != c,
    ensures
        last_at(s, c) == k,
    decreases s.len(),
{
    if s.len() > 0 && s.last() != c {
        lemma_last_at_is(s.drop_last(), c, k);
    }
}

/// A name that is a text, a dot and a text without dots has the one as its stem
/// and the other as its extension. A name with no dot behind its first character
/// is all stem.
pub proof fn law_extension_stands_behind_the_last_dot(stem: Seq<char>, ext: Seq<char>)
    requires
        stem.len() > 0,
    ensures
        !ext.contains('.') ==> name_extension(stem.push('.') + ext) == Some(ext) && name_stem(stem.push('.') + ext)
            == stem,
        !stem.skip(1).contains('.') ==> name_extension(stem) is None && name_stem(stem) == stem,
{
    let name = stem.push('.') + ext;
    let k = stem.len() as int;
    if !ext.contains('.') {
        assert(name[k] == '.');
        assert forall|i: int| k < i < name.len() implies name[i] != '.' by {
            assert(name[i] == ext[i - k - 1]);
            assert(ext.contains(ext[i - k - 1]));
        }
        lemma_last_at_is(name, '.', k);
        assert(name.skip(k + 1) =~= ext);
        assert(name.take(k) =~= stem);
    }
    if !stem.skip(1).contains('.') {
        assert forall|i: int| 0 < i < stem.len() implies stem[i] != '.' by {
            assert(stem.skip(1)[i - 1] == stem[i]);
            assert(stem.skip(1).contains(stem.skip(1)[i - 1]));
        }
        lemma_last_at_is(
            stem,
            '.',
            if stem[0] == '.' {
                0
            } else {
                -1
            },
        );
    }
}

/// The stem and the extension of a path are those of the name of its file,
/// whatever directory the file lies in.
pub proof fn law_path_has_the_extension_of_its_file(dir: Seq<char>, name: Seq<char>)
    requires
        name.len() > 0 && !name.contains('/') && name != seq!['.'] && name != seq!['.', '.'],
    ensures
        path_extension(joined(dir, name)) == name_extension(name),
        path_stem(joined(dir, name)) == Some(name_stem(name)),
        path_extension(name) == name_extension(name),
        path_stem(name) == Some(name_stem(name)),
{
    law_file_lies_in_its_directory(dir, name);
    law_file_lies_in_its_directory(Seq::empty(), name);
    assert(name.contains(name[0]));
    assert(joined(Seq::empty(), name) =~= name);
}

/// A path lies within another exactly if its components are those of the other
/// and then some, or none.
pub proof fn law_within_is_below(path: Seq<char>, base: Seq<char>)
    ensures
        within(path, base) <==> exists|rest: Seq<Seq<char>>| components(path) == #[trigger] (components(base) + rest),
{
    let (p, b) = (components(path), components(base));
    if within(path, base) {
        let rest = p.skip(b.len() as int);
        assert(p =~= p.take(b.len() as int) + rest);
        assert(p == b + rest);
    }
    if exists|rest: Seq<Seq<char>>| p == #[trigger] (b + rest) {
        assert(p.take(b.len() as int) =~= b);
    }
}

/// What is below a directory is told by whole names: a path whose name only
/// begins like the directory does not lie within it.
pub proof fn law_neighbour_is_not_within(dir: Seq<char>, a: Seq<char>, b: Seq<char>)
    requires
        a.len() > 0 && !a.contains('/') && a != seq!['.'],
        b.len() > 0 && !b.contains('/') && b != seq!['.'],
    ensures
        within(joined(dir, a), joined(dir, b)) <==> a == b,
{
    reveal_strlit(".");
    assert("."@ =~= seq!['.']);
    law_joined_name_is_child(dir, a);
    law_joined_name_is_child(dir, b);
    let (x, y) = (components(dir).push(a), components(dir).push(b));
    assert(x.take(y.len() as int) =~= x);
    assert(x.last() == a && y.last() == b);
}

/// The extension and the stem of a path are those of the name that it ends with;
/// a path that ends with no name has neither.
pub proof fn law_extension_is_that_of_the_name(s: Seq<char>)
    ensures
        last_name(components(s)) is None ==> path_extension(s) is None && path_stem(s) is None,
        last_name(components(s)) is Some ==> path_extension(s) == name_extension(last_name(components(s))->0)
            && path_stem(s) == Some(name_stem(last_name(components(s))->0)),
{
}

} // verus!
