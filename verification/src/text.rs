//! Text as sequences of characters: trimming, splitting, joining, ordering and
//! the few conversions the rest of the library needs.
use vstd::prelude::*;

verus! {

/// `String::push` appends one character to the text.
pub assume_specification[ String::push ](s: &mut String, c: char)
    ensures
        final(s)@ == old(s)@.push(c),
;

/// What `str::to_lowercase` makes of a text.
pub uninterp spec fn unicode_lowercase(s: Seq<char>) -> Seq<char>;

/// `str::to_lowercase`: the Unicode lowercase mapping of a text, which depends
/// on the text alone. Of an ASCII text it makes the capital letters small and
/// leaves the other characters as they are.
#[verifier::external_body]
fn to_lowercase(s: &str) -> (r: String)
    ensures
        r@ == unicode_lowercase(s@),
        all_ascii(s@) ==> r@ == s@.map_values(|c: char| ascii_lower(c)),
{
    s.to_lowercase()
}

/// Whether a text has ASCII characters alone.
pub open spec fn all_ascii(s: Seq<char>) -> bool {
    forall|i: int| 0 <= i < s.len() ==> (#[trigger] s[i]) as int <= 127
}

/// A text in lowercase.
pub open spec fn lowercase_of(s: Seq<char>) -> Seq<char> {
    if all_ascii(s) {
        s.map_values(|c: char| ascii_lower(c))
    } else {
        unicode_lowercase(s)
    }
}

/// A text in lowercase.
pub fn lowercase(s: &str) -> (r: String)
    ensures
        r@ == lowercase_of(s@),
{
    to_lowercase(s)
}

/// The characters with the Unicode property `White_Space`.
pub open spec fn is_space(c: char) -> bool {
    ||| '\u{9}' <= c <= '\u{d}'
    ||| c == ' '
    ||| c == '\u{85}'
    ||| c == '\u{a0}'
    ||| c == '\u{1680}'
    ||| '\u{2000}' <= c <= '\u{200a}'
    ||| c == '\u{2028}'
    ||| c == '\u{2029}'
    ||| c == '\u{202f}'
    ||| c == '\u{205f}'
    ||| c == '\u{3000}'
}

/// Whether `c` is white space.
pub fn space(c: char) -> (r: bool)
    ensures
        r == is_space(c),
{
    ('\u{9}' <= c && c <= '\u{d}') || c == ' ' || c == '\u{85}' || c == '\u{a0}' || c == '\u{1680}'
        || ('\u{2000}' <= c && c <= '\u{200a}') || c == '\u{2028}' || c == '\u{2029}' || c == '\u{202f}'
        || c == '\u{205f}' || c == '\u{3000}'
}

/// The texts that a sequence of strings holds.
pub open spec fn texts(v: Seq<String>) -> Seq<Seq<char>> {
    v.map_values(|s: String| s@)
}

/// The texts that a sequence of string slices holds.
pub open spec fn str_texts(v: Seq<&str>) -> Seq<Seq<char>> {
    v.map_values(|s: &str| s@)
}

/// The text of an optional string slice.
pub open spec fn opt_text(o: Option<&str>) -> Option<Seq<char>> {
    match o {
        Some(s) => Some(s@),
        None => None,
    }
}

/// The text of an optional string.
pub open spec fn opt_string(o: Option<String>) -> Option<Seq<char>> {
    match o {
        Some(s) => Some(s@),
        None => None,
    }
}

/// The characters of `s` in a vector.
pub fn chars_of(s: &str) -> (r: Vec<char>)
    ensures
        r@ == s@,
{
    let mut out: Vec<char> = Vec::new();
    for c in it: s.chars()
        invariant
            it.seq() == s@,
            out@ == s@.take(it.index() as int),
    {
        out.push(c);
    }
    assert(s@.take(s@.len() as int) == s@);
    out
}

/// The string made of the characters of `v` from `from` up to `to`.
pub fn string_of(v: &Vec<char>, from: usize, to: usize) -> (r: String)
    requires
        from <= to <= v.len(),
    ensures
        r@ == v@.subrange(from as int, to as int),
{
    let mut out = String::new();
    let mut i: usize = from;
    while i < to
        invariant
            from <= i <= to <= v.len(),
            out@ == v@.subrange(from as int, i as int),
        decreases to - i,
    {
        out.push(v[i]);
        i = i + 1;
    }
    out
}

/// Whether two texts are the same.
pub fn same_text(a: &str, b: &str) -> (r: bool)
    ensures
        r == (a@ == b@),
{
    let mut x = a.chars();
    let mut y = b.chars();
    let ghost mut seen = Seq::<char>::empty();
    loop
        invariant
            a@ == seen + vstd::std_specs::iter::IteratorSpec::remaining(&x),
            b@ == seen + vstd::std_specs::iter::IteratorSpec::remaining(&y),
        decreases a@.len() - seen.len(),
    {
        let ghost rx = vstd::std_specs::iter::IteratorSpec::remaining(&x);
        let ghost ry = vstd::std_specs::iter::IteratorSpec::remaining(&y);
        match (x.next(), y.next()) {
            (Some(c), Some(d)) => {
                if c != d {
                    assert(a@[seen.len() as int] == c);
                    assert(b@[seen.len() as int] == d);
                    return false;
                }
                proof {
                    assert(seen + rx == seen.push(c) + rx.drop_first());
                    assert(seen + ry == seen.push(c) + ry.drop_first());
                    seen = seen.push(c);
                }
            },
            (None, None) => {
                return true;
            },
            _ => {
                assert(a@.len() != b@.len());
                return false;
            },
        }
    }
}

/// Whether `s` is among `v`.
pub fn holds(v: &Vec<String>, s: &str) -> (r: bool)
    ensures
        r == texts(v@).contains(s@),
{
    let mut i: usize = 0;
    while i < v.len()
        invariant
            i <= v.len(),
            forall|j: int| 0 <= j < i ==> (#[trigger] v@[j])@ != s@,
        decreases v.len() - i,
    {
        if same_text(v[i].as_str(), s) {
            assert(texts(v@)[i as int] == s@);
            return true;
        }
        i = i + 1;
    }
    assert forall|j: int| 0 <= j < v.len() implies #[trigger] texts(v@)[j] != s@ by {
        assert(v@[j]@ != s@);
    }
    false
}

/// `s` without the characters at its front that satisfy `p`.
pub open spec fn strip_front(s: Seq<char>, p: spec_fn(char) -> bool) -> Seq<char>
    decreases s.len(),
{
    if s.len() > 0 && p(s[0]) {
        strip_front(s.skip(1), p)
    } else {
        s
    }
}

/// `s` without the characters at its end that satisfy `p`.
pub open spec fn strip_back(s: Seq<char>, p: spec_fn(char) -> bool) -> Seq<char>
    decreases s.len(),
{
    if s.len() > 0 && p(s.last()) {
        strip_back(s.drop_last(), p)
    } else {
        s
    }
}

/// `s` without white space at either end.
pub open spec fn trimmed(s: Seq<char>) -> Seq<char> {
    strip_back(strip_front(s, |c: char| is_space(c)), |c: char| is_space(c))
}

/// The predicate that holds of `d` alone.
pub open spec fn is_char(d: char) -> spec_fn(char) -> bool {
    |c: char| c == d
}

/// `s` without the character `d` at either end.
pub open spec fn trimmed_of(s: Seq<char>, d: char) -> Seq<char> {
    strip_back(strip_front(s, is_char(d)), is_char(d))
}

/// What `strip_front` drops satisfies `p`, and what it keeps does not begin
/// with a character that does.
pub proof fn lemma_strip_front(s: Seq<char>, p: spec_fn(char) -> bool)
    ensures
        strip_front(s, p).len() <= s.len(),
        strip_front(s, p) == s.skip(s.len() - strip_front(s, p).len()),
        forall|i: int| 0 <= i < s.len() - strip_front(s, p).len() ==> p(#[trigger] s[i]),
        strip_front(s, p).len() > 0 ==> !p(strip_front(s, p)[0]),
    decreases s.len(),
{
    if s.len() > 0 && p(s[0]) {
        let t = s.skip(1);
        lemma_strip_front(t, p);
        let r = strip_front(t, p);
        assert(t.skip(t.len() - r.len()) =~= s.skip(s.len() - r.len()));
        assert forall|i: int| 0 <= i < s.len() - r.len() implies p(#[trigger] s[i]) by {
            if i > 0 {
                assert(s[i] == t[i - 1]);
            }
        }
    } else {
        assert(s.skip(0) =~= s);
    }
}

/// What `strip_back` drops satisfies `p`, and what it keeps does not end with a
/// character that does.
pub proof fn lemma_strip_back(s: Seq<char>, p: spec_fn(char) -> bool)
    ensures
        strip_back(s, p).len() <= s.len(),
        strip_back(s, p) == s.take(strip_back(s, p).len() as int),
        forall|i: int| strip_back(s, p).len() <= i < s.len() ==> p(#[trigger] s[i]),
        strip_back(s, p).len() > 0 ==> !p(strip_back(s, p).last()),
    decreases s.len(),
{
    if s.len() > 0 && p(s.last()) {
        let t = s.drop_last();
        lemma_strip_back(t, p);
        let r = strip_back(t, p);
        assert(t.take(r.len() as int) =~= s.take(r.len() as int));
        assert forall|i: int| r.len() <= i < s.len() implies p(#[trigger] s[i]) by {
            if i < s.len() - 1 {
                assert(s[i] == t[i]);
            }
        }
    } else {
        assert(s.take(s.len() as int) =~= s);
    }
}

/// Whether `s` neither begins nor ends with white space.
pub open spec fn is_trim(s: Seq<char>) -> bool {
    s.len() > 0 ==> !is_space(s[0]) && !is_space(s.last())
}

/// Trimming leaves a text without white space at either end, unchanged if there
/// was none, and leaves nothing exactly of white space. What it leaves holds
/// only characters of the text.
pub proof fn lemma_trimmed(s: Seq<char>)
    ensures
        is_trim(trimmed(s)),
        is_trim(s) ==> trimmed(s) == s,
        trimmed(s).len() == 0 <==> forall|i: int| 0 <= i < s.len() ==> is_space(#[trigger] s[i]),
        forall|c: char| trimmed(s).contains(c) ==> s.contains(c),
{
    let p = |c: char| is_space(c);
    let f = strip_front(s, p);
    let b = strip_back(f, p);
    lemma_strip_front(s, p);
    lemma_strip_back(f, p);
    let k = s.len() - f.len();
    if b.len() > 0 {
        assert(b[0] == f[0]);
        assert(f[0] == s[k]);
        assert(!is_space(s[k]));
    } else {
        assert forall|i: int| 0 <= i < s.len() implies is_space(#[trigger] s[i]) by {
            if i < k {
                assert(p(s[i]));
            } else {
                assert(f[i - k] == s[i]);
                assert(p(f[i - k]));
            }
        }
    }
    if is_trim(s) && s.len() > 0 {
        assert(!p(s[0]));
        assert(f == s);
        assert(!p(s.last()));
        assert(b == s);
    }
    assert forall|c: char| trimmed(s).contains(c) implies s.contains(c) by {
        let i = b.index_of(c);
        assert(f[i] == b[i]);
        assert(s[k + i] == f[i]);
    }
}

/// `s` without white space at either end.
pub fn trim<'a>(s: &'a str) -> (r: &'a str)
    ensures
        r@ == trimmed(s@),
{
    let cs = chars_of(s);
    let n: usize = cs.len();
    let ghost p = |c: char| is_space(c);
    let mut i: usize = 0;
    assert(s@.skip(0) == s@);
    while i < n && space(cs[i])
        invariant
            cs@ == s@,
            n == cs.len(),
            i <= n,
            p == (|c: char| is_space(c)),
            strip_front(s@, p) == strip_front(s@.skip(i as int), p),
        decreases n - i,
    {
        assert(s@.skip(i as int).skip(1) == s@.skip(i + 1));
        i = i + 1;
    }
    assert(strip_front(s@, p) == s@.skip(i as int));
    let mut j: usize = n;
    assert(s@.subrange(i as int, n as int) == s@.skip(i as int));
    while j > i && space(cs[j - 1])
        invariant
            cs@ == s@,
            n == cs.len(),
            i <= j <= n,
            p == (|c: char| is_space(c)),
            strip_back(s@.skip(i as int), p) == strip_back(s@.subrange(i as int, j as int), p),
        decreases j,
    {
        assert(s@.subrange(i as int, j as int).drop_last() == s@.subrange(i as int, j - 1));
        j = j - 1;
    }
    assert(strip_back(s@.skip(i as int), p) == s@.subrange(i as int, j as int));
    s.substring_char(i, j)
}

/// `s` without the character `d` at either end.
pub fn trim_char<'a>(s: &'a str, d: char) -> (r: &'a str)
    ensures
        r@ == trimmed_of(s@, d),
{
    let cs = chars_of(s);
    let n: usize = cs.len();
    let ghost p = is_char(d);
    let mut i: usize = 0;
    assert(s@.skip(0) == s@);
    while i < n && cs[i] == d
        invariant
            cs@ == s@,
            n == cs.len(),
            i <= n,
            p == is_char(d),
            strip_front(s@, p) == strip_front(s@.skip(i as int), p),
        decreases n - i,
    {
        assert(s@.skip(i as int).skip(1) == s@.skip(i + 1));
        i = i + 1;
    }
    assert(strip_front(s@, p) == s@.skip(i as int));
    let mut j: usize = n;
    assert(s@.subrange(i as int, n as int) == s@.skip(i as int));
    while j > i && cs[j - 1] == d
        invariant
            cs@ == s@,
            n == cs.len(),
            i <= j <= n,
            p == is_char(d),
            strip_back(s@.skip(i as int), p) == strip_back(s@.subrange(i as int, j as int), p),
        decreases j,
    {
        assert(s@.subrange(i as int, j as int).drop_last() == s@.subrange(i as int, j - 1));
        j = j - 1;
    }
    assert(strip_back(s@.skip(i as int), p) == s@.subrange(i as int, j as int));
    s.substring_char(i, j)
}

/// Where `c` first stands in `s`: its index, or the length of `s` if it does
/// not occur.
pub open spec fn first_at(s: Seq<char>, c: char) -> int
    decreases s.len(),
{
    if s.len() == 0 || s[0] == c {
        0
    } else {
        1 + first_at(s.skip(1), c)
    }
}

/// `first_at` is the least index that holds `c`.
pub proof fn lemma_first_at(s: Seq<char>, c: char)
    ensures
        0 <= first_at(s, c) <= s.len(),
        first_at(s, c) < s.len() ==> s[first_at(s, c)] == c,
        forall|i: int| 0 <= i < first_at(s, c) ==> s[i] != c,
        s.contains(c) <==> first_at(s, c) < s.len(),
    decreases s.len(),
{
    if s.len() > 0 && s[0] != c {
        let t = s.skip(1);
        lemma_first_at(t, c);
        assert forall|i: int| 0 <= i < first_at(s, c) implies s[i] != c by {
            if i > 0 {
                assert(s[i] == t[i - 1]);
            }
        }
        if t.contains(c) {
            let k = t.index_of(c);
            assert(s[k + 1] == c);
        }
        if s.contains(c) {
            let k = s.index_of(c);
            assert(t[k - 1] == c);
        }
    }
}

/// An index that holds `c` with none before it is `first_at`.
pub proof fn lemma_first_at_is(s: Seq<char>, c: char, k: int)
    requires
        0 <= k <= s.len(),
        forall|i: int| 0 <= i < k ==> s[i] != c,
        k < s.len() ==> s[k] == c,
    ensures
        first_at(s, c) == k,
{
    lemma_first_at(s, c);
    if first_at(s, c) < k {
        assert(s[first_at(s, c)] != c);
    }
}

/// Where `c` first stands in `v` at or after `from`: the index, or the length.
pub fn find_from(v: &Vec<char>, from: usize, c: char) -> (r: usize)
    requires
        from <= v.len(),
    ensures
        from <= r <= v.len(),
        r == from + first_at(v@.skip(from as int), c),
{
    let mut i: usize = from;
    while i < v.len() && v[i] != c
        invariant
            from <= i <= v.len(),
            forall|k: int| from <= k < i ==> v@[k] != c,
        decreases v.len() - i,
    {
        i = i + 1;
    }
    proof {
        let t = v@.skip(from as int);
        assert forall|k: int| 0 <= k < i - from implies t[k] != c by {
            assert(t[k] == v@[from + k]);
        }
        lemma_first_at_is(t, c, i - from);
    }
    i
}

/// Whether `c` occurs in `s`.
pub fn has_char(s: &str, c: char) -> (r: bool)
    ensures
        r == s@.contains(c),
{
    let cs = chars_of(s);
    let k: usize = find_from(&cs, 0, c);
    proof {
        assert(cs@.skip(0) == s@);
        lemma_first_at(s@, c);
    }
    k < cs.len()
}

/// Whether `s` begins with `prefix`.
pub open spec fn begins(s: Seq<char>, prefix: Seq<char>) -> bool {
    prefix.len() <= s.len() && s.take(prefix.len() as int) == prefix
}

/// What follows `prefix` in `s`, if `s` begins with it.
pub fn after_prefix<'a>(s: &'a str, prefix: &str) -> (r: Option<&'a str>)
    ensures
        r is Some <==> begins(s@, prefix@),
        r matches Some(t) ==> t@ == s@.skip(prefix@.len() as int),
{
    let n: usize = s.unicode_len();
    let k: usize = prefix.unicode_len();
    if k > n {
        return None;
    }
    let head = s.substring_char(0, k);
    assert(head@ == s@.take(k as int));
    if same_text(head, prefix) {
        let tail = s.substring_char(k, n);
        assert(tail@ == s@.skip(k as int));
        Some(tail)
    } else {
        None
    }
}

/// The pieces of `s` between the occurrences of `sep`, empty pieces included.
pub open spec fn split_on(s: Seq<char>, sep: char) -> Seq<Seq<char>>
    decreases s.len(),
{
    let k = first_at(s, sep);
    if k >= s.len() {
        seq![s]
    } else {
        proof {
            lemma_first_at(s, sep);
        }
        seq![s.take(k)] + split_on(s.skip(k + 1), sep)
    }
}

/// The pieces of `s` between the occurrences of `sep`, empty pieces included.
pub fn split<'a>(s: &'a str, sep: char) -> (r: Vec<&'a str>)
    ensures
        str_texts(r@) == split_on(s@, sep),
        r.len() >= 1,
{
    let cs = chars_of(s);
    let n: usize = cs.len();
    let mut out: Vec<&'a str> = Vec::new();
    let mut start: usize = 0;
    assert(s@.skip(0) == s@);
    assert(split_on(s@, sep) == str_texts(out@) + split_on(s@.skip(0), sep));
    loop
        invariant
            cs@ == s@,
            n == cs.len(),
            start <= n,
            split_on(s@, sep) == str_texts(out@) + split_on(s@.skip(start as int), sep),
        decreases n - start,
    {
        let k: usize = find_from(&cs, start, sep);
        let ghost before = out@;
        let ghost rest = s@.skip(start as int);
        out.push(s.substring_char(start, k));
        assert(str_texts(out@) == str_texts(before) + seq![s@.subrange(start as int, k as int)]);
        assert(s@.subrange(start as int, k as int) == rest.take(k - start));
        if k >= n {
            assert(rest.take(k - start) == rest);
            assert(split_on(rest, sep) == seq![rest]);
            return out;
        }
        proof {
            assert(rest.skip(k - start + 1) == s@.skip(k + 1));
            assert(split_on(rest, sep) == seq![rest.take(k - start)] + split_on(s@.skip(k + 1), sep));
            assert(str_texts(out@) + split_on(s@.skip(k + 1), sep) == str_texts(before) + (seq![
                rest.take(k - start),
            ] + split_on(s@.skip(k + 1), sep)));
        }
        start = k + 1;
    }
}

/// The parts one after the other with `sep` between neighbours.
pub open spec fn join_texts(parts: Seq<Seq<char>>, sep: Seq<char>) -> Seq<char>
    decreases parts.len(),
{
    if parts.len() == 0 {
        Seq::empty()
    } else if parts.len() == 1 {
        parts[0]
    } else {
        join_texts(parts.drop_last(), sep) + sep + parts.last()
    }
}

/// A join of two or more parts is the first, the separator, and the join of
/// the others.
pub proof fn lemma_join_front(parts: Seq<Seq<char>>, sep: Seq<char>)
    requires
        parts.len() >= 2,
    ensures
        join_texts(parts, sep) == parts[0] + sep + join_texts(parts.skip(1), sep),
    decreases parts.len(),
{
    let rest = parts.skip(1);
    if parts.len() == 2 {
        assert(parts.drop_last() == seq![parts[0]]);
        assert(join_texts(parts.drop_last(), sep) == parts[0]);
        assert(join_texts(rest, sep) == parts[1]);
    } else {
        lemma_join_front(parts.drop_last(), sep);
        assert(parts.drop_last().skip(1) == rest.drop_last());
        assert(rest.last() == parts.last());
        assert(join_texts(parts, sep) == parts[0] + sep + (join_texts(rest.drop_last(), sep) + sep + parts.last()));
    }
}

/// Splitting undoes joining, when there is at least one part and no part holds
/// the separator.
pub proof fn lemma_split_join(parts: Seq<Seq<char>>, sep: char)
    requires
        parts.len() >= 1,
        forall|i: int| 0 <= i < parts.len() ==> !(#[trigger] parts[i]).contains(sep),
    ensures
        split_on(join_texts(parts, seq![sep]), sep) == parts,
    decreases parts.len(),
{
    let j = join_texts(parts, seq![sep]);
    lemma_first_at(parts[0], sep);
    if parts.len() == 1 {
        lemma_first_at(j, sep);
        assert(split_on(j, sep) == parts);
    } else {
        lemma_join_front(parts, seq![sep]);
        let k = parts[0].len() as int;
        assert forall|i: int| 0 <= i < k implies j[i] != sep by {
            assert(j[i] == parts[0][i]);
            assert(!parts[0].contains(sep));
        }
        assert(j[k] == sep);
        lemma_first_at_is(j, sep, k);
        assert(j.take(k) == parts[0]);
        assert(j.skip(k + 1) == join_texts(parts.skip(1), seq![sep]));
        assert forall|i: int| 0 <= i < parts.skip(1).len() implies !(#[trigger] parts.skip(1)[i]).contains(sep) by {
            assert(parts.skip(1)[i] == parts[i + 1]);
        }
        lemma_split_join(parts.skip(1), sep);
        assert(seq![parts[0]] + parts.skip(1) == parts);
    }
}

/// No piece of a split holds the separator, and there is at least one piece.
pub proof fn lemma_split_pieces(s: Seq<char>, sep: char)
    ensures
        split_on(s, sep).len() >= 1,
        forall|i: int| 0 <= i < split_on(s, sep).len() ==> !(#[trigger] split_on(s, sep)[i]).contains(sep),
    decreases s.len(),
{
    lemma_first_at(s, sep);
    let k = first_at(s, sep);
    if k < s.len() {
        let rest = s.skip(k + 1);
        lemma_split_pieces(rest, sep);
        let all = split_on(s, sep);
        assert(all == seq![s.take(k)] + split_on(rest, sep));
        assert forall|i: int| 0 <= i < all.len() implies !(#[trigger] all[i]).contains(sep) by {
            if i == 0 {
                assert(all[0] == s.take(k));
                if all[0].contains(sep) {
                    let m = all[0].index_of(sep);
                    assert(s[m] == sep);
                }
            } else {
                assert(all[i] == split_on(rest, sep)[i - 1]);
            }
        }
    }
}

/// The order of texts: by the first character in which they differ, a proper
/// prefix before what it begins.
pub open spec fn text_lt(a: Seq<char>, b: Seq<char>) -> bool
    decreases a.len(),
{
    if b.len() == 0 {
        false
    } else if a.len() == 0 {
        true
    } else if a[0] != b[0] {
        a[0] < b[0]
    } else {
        text_lt(a.skip(1), b.skip(1))
    }
}

/// `text_lt` is irreflexive.
pub proof fn lemma_lt_irreflexive(a: Seq<char>)
    ensures
        !text_lt(a, a),
    decreases a.len(),
{
    if a.len() > 0 {
        lemma_lt_irreflexive(a.skip(1));
    }
}

/// `text_lt` is transitive.
pub proof fn lemma_lt_transitive(a: Seq<char>, b: Seq<char>, c: Seq<char>)
    requires
        text_lt(a, b),
        text_lt(b, c),
    ensures
        text_lt(a, c),
    decreases a.len(),
{
    if a.len() > 0 && b.len() > 0 && c.len() > 0 && a[0] == b[0] && b[0] == c[0] {
        lemma_lt_transitive(a.skip(1), b.skip(1), c.skip(1));
    }
}

/// Of two different texts one is before the other.
pub proof fn lemma_lt_total(a: Seq<char>, b: Seq<char>)
    ensures
        a == b || text_lt(a, b) || text_lt(b, a),
    decreases a.len(),
{
    if a.len() > 0 && b.len() > 0 && a[0] == b[0] {
        lemma_lt_total(a.skip(1), b.skip(1));
        if a.skip(1) == b.skip(1) {
            assert(a == seq![a[0]] + a.skip(1));
            assert(b == seq![b[0]] + b.skip(1));
        }
    } else if a.len() == 0 && b.len() == 0 {
        assert(a == b);
    }
}

/// Two texts that agree up to index `k` are ordered by what follows.
proof fn lemma_lt_skip(a: Seq<char>, b: Seq<char>, k: int)
    requires
        0 <= k <= a.len(),
        k <= b.len(),
        a.take(k) == b.take(k),
    ensures
        text_lt(a, b) == text_lt(a.skip(k), b.skip(k)),
    decreases k,
{
    if k == 0 {
        assert(a.skip(0) == a);
        assert(b.skip(0) == b);
    } else {
        assert(a[0] == a.take(k)[0]);
        assert(b[0] == b.take(k)[0]);
        let x = a.skip(1);
        let y = b.skip(1);
        assert(x.take(k - 1) == a.take(k).skip(1));
        assert(y.take(k - 1) == b.take(k).skip(1));
        lemma_lt_skip(x, y, k - 1);
        assert(x.skip(k - 1) == a.skip(k));
        assert(y.skip(k - 1) == b.skip(k));
    }
}

/// Whether `a` is before `b`.
pub fn text_less(a: &str, b: &str) -> (r: bool)
    ensures
        r == text_lt(a@, b@),
{
    let x = chars_of(a);
    let y = chars_of(b);
    let mut i: usize = 0;
    while i < x.len() && i < y.len() && x[i] == y[i]
        invariant
            x@ == a@,
            y@ == b@,
            i <= x.len(),
            i <= y.len(),
            x@.take(i as int) == y@.take(i as int),
        decreases x.len() - i,
    {
        assert(x@.take(i + 1) == x@.take(i as int).push(x@[i as int]));
        assert(y@.take(i + 1) == y@.take(i as int).push(y@[i as int]));
        i = i + 1;
    }
    proof {
        lemma_lt_skip(a@, b@, i as int);
    }
    if i >= y.len() {
        false
    } else if i >= x.len() {
        true
    } else {
        x[i] < y[i]
    }
}

/// The decimal digit for a value under ten.
pub open spec fn digit(d: int) -> char {
    (48 + d) as char
}

/// A number in decimal notation.
pub open spec fn decimal(n: nat) -> Seq<char>
    decreases n,
{
    if n < 10 {
        seq![digit(n as int)]
    } else {
        decimal(n / 10).push(digit((n % 10) as int))
    }
}

/// A number in decimal notation.
pub fn decimal_of(n: u64) -> (r: String)
    ensures
        r@ == decimal(n as nat),
    decreases n,
{
    let d: u8 = (n % 10) as u8;
    let c: char = (48u8 + d) as char;
    if n < 10 {
        let mut out = String::new();
        out.push(c);
        assert(out@ == seq![c]);
        out
    } else {
        let mut out = decimal_of(n / 10);
        out.push(c);
        out
    }
}

/// The lowercase hexadecimal digit for a value under sixteen.
pub open spec fn hex_digit(d: int) -> char {
    if d < 10 {
        (48 + d) as char
    } else {
        (87 + d) as char
    }
}

/// Whether `c` is a lowercase hexadecimal digit.
pub open spec fn is_hex(c: char) -> bool {
    ('0' <= c <= '9') || ('a' <= c <= 'f')
}

/// Bytes in lowercase hexadecimal, two digits to the byte.
pub open spec fn hex(bytes: Seq<u8>) -> Seq<char>
    decreases bytes.len(),
{
    if bytes.len() == 0 {
        Seq::empty()
    } else {
        hex(bytes.drop_last()).push(hex_digit(bytes.last() as int / 16)).push(hex_digit(bytes.last() as int % 16))
    }
}

/// The lowercase hexadecimal digit for a value under sixteen.
fn hex_char(d: u8) -> (c: char)
    requires
        d < 16,
    ensures
        c == hex_digit(d as int),
{
    if d < 10 {
        (48u8 + d) as char
    } else {
        (87u8 + d) as char
    }
}

/// Bytes in lowercase hexadecimal, two digits to the byte.
pub fn hex_of(bytes: &Vec<u8>) -> (r: String)
    ensures
        r@ == hex(bytes@),
{
    let mut out = String::new();
    let mut i: usize = 0;
    while i < bytes.len()
        invariant
            i <= bytes.len(),
            out@ == hex(bytes@.take(i as int)),
        decreases bytes.len() - i,
    {
        assert(bytes@.take(i + 1).drop_last() == bytes@.take(i as int));
        out.push(hex_char(bytes[i] / 16));
        out.push(hex_char(bytes[i] % 16));
        i = i + 1;
    }
    assert(bytes@.take(bytes.len() as int) == bytes@);
    out
}

/// A hexadecimal text has two characters to the byte, all of them hexadecimal
/// digits.
pub proof fn lemma_hex(bytes: Seq<u8>)
    ensures
        hex(bytes).len() == 2 * bytes.len(),
        forall|i: int| 0 <= i < hex(bytes).len() ==> is_hex(#[trigger] hex(bytes)[i]),
    decreases bytes.len(),
{
    if bytes.len() > 0 {
        lemma_hex(bytes.drop_last());
    }
}

/// Different byte sequences have different hexadecimal texts.
pub proof fn lemma_hex_injective(a: Seq<u8>, b: Seq<u8>)
    requires
        hex(a) == hex(b),
    ensures
        a == b,
    decreases a.len(),
{
    lemma_hex(a);
    lemma_hex(b);
    if a.len() > 0 {
        let x = hex(a);
        let y = hex(b);
        assert(x.drop_last().drop_last() == hex(a.drop_last()));
        assert(y.drop_last().drop_last() == hex(b.drop_last()));
        lemma_hex_injective(a.drop_last(), b.drop_last());
        assert(x.last() == hex_digit(a.last() as int % 16));
        assert(y.last() == hex_digit(b.last() as int % 16));
        assert(x[x.len() - 2] == hex_digit(a.last() as int / 16));
        assert(y[y.len() - 2] == hex_digit(b.last() as int / 16));
        assert(a.last() == b.last());
        assert(a == a.drop_last().push(a.last()));
        assert(b == b.drop_last().push(b.last()));
    } else {
        assert(a == b);
    }
}

/// `c` with an ASCII capital letter made small.
pub open spec fn ascii_lower(c: char) -> char {
    if 'A' <= c <= 'Z' {
        ((c as int) + 32) as char
    } else {
        c
    }
}

/// Whether two texts differ at most in the case of ASCII letters.
pub open spec fn same_ascii(a: Seq<char>, b: Seq<char>) -> bool {
    a.len() == b.len() && forall|i: int| 0 <= i < a.len() ==> ascii_lower(#[trigger] a[i]) == ascii_lower(b[i])
}

fn lower_char(c: char) -> (r: char)
    ensures
        r == ascii_lower(c),
{
    if 'A' <= c && c <= 'Z' {
        (c as u8 + 32) as char
    } else {
        c
    }
}

/// Whether two texts differ at most in the case of ASCII letters.
pub fn same_ignoring_case(a: &str, b: &str) -> (r: bool)
    ensures
        r == same_ascii(a@, b@),
{
    let x = chars_of(a);
    let y = chars_of(b);
    if x.len() != y.len() {
        return false;
    }
    let mut i: usize = 0;
    while i < x.len()
        invariant
            x@ == a@,
            y@ == b@,
            x.len() == y.len(),
            i <= x.len(),
            forall|k: int| 0 <= k < i ==> ascii_lower(#[trigger] a@[k]) == ascii_lower(b@[k]),
        decreases x.len() - i,
    {
        if lower_char(x[i]) != lower_char(y[i]) {
            assert(ascii_lower(a@[i as int]) != ascii_lower(b@[i as int]));
            return false;
        }
        i = i + 1;
    }
    true
}

/// The texts of a list of strings are those of the strings, one for each; and so
/// for slices, and for what may be missing.
pub proof fn law_views_hold_the_texts(v: Seq<String>, w: Seq<&str>, s: String, t: &str)
    ensures
        texts(v).len() == v.len(),
        forall|i: int| 0 <= i < v.len() ==> #[trigger] texts(v)[i] == v[i]@,
        str_texts(w).len() == w.len(),
        forall|i: int| 0 <= i < w.len() ==> #[trigger] str_texts(w)[i] == w[i]@,
        opt_string(Some(s)) == Some(s@),
        opt_string(None) is None,
        opt_text(Some(t)) == Some(t@),
        opt_text(None) is None,
{
}

/// White space is what Unicode says: these code points and no others.
pub proof fn law_white_space(c: char)
    ensures
        is_space(c) <==> ({
            let u = c as u32;
            u == 0x20 || 9 <= u <= 13 || u == 0x85 || u == 0xa0 || u == 0x1680 || 0x2000 <= u <= 0x200a || 0x2028 <= u
                <= 0x2029 || u == 0x202f || u == 0x205f || u == 0x3000
        }),
{
}

/// Trimming takes off the white space at both ends and nothing else: whatever
/// white space stands around a text that neither begins nor ends with any, the
/// text is what is left. White space alone leaves nothing.
pub proof fn law_trimming_takes_off_white_space(lead: Seq<char>, s: Seq<char>, trail: Seq<char>)
    requires
        forall|i: int| 0 <= i < lead.len() ==> is_space(#[trigger] lead[i]),
        forall|i: int| 0 <= i < trail.len() ==> is_space(#[trigger] trail[i]),
        s.len() > 0 ==> !is_space(s[0]) && !is_space(s[s.len() - 1]),
    ensures
        trimmed(lead + s + trail) == s,
{
    let p = |c: char| is_space(c);
    let all = lead + s + trail;
    assert forall|i: int| 0 <= i < lead.len() implies p(#[trigger] lead[i]) by {
        assert(is_space(lead[i]));
    }
    assert forall|i: int| 0 <= i < trail.len() implies p(#[trigger] trail[i]) by {
        assert(is_space(trail[i]));
    }
    lemma_strip_around(lead, s, trail, p);
}

/// A character is taken off both ends as often as it stands there, and nothing
/// else is.
pub proof fn law_trimming_takes_off_a_character(lead: Seq<char>, s: Seq<char>, trail: Seq<char>, d: char)
    requires
        forall|i: int| 0 <= i < lead.len() ==> #[trigger] lead[i] == d,
        forall|i: int| 0 <= i < trail.len() ==> #[trigger] trail[i] == d,
        s.len() > 0 ==> s[0] != d && s[s.len() - 1] != d,
    ensures
        trimmed_of(lead + s + trail, d) == s,
{
    let p = is_char(d);
    assert forall|i: int| 0 <= i < lead.len() implies p(#[trigger] lead[i]) by {}
    assert forall|i: int| 0 <= i < trail.len() implies p(#[trigger] trail[i]) by {}
    lemma_strip_around(lead, s, trail, p);
}

proof fn lemma_strip_around(lead: Seq<char>, s: Seq<char>, trail: Seq<char>, p: spec_fn(char) -> bool)
    requires
        forall|i: int| 0 <= i < lead.len() ==> p(#[trigger] lead[i]),
        forall|i: int| 0 <= i < trail.len() ==> p(#[trigger] trail[i]),
        s.len() > 0 ==> !p(s[0]) && !p(s[s.len() - 1]),
    ensures
        strip_back(strip_front(lead + s + trail, p), p) == s,
{
    let all = lead + s + trail;
    let f = strip_front(all, p);
    let b = strip_back(f, p);
    lemma_strip_front(all, p);
    lemma_strip_back(f, p);
    let k = all.len() - f.len();
    let n = lead.len() as int;
    if s.len() > 0 {
        if k > n {
            assert(p(all[n]));
        }
        if k < n {
            assert(f[0] == all[k]);
            assert(p(lead[k]));
        }
        assert(f =~= s + trail);
        if b.len() > s.len() {
            assert(b.last() == f[b.len() - 1]);
            assert(p(trail[b.len() - 1 - s.len()]));
        }
        if b.len() < s.len() {
            assert(p(f[s.len() - 1]));
        }
        assert(b =~= s);
    } else {
        if f.len() > 0 {
            assert(f[0] == all[k]);
            if k < n {
                assert(p(lead[k]));
            } else {
                assert(p(trail[k - n]));
            }
        }
        assert(b =~= s);
    }
}

/// A text begins with a prefix exactly if it is the prefix and a rest.
pub proof fn law_beginning(s: Seq<char>, prefix: Seq<char>)
    ensures
        begins(s, prefix) <==> exists|rest: Seq<char>| s == #[trigger] (prefix + rest),
{
    if begins(s, prefix) {
        let rest = s.skip(prefix.len() as int);
        assert(s =~= s.take(prefix.len() as int) + rest);
        assert(s == prefix + rest);
    }
    if exists|rest: Seq<char>| s == #[trigger] (prefix + rest) {
        let rest = choose|rest: Seq<char>| s == #[trigger] (prefix + rest);
        assert(s.take(prefix.len() as int) =~= prefix);
    }
}

/// Joining is one part after the other with the separator between neighbours:
/// one part is itself, and each further part comes behind a separator.
pub proof fn law_joining(parts: Seq<Seq<char>>, part: Seq<char>, sep: Seq<char>)
    ensures
        join_texts(seq![part], sep) == part,
        parts.len() > 0 ==> join_texts(parts.push(part), sep) == join_texts(parts, sep) + sep + part,
        join_texts(Seq::empty(), sep).len() == 0,
{
    assert(parts.push(part).drop_last() =~= parts);
}

/// Splitting cuts at every separator: what stands before one is cut on its own,
/// and so is what stands behind it. A text without separators is one piece.
pub proof fn law_splitting(a: Seq<char>, b: Seq<char>, sep: char)
    ensures
        split_on(a + seq![sep] + b, sep) == split_on(a, sep) + split_on(b, sep),
        !a.contains(sep) ==> split_on(a, sep) == seq![a],
    decreases a.len(),
{
    let all = a + seq![sep] + b;
    lemma_first_at(a, sep);
    let k = first_at(a, sep);
    if k < a.len() {
        lemma_first_at_is(all, sep, k);
        assert(all.take(k) =~= a.take(k));
        assert(all.skip(k + 1) =~= a.skip(k + 1) + seq![sep] + b);
        law_splitting(a.skip(k + 1), b, sep);
        assert(split_on(all, sep) =~= split_on(a, sep) + split_on(b, sep));
    } else {
        lemma_first_at_is(all, sep, a.len() as int);
        assert(all.take(a.len() as int) =~= a);
        assert(all.skip(a.len() as int + 1) =~= b);
        assert(split_on(all, sep) =~= seq![a] + split_on(b, sep));
    }
}

/// Texts are ordered by the first character in which they differ, the lesser one
/// first, and a text comes before every longer one that begins with it. Nothing
/// else comes before: the order is strict.
pub proof fn law_texts_are_ordered(front: Seq<char>, x: char, y: char, a: Seq<char>, b: Seq<char>)
    ensures
        x < y ==> text_lt(front.push(x) + a, front.push(y) + b),
        x < y ==> !text_lt(front.push(y) + b, front.push(x) + a),
        text_lt(front, front.push(x) + a),
        !text_lt(front.push(x) + a, front),
        !text_lt(front, front),
{
    let s = front.push(x) + a;
    let t = front.push(y) + b;
    let n = front.len() as int;
    assert(s.take(n) =~= front);
    assert(t.take(n) =~= front);
    assert(front.take(n) =~= front);
    lemma_lt_skip(s, t, n);
    lemma_lt_skip(t, s, n);
    lemma_lt_skip(front, s, n);
    lemma_lt_skip(s, front, n);
    lemma_lt_irreflexive(front);
    assert(s.skip(n)[0] == x && t.skip(n)[0] == y);
}

/// The number that decimal digits stand for.
pub open spec fn number_of(digits: Seq<char>) -> int
    decreases digits.len(),
{
    if digits.len() == 0 {
        0
    } else {
        10 * number_of(digits.drop_last()) + (digits.last() as int - 48)
    }
}

/// A number in decimal notation is made of the digits 0 to 9 and stands for the
/// number. It begins with a 0 only if it is no longer.
pub proof fn law_decimal_stands_for_the_number(n: nat)
    ensures
        number_of(decimal(n)) == n,
        decimal(n).len() > 0,
        forall|i: int| 0 <= i < decimal(n).len() ==> '0' <= #[trigger] decimal(n)[i] <= '9',
        decimal(n)[0] == '0' ==> decimal(n).len() == 1,
    decreases n,
{
    reveal_with_fuel(number_of, 2);
    let d = decimal(n);
    if n < 10 {
        assert(d.drop_last() =~= Seq::<char>::empty());
    } else {
        law_decimal_stands_for_the_number(n / 10);
        let front = decimal(n / 10);
        assert(d.drop_last() =~= front);
        assert(d[0] == front[0]);
        if front.len() == 1 && front[0] == '0' {
            assert(front.drop_last() =~= Seq::<char>::empty());
        }
    }
}

/// The value of a hexadecimal digit.
pub open spec fn hex_value(c: char) -> int {
    if c <= '9' {
        c as int - 48
    } else {
        c as int - 87
    }
}

/// Every byte becomes two hexadecimal digits, small letters among them, of which
/// the first counts sixteen times.
pub proof fn law_hex_digits_stand_for_the_bytes(bytes: Seq<u8>)
    ensures
        hex(bytes).len() == 2 * bytes.len(),
        forall|k: int|
            0 <= k < hex(bytes).len() ==> ('0' <= #[trigger] hex(bytes)[k] <= '9') || ('a' <= hex(bytes)[k] <= 'f'),
        forall|i: int|
            0 <= i < bytes.len() ==> #[trigger] bytes[i] == 16 * hex_value(hex(bytes)[2 * i]) + hex_value(
                hex(bytes)[2 * i + 1],
            ),
    decreases bytes.len(),
{
    lemma_hex(bytes);
    if bytes.len() > 0 {
        let front = bytes.drop_last();
        law_hex_digits_stand_for_the_bytes(front);
        let h = hex(front);
        let n = bytes.len() - 1;
        assert forall|k: int| 0 <= k < hex(bytes).len() implies ('0' <= #[trigger] hex(bytes)[k] <= '9') || ('a'
            <= hex(bytes)[k] <= 'f') by {
            assert(is_hex(hex(bytes)[k]));
        }
        assert forall|i: int| 0 <= i < bytes.len() implies #[trigger] bytes[i] == 16 * hex_value(hex(bytes)[2 * i])
            + hex_value(hex(bytes)[2 * i + 1]) by {
            if i < n {
                assert(front[i] == bytes[i]);
                assert(hex(bytes)[2 * i] == h[2 * i] && hex(bytes)[2 * i + 1] == h[2 * i + 1]);
            } else {
                let b = bytes[n] as int;
                assert(hex(bytes)[2 * n] == hex_digit(b / 16));
                assert(hex(bytes)[2 * n + 1] == hex_digit(b % 16));
            }
        }
    }
}

/// An ASCII capital letter becomes the small letter of the same rank, and every
/// other character stays.
pub proof fn law_ascii_letters_become_small(c: char)
    ensures
        'A' <= c <= 'Z' ==> 'a' <= ascii_lower(c) <= 'z' && ascii_lower(c) as int - 97 == c as int - 65,
        !('A' <= c <= 'Z') ==> ascii_lower(c) == c,
{
}

/// Texts are the same but for the case of ASCII letters exactly if they are the
/// same when all of these are small.
pub proof fn law_ascii_case_is_ignored(a: Seq<char>, b: Seq<char>)
    ensures
        same_ascii(a, b) <==> a.map_values(|c: char| ascii_lower(c)) == b.map_values(|c: char| ascii_lower(c)),
{
    let x = a.map_values(|c: char| ascii_lower(c));
    let y = b.map_values(|c: char| ascii_lower(c));
    if same_ascii(a, b) {
        assert(x =~= y);
    }
    if x == y {
        assert(a.len() == x.len() && b.len() == y.len());
        assert forall|i: int| 0 <= i < a.len() implies ascii_lower(#[trigger] a[i]) == ascii_lower(b[i]) by {
            assert(x[i] == y[i]);
        }
    }
}

/// An ASCII text in lowercase has its capital letters made small, and is else the
/// same.
pub proof fn law_ascii_text_in_lowercase(s: Seq<char>)
    requires
        forall|i: int| 0 <= i < s.len() ==> (#[trigger] s[i]) as int <= 127,
    ensures
        lowercase_of(s).len() == s.len(),
        forall|i: int|
            0 <= i < s.len() ==> if 'A' <= s[i] <= 'Z' {
                (#[trigger] lowercase_of(s)[i]) as int - 97 == s[i] as int - 65
            } else {
                lowercase_of(s)[i] == s[i]
            },
{
    assert forall|i: int| 0 <= i < s.len() implies if 'A' <= s[i] <= 'Z' {
        (#[trigger] lowercase_of(s)[i]) as int - 97 == s[i] as int - 65
    } else {
        lowercase_of(s)[i] == s[i]
    } by {
        law_ascii_letters_become_small(s[i]);
        assert(lowercase_of(s)[i] == ascii_lower(s[i]));
    }
}

/// A text with other characters is put in lowercase by the rules of Unicode.
pub proof fn law_other_text_in_lowercase(s: Seq<char>, i: int)
    requires
        0 <= i < s.len(),
        s[i] as int > 127,
    ensures
        lowercase_of(s) == unicode_lowercase(s),
{
}

/// What stands first: the place of a character before which it does not stand,
/// and the length of a text without it.
pub proof fn law_first_place(a: Seq<char>, c: char, b: Seq<char>)
    requires
        !a.contains(c),
    ensures
        first_at(a, c) == a.len(),
        first_at(a.push(c) + b, c) == a.len(),
{
    let s = a.push(c) + b;
    lemma_first_at(a, c);
    assert forall|i: int| 0 <= i < a.len() implies #[trigger] s[i] != c by {
        assert(s[i] == a[i]);
        assert(a.contains(a[i]));
    }
    assert(s[a.len() as int] == c);
    lemma_first_at_is(s, c, a.len() as int);
    if first_at(a, c) < a.len() {
        assert(a.contains(a[first_at(a, c)]));
    }
}

} // verus!
