//! Rules that derive tags from the paths of files.
use vstd::prelude::*;

use crate::pattern;
use crate::pattern::Pattern;
use crate::strmap::StrMap;
use crate::text;

verus! {

/// The text that the last of the first `n` groups with this name matches.
pub open spec fn named_field(
    names: Seq<Option<Seq<char>>>,
    groups: Seq<Option<Seq<char>>>,
    key: Seq<char>,
    n: int,
) -> Option<Seq<char>>
    decreases n,
{
    if n <= 0 {
        None
    } else if n - 1 < groups.len() && names[n - 1] == Some(key) && groups[n - 1] is Some {
        groups[n - 1]
    } else {
        named_field(names, groups, key, n - 1)
    }
}

/// The text that the group with this number matches, among the first `n`
/// groups. The whole match has no number.
pub open spec fn numbered_field(groups: Seq<Option<Seq<char>>>, key: Seq<char>, n: int) -> Option<Seq<char>>
    decreases n,
{
    if n <= 1 {
        None
    } else if text::decimal((n - 1) as nat) == key && groups[n - 1] is Some {
        groups[n - 1]
    } else {
        numbered_field(groups, key, n - 1)
    }
}

/// The fields that every file has.
pub open spec fn file_field(key: Seq<char>, filename: Seq<char>, stem: Seq<char>, parent: Seq<char>) -> Option<
    Seq<char>,
> {
    if key == "filename"@ {
        Some(filename)
    } else if key == "stem"@ {
        Some(stem)
    } else if key == "parent"@ {
        Some(parent)
    } else {
        None
    }
}

/// The value of a field: that of a named group goes before that of a numbered
/// group, and that before what every file has.
pub open spec fn field(
    key: Seq<char>,
    filename: Seq<char>,
    stem: Seq<char>,
    parent: Seq<char>,
    groups: Seq<Option<Seq<char>>>,
    names: Seq<Option<Seq<char>>>,
) -> Option<Seq<char>> {
    let named = named_field(names, groups, key, names.len() as int);
    let numbered = numbered_field(groups, key, groups.len() as int);
    if named is Some {
        named
    } else if numbered is Some {
        numbered
    } else {
        file_field(key, filename, stem, parent)
    }
}

/// The value that a map has for a key.
pub open spec fn value_in(m: Map<Seq<char>, String>, key: Seq<char>) -> Option<Seq<char>> {
    if m.contains_key(key) {
        Some(m[key]@)
    } else {
        None
    }
}

/// The fields that a template can name, from what the groups of a pattern
/// matched.
pub fn fields_for(
    filename: &str,
    stem: &str,
    parent: &str,
    groups: &Vec<Option<String>>,
    names: &Vec<Option<String>>,
) -> (r: StrMap<String>)
    ensures
        forall|key: Seq<char>| #[trigger]
            value_in(r@, key) == field(key, filename@, stem@, parent@, pattern::opt_texts(groups@), pattern::opt_texts(names@)),
{
    let ghost gs = pattern::opt_texts(groups@);
    let ghost ns = pattern::opt_texts(names@);
    proof {
        reveal_strlit("filename");
        reveal_strlit("stem");
        reveal_strlit("parent");
        assert("filename"@[0] != "stem"@[0]);
        assert("filename"@[0] != "parent"@[0]);
        assert("stem"@[0] != "parent"@[0]);
    }
    let mut fields: StrMap<String> = StrMap::new();
    fields.insert("filename".to_owned(), filename.to_owned());
    fields.insert("stem".to_owned(), stem.to_owned());
    fields.insert("parent".to_owned(), parent.to_owned());
    let mut i: usize = 1;
    while i < groups.len()
        invariant
            1 <= i,
            i <= groups.len() || (groups.len() == 0 && i == 1),
            gs == pattern::opt_texts(groups@),
            forall|key: Seq<char>| #[trigger]
                value_in(fields@, key) == (if numbered_field(gs, key, i as int) is Some {
                    numbered_field(gs, key, i as int)
                } else {
                    file_field(key, filename@, stem@, parent@)
                }),
        decreases groups.len() - i,
    {
        let ghost was = fields@;
        assert(gs[i as int] == (match groups@[i as int] {
            Some(s) => Some(s@),
            None => None,
        }));
        if let Some(value) = &groups[i] {
            fields.insert(text::decimal_of(i as u64), value.clone());
            assert forall|key: Seq<char>| #[trigger]
                value_in(fields@, key) == (if numbered_field(gs, key, i + 1) is Some {
                    numbered_field(gs, key, i + 1)
                } else {
                    file_field(key, filename@, stem@, parent@)
                }) by {
                assert(value_in(was, key) == (if numbered_field(gs, key, i as int) is Some {
                    numbered_field(gs, key, i as int)
                } else {
                    file_field(key, filename@, stem@, parent@)
                }));
            }
        }
        i = i + 1;
    }
    assert forall|key: Seq<char>| numbered_field(gs, key, i as int) == #[trigger] numbered_field(
        gs,
        key,
        gs.len() as int,
    ) by {}
    let ghost base = fields@;
    let mut j: usize = 0;
    assert forall|key: Seq<char>| #[trigger] value_in(fields@, key) == (if named_field(ns, gs, key, 0) is Some {
        named_field(ns, gs, key, 0)
    } else {
        value_in(base, key)
    }) by {}
    while j < names.len()
        invariant
            j <= names.len(),
            gs == pattern::opt_texts(groups@),
            ns == pattern::opt_texts(names@),
            forall|key: Seq<char>| #[trigger]
                value_in(fields@, key) == (if named_field(ns, gs, key, j as int) is Some {
                    named_field(ns, gs, key, j as int)
                } else {
                    value_in(base, key)
                }),
        decreases names.len() - j,
    {
        let ghost was = fields@;
        assert(ns[j as int] == (match names@[j as int] {
            Some(s) => Some(s@),
            None => None,
        }));
        if let Some(name) = &names[j] {
            if j < groups.len() {
                assert(gs[j as int] == (match groups@[j as int] {
                    Some(s) => Some(s@),
                    None => None,
                }));
                if let Some(value) = &groups[j] {
                    fields.insert(name.clone(), value.clone());
                }
            }
        }
        assert forall|key: Seq<char>| #[trigger]
            value_in(fields@, key) == (if named_field(ns, gs, key, j + 1) is Some {
                named_field(ns, gs, key, j + 1)
            } else {
                value_in(base, key)
            }) by {
            assert(value_in(was, key) == (if named_field(ns, gs, key, j as int) is Some {
                named_field(ns, gs, key, j as int)
            } else {
                value_in(base, key)
            }));
        }
        j = j + 1;
    }
    fields
}

/// A template with each `{field}` replaced by the value of the field. The first
/// placeholder that has no value, or no end, makes it fail.
pub open spec fn rendered(template: Seq<char>, value: spec_fn(Seq<char>) -> Option<Seq<char>>) -> Result<
    Seq<char>,
    Seq<char>,
>
    decreases template.len(),
{
    let open = text::first_at(template, '{');
    let behind = template.skip(open + 1);
    let close = text::first_at(behind, '}');
    let key = behind.take(close);
    if open >= template.len() {
        Ok(template)
    } else if close >= behind.len() {
        Err("unclosed '{'"@)
    } else if value(key) is None {
        Err(key)
    } else {
        proof {
            text::lemma_first_at(template, '{');
            text::lemma_first_at(behind, '}');
        }
        match rendered(behind.skip(close + 1), value) {
            Ok(rest) => Ok(template.take(open) + value(key)->0 + rest),
            Err(e) => Err(e),
        }
    }
}

/// The values of a map of fields.
pub open spec fn values_of(m: Map<Seq<char>, String>) -> spec_fn(Seq<char>) -> Option<Seq<char>> {
    |key: Seq<char>| value_in(m, key)
}

/// A template that is rendered comes out the same before another one: what two
/// templates give together is what each gives, one after the other.
pub proof fn law_templates_join(a: Seq<char>, b: Seq<char>, value: spec_fn(Seq<char>) -> Option<Seq<char>>)
    requires
        rendered(a, value) is Ok,
    ensures
        rendered(a + b, value) == (match rendered(b, value) {
            Ok(s) => Ok(rendered(a, value)->Ok_0 + s),
            Err(e) => Err(e),
        }),
    decreases a.len(),
{
    let both = a + b;
    let open = text::first_at(a, '{');
    text::lemma_first_at(a, '{');
    if open >= a.len() {
        let next = text::first_at(b, '{');
        text::lemma_first_at(b, '{');
        text::lemma_first_at_is(both, '{', a.len() + next);
        if next < b.len() {
            assert(both.skip(a.len() + next + 1) =~= b.skip(next + 1));
            assert(both.take(a.len() + next) =~= a + b.take(next));
            let behind = b.skip(next + 1);
            let close = text::first_at(behind, '}');
            if let Ok(rest) = rendered(behind.skip(close + 1), value) {
                let v = value(behind.take(close))->0;
                assert(a + b.take(next) + v + rest =~= a + (b.take(next) + v + rest));
            }
        }
    } else {
        let behind = a.skip(open + 1);
        let close = text::first_at(behind, '}');
        text::lemma_first_at(behind, '}');
        text::lemma_first_at_is(both, '{', open);
        assert(both.skip(open + 1) =~= behind + b);
        text::lemma_first_at_is(behind + b, '}', close);
        assert((behind + b).take(close) =~= behind.take(close));
        assert((behind + b).skip(close + 1) =~= behind.skip(close + 1) + b);
        assert(both.take(open) =~= a.take(open));
        law_templates_join(behind.skip(close + 1), b, value);
        let v = value(behind.take(close))->0;
        if let Ok(s) = rendered(b, value) {
            let rest = rendered(behind.skip(close + 1), value)->Ok_0;
            assert(a.take(open) + v + (rest + s) =~= (a.take(open) + v + rest) + s);
        }
    }
}

/// Renders `{field}`-style placeholders in `template` from `fields`. Returns
/// the name of the first placeholder that has no matching field, if any.
pub fn render_template(template: &str, fields: &StrMap<String>) -> (r: Result<String, String>)
    ensures
        match r {
            Ok(s) => rendered(template@, values_of(fields@)) == Ok::<Seq<char>, Seq<char>>(s@),
            Err(e) => rendered(template@, values_of(fields@)) == Err::<Seq<char>, Seq<char>>(e@),
        },
{
    let cs = text::chars_of(template);
    let ghost t = template@;
    let ghost value = values_of(fields@);
    let mut out = String::new();
    let mut from: usize = 0;
    assert(t.skip(0) =~= t);
    assert(rendered(t, value) is Ok ==> out@ + rendered(t, value)->Ok_0 =~= rendered(t, value)->Ok_0);
    loop
        invariant
            cs@ == t,
            t == template@,
            from <= cs.len(),
            value == values_of(fields@),
            rendered(t, value) is Ok <==> rendered(t.skip(from as int), value) is Ok,
            rendered(t, value) is Ok ==> rendered(t, value)->Ok_0 == out@ + rendered(t.skip(from as int), value)->Ok_0,
            rendered(t, value) is Err ==> rendered(t, value)->Err_0 == rendered(t.skip(from as int), value)->Err_0,
        decreases cs.len() - from,
    {
        let ghost rest = t.skip(from as int);
        let open: usize = text::find_from(&cs, from, '{');
        proof {
            text::lemma_first_at(rest, '{');
        }
        if open >= cs.len() {
            let tail = text::string_of(&cs, from, cs.len());
            out.append(tail.as_str());
            assert(tail@ =~= rest);
            return Ok(out);
        }
        let ghost behind = rest.skip(open - from + 1);
        assert(behind =~= t.skip(open + 1));
        let close: usize = text::find_from(&cs, open + 1, '}');
        proof {
            text::lemma_first_at(behind, '}');
        }
        if close >= cs.len() {
            return Err("unclosed '{'".to_owned());
        }
        let key = text::string_of(&cs, open + 1, close);
        assert(key@ =~= behind.take(close - open - 1));
        match fields.get(key.as_str()) {
            Some(v) => {
                let front = text::string_of(&cs, from, open);
                assert(front@ =~= rest.take(open - from));
                let ghost was = out@;
                out.append(front.as_str());
                out.append(v.as_str());
                proof {
                    assert(value(key@) == Some(v@));
                    let next = t.skip(close + 1);
                    assert(behind.skip(close - open - 1 + 1) =~= next);
                    if rendered(next, value) is Ok {
                        let tail = rendered(next, value)->Ok_0;
                        assert(was + (front@ + v@ + tail) =~= out@ + tail);
                    }
                }
                from = close + 1;
            },
            None => {
                assert(value(key@) is None);
                return Err(key);
            },
        }
    }
}

/// A `(regex, template)` pair for deriving a tag from a file's complete path.
/// `template` is rendered with `{name}` placeholders filled in from the
/// regex's named/numbered capture groups plus the built-in `{filename}`,
/// `{stem}` and `{parent}` fields; a placeholder with no matching field
/// fails the whole rule (for that file) rather than silently dropping it.
pub struct TagRule {
    pattern: Pattern,
    template: String,
    names: Vec<Option<String>>,
}

/// What a template gives for a file, from what the groups of its pattern matched
/// in the path: nothing if the pattern did not match, else the rendered text or
/// the field that is missing.
pub open spec fn filled(
    template: Seq<char>,
    names: Seq<Option<Seq<char>>>,
    groups: Option<Seq<Option<Seq<char>>>>,
    filename: Seq<char>,
    stem: Seq<char>,
    parent: Seq<char>,
) -> Option<Result<Seq<char>, Seq<char>>> {
    match groups {
        Some(gs) => Some(rendered(template, |key: Seq<char>| field(key, filename, stem, parent, gs, names))),
        None => None,
    }
}

/// The tag that a template gives for a file, from what the groups of its pattern
/// matched in the path.
pub open spec fn tag_for(
    template: Seq<char>,
    names: Seq<Option<Seq<char>>>,
    groups: Option<Seq<Option<Seq<char>>>>,
    filename: Seq<char>,
    stem: Seq<char>,
    parent: Seq<char>,
) -> Option<Seq<char>> {
    match filled(template, names, groups, filename, stem, parent) {
        Some(Ok(tag)) => Some(tag),
        _ => None,
    }
}

/// The field that a template names and a file does not have, though its path
/// matches the pattern.
pub open spec fn missing_for(
    template: Seq<char>,
    names: Seq<Option<Seq<char>>>,
    groups: Option<Seq<Option<Seq<char>>>>,
    filename: Seq<char>,
    stem: Seq<char>,
    parent: Seq<char>,
) -> Option<Seq<char>> {
    match filled(template, names, groups, filename, stem, parent) {
        Some(Err(missing)) => Some(missing),
        _ => None,
    }
}

fn render_for(
    template: &str,
    names: &Vec<Option<String>>,
    groups: &Option<Vec<Option<String>>>,
    filename: &str,
    stem: &str,
    parent: &str,
) -> (r: Option<Result<String, String>>)
    ensures
        ({
            let f = filled(
                template@,
                pattern::opt_texts(names@),
                pattern::opt_groups(*groups),
                filename@,
                stem@,
                parent@,
            );
            match r {
                None => f is None,
                Some(Ok(tag)) => f == Some(Ok::<Seq<char>, Seq<char>>(tag@)),
                Some(Err(missing)) => f == Some(Err::<Seq<char>, Seq<char>>(missing@)),
            }
        }),
{
    match groups {
        Some(gs) => {
            let fields = fields_for(filename, stem, parent, gs, names);
            proof {
                let value = |key: Seq<char>|
                    field(key, filename@, stem@, parent@, pattern::opt_texts(gs@), pattern::opt_texts(names@));
                assert forall|key: Seq<char>| #[trigger] values_of(fields@)(key) == value(key) by {
                    assert(value_in(fields@, key) == field(
                        key,
                        filename@,
                        stem@,
                        parent@,
                        pattern::opt_texts(gs@),
                        pattern::opt_texts(names@),
                    ));
                }
                assert(values_of(fields@) =~= value);
            }
            Some(render_template(template, &fields))
        },
        None => None,
    }
}

/// The tag that a template gives for a file, from what the groups of its pattern
/// matched in the path; none if the pattern did not match or a field is missing.
pub fn fill(
    template: &str,
    names: &Vec<Option<String>>,
    groups: &Option<Vec<Option<String>>>,
    filename: &str,
    stem: &str,
    parent: &str,
) -> (r: Option<String>)
    ensures
        text::opt_string(r) == tag_for(
            template@,
            pattern::opt_texts(names@),
            pattern::opt_groups(*groups),
            filename@,
            stem@,
            parent@,
        ),
{
    match render_for(template, names, groups, filename, stem, parent) {
        Some(Ok(tag)) => Some(tag),
        _ => None,
    }
}

/// The field that a template names and a file does not have, from what the
/// groups of its pattern matched in the path; none if the pattern did not match.
pub fn missing(
    template: &str,
    names: &Vec<Option<String>>,
    groups: &Option<Vec<Option<String>>>,
    filename: &str,
    stem: &str,
    parent: &str,
) -> (r: Option<String>)
    ensures
        text::opt_string(r) == missing_for(
            template@,
            pattern::opt_texts(names@),
            pattern::opt_groups(*groups),
            filename@,
            stem@,
            parent@,
        ),
{
    match render_for(template, names, groups, filename, stem, parent) {
        Some(Err(field)) => Some(field),
        _ => None,
    }
}

impl TagRule {
    /// The pattern of the rule.
    pub closed spec fn pattern(&self) -> Seq<char> {
        self.pattern@
    }

    /// The template of the rule.
    pub closed spec fn template(&self) -> Seq<char> {
        self.template@
    }

    #[verifier::type_invariant]
    spec fn wf(&self) -> bool {
        pattern::opt_texts(self.names@) == pattern::group_names(self.pattern@)
    }

    /// The rule of a pattern and a template, or what is wrong with the pattern.
    pub fn new(pattern: &str, template: &str) -> (r: Result<Self, String>)
        ensures
            r matches Ok(rule) ==> rule.pattern() == pattern@ && rule.template() == template@,
    {
        Self::of(pattern::compile(pattern), template)
    }

    /// The rule of a template and what became of compiling a pattern: there is
    /// one exactly if the pattern compiled, and else what is wrong with it.
    pub fn of(compiled: Result<Pattern, String>, template: &str) -> (r: Result<Self, String>)
        ensures
            match compiled {
                Ok(p) => r is Ok && r->Ok_0.pattern() == p@ && r->Ok_0.template() == template@,
                Err(e) => r == Err::<Self, String>(e),
            },
    {
        match compiled {
            Ok(p) => {
                let names = pattern::capture_names(&p);
                Ok(TagRule { pattern: p, template: template.to_owned(), names })
            },
            Err(e) => Err(e),
        }
    }

    /// The tag that the rule gives for a file; none if the pattern does not match
    /// its path or a field is missing.
    pub fn apply(&self, path: &str, filename: &str, stem: &str, parent: &str) -> (r: Option<String>)
        ensures
            text::opt_string(r) == tag_for(
                self.template(),
                pattern::group_names(self.pattern()),
                pattern::match_groups(self.pattern(), path@),
                filename@,
                stem@,
                parent@,
            ),
    {
        proof {
            use_type_invariant(self);
        }
        let groups = pattern::captures(&self.pattern, path);
        fill(self.template.as_str(), &self.names, &groups, filename, stem, parent)
    }

    /// The field that the template names and a file does not have, though the
    /// pattern matches its path. The rule gives no tag for such a file.
    pub fn missing_field(&self, path: &str, filename: &str, stem: &str, parent: &str) -> (r: Option<String>)
        ensures
            text::opt_string(r) == missing_for(
                self.template(),
                pattern::group_names(self.pattern()),
                pattern::match_groups(self.pattern(), path@),
                filename@,
                stem@,
                parent@,
            ),
    {
        proof {
            use_type_invariant(self);
        }
        let groups = pattern::captures(&self.pattern, path);
        missing(self.template.as_str(), &self.names, &groups, filename, stem, parent)
    }

    /// The template of the rule.
    pub fn template_text(&self) -> (r: &str)
        ensures
            r@ == self.template(),
    {
        self.template.as_str()
    }
}

/// Text before the first brace stays as it is.
pub proof fn law_plain_text_is_kept(plain: Seq<char>, rest: Seq<char>, value: spec_fn(Seq<char>) -> Option<Seq<char>>)
    requires
        !plain.contains('{'),
    ensures
        rendered(plain, value) == Ok::<Seq<char>, Seq<char>>(plain),
        rendered(plain + rest, value) == (match rendered(rest, value) {
            Ok(s) => Ok(plain + s),
            Err(e) => Err(e),
        }),
{
    text::lemma_first_at(plain, '{');
    law_templates_join(plain, rest, value);
}

/// A name in braces is replaced by the value of its field. If it has none, the
/// template fails and tells the name, whatever follows. A brace that is not
/// closed makes it fail too.
pub proof fn law_placeholder_is_replaced(key: Seq<char>, rest: Seq<char>, value: spec_fn(Seq<char>) -> Option<Seq<char>>)
    requires
        !key.contains('}'),
    ensures
        rendered(seq!['{'] + key + seq!['}'] + rest, value) == (match value(key) {
            None => Err::<Seq<char>, Seq<char>>(key),
            Some(v) => match rendered(rest, value) {
                Ok(s) => Ok(v + s),
                Err(e) => Err(e),
            },
        }),
        rendered(seq!['{'] + key, value) == Err::<Seq<char>, Seq<char>>("unclosed '{'"@),
{
    let t = seq!['{'] + key + seq!['}'] + rest;
    let behind = t.skip(1);
    let k = key.len() as int;
    text::lemma_first_at_is(t, '{', 0);
    assert(behind =~= key + seq!['}'] + rest);
    assert forall|i: int| 0 <= i < k implies behind[i] != '}' by {
        assert(key.contains(key[i]));
    }
    text::lemma_first_at_is(behind, '}', k);
    assert(behind.take(k) =~= key);
    assert(behind.skip(k + 1) =~= rest);
    if value(key) is Some {
        let v = value(key)->0;
        if let Ok(s) = rendered(rest, value) {
            assert(t.take(0) + v + s =~= v + s);
        }
    }
    let u = seq!['{'] + key;
    text::lemma_first_at_is(u, '{', 0);
    assert(u.skip(1) =~= key);
    text::lemma_first_at(key, '}');
}

proof fn lemma_named_field(names: Seq<Option<Seq<char>>>, groups: Seq<Option<Seq<char>>>, key: Seq<char>, i: int, n: int)
    requires
        0 <= i < n <= names.len(),
        i < groups.len(),
        names[i] == Some(key),
        groups[i] is Some,
        forall|j: int| i < j < n && j < groups.len() ==> !(#[trigger] names[j] == Some(key) && groups[j] is Some),
    ensures
        named_field(names, groups, key, n) == groups[i],
    decreases n,
{
    if n - 1 > i {
        assert(n - 1 < groups.len() ==> !(names[n - 1] == Some(key) && groups[n - 1] is Some));
        lemma_named_field(names, groups, key, i, n - 1);
    }
}

proof fn lemma_no_named_field(names: Seq<Option<Seq<char>>>, groups: Seq<Option<Seq<char>>>, key: Seq<char>, n: int)
    requires
        n <= names.len(),
        forall|j: int| 0 <= j < n && j < groups.len() ==> !(#[trigger] names[j] == Some(key) && groups[j] is Some),
    ensures
        named_field(names, groups, key, n) is None,
    decreases n,
{
    if n > 0 {
        assert(n - 1 < groups.len() ==> !(names[n - 1] == Some(key) && groups[n - 1] is Some));
        lemma_no_named_field(names, groups, key, n - 1);
    }
}

proof fn lemma_numbered_field(groups: Seq<Option<Seq<char>>>, key: Seq<char>, n: int)
    requires
        n <= groups.len(),
    ensures
        numbered_field(groups, key, n) matches Some(v) ==> exists|i: int|
            1 <= i < n && #[trigger] groups[i] == Some(v) && key == text::decimal(i as nat),
        forall|i: int|
            1 <= i < n && #[trigger] groups[i] is Some && key == text::decimal(i as nat) ==> numbered_field(
                groups,
                key,
                n,
            ) == groups[i],
    decreases n,
{
    if n > 1 {
        lemma_numbered_field(groups, key, n - 1);
        text::law_decimal_stands_for_the_number((n - 1) as nat);
        assert forall|i: int| 1 <= i < n && #[trigger] groups[i] is Some && key == text::decimal(i as nat) implies numbered_field(
            groups,
            key,
            n,
        ) == groups[i] by {
            text::law_decimal_stands_for_the_number(i as nat);
        }
        if text::decimal((n - 1) as nat) == key && groups[n - 1] is Some {
            assert(groups[n - 1] == Some(groups[n - 1]->0));
        }
    }
}

/// A field that a group is named after has what the group matched, also if it is
/// called like a field that every file has.
pub proof fn law_named_group_gives_its_field(
    key: Seq<char>,
    filename: Seq<char>,
    stem: Seq<char>,
    parent: Seq<char>,
    groups: Seq<Option<Seq<char>>>,
    names: Seq<Option<Seq<char>>>,
    i: int,
)
    requires
        0 <= i < names.len() && i < groups.len(),
        names[i] == Some(key),
        groups[i] is Some,
        forall|j: int|
            i < j < names.len() && j < groups.len() ==> !(#[trigger] names[j] == Some(key) && groups[j] is Some),
    ensures
        field(key, filename, stem, parent, groups, names) == groups[i],
{
    lemma_named_field(names, groups, key, i, names.len() as int);
}

/// A field that is a number has what the group with this number matched. The
/// whole match has no number, and a group that took no part no field.
pub proof fn law_numbered_group_gives_its_field(
    i: nat,
    filename: Seq<char>,
    stem: Seq<char>,
    parent: Seq<char>,
    groups: Seq<Option<Seq<char>>>,
    names: Seq<Option<Seq<char>>>,
)
    requires
        forall|j: int|
            0 <= j < names.len() && j < groups.len() ==> !(#[trigger] names[j] == Some(text::decimal(i))
                && groups[j] is Some),
    ensures
        field(text::decimal(i), filename, stem, parent, groups, names) == (if 1 <= i < groups.len() {
            groups[i as int]
        } else {
            None
        }),
{
    let key = text::decimal(i);
    let n = groups.len() as int;
    text::law_decimal_stands_for_the_number(i);
    lemma_no_named_field(names, groups, key, names.len() as int);
    lemma_numbered_field(groups, key, n);
    reveal_strlit("filename");
    reveal_strlit("stem");
    reveal_strlit("parent");
    assert('0' <= key[0] <= '9');
    assert("filename"@[0] == 'f' && "stem"@[0] == 's' && "parent"@[0] == 'p');
    if numbered_field(groups, key, n) is Some {
        let v = numbered_field(groups, key, n)->0;
        let j = choose|j: int| 1 <= j < n && #[trigger] groups[j] == Some(v) && key == text::decimal(j as nat);
        text::law_decimal_stands_for_the_number(j as nat);
    } else if 1 <= i < n {
        assert(groups[i as int] is None);
    }
}

/// The name of a file, its stem and the name of its directory are fields under
/// these names, unless a group has the name and took part. No other field is
/// there without a group.
pub proof fn law_every_file_has_its_fields(
    key: Seq<char>,
    filename: Seq<char>,
    stem: Seq<char>,
    parent: Seq<char>,
    groups: Seq<Option<Seq<char>>>,
    names: Seq<Option<Seq<char>>>,
)
    requires
        forall|j: int|
            0 <= j < names.len() && j < groups.len() ==> !(#[trigger] names[j] == Some(key) && groups[j] is Some),
        forall|j: nat| 1 <= j < groups.len() && key == #[trigger] text::decimal(j) ==> groups[j as int] is None,
    ensures
        key == "filename"@ ==> field(key, filename, stem, parent, groups, names) == Some(filename),
        key == "stem"@ ==> field(key, filename, stem, parent, groups, names) == Some(stem),
        key == "parent"@ ==> field(key, filename, stem, parent, groups, names) == Some(parent),
        key != "filename"@ && key != "stem"@ && key != "parent"@ ==> field(key, filename, stem, parent, groups, names)
            is None,
{
    let n = groups.len() as int;
    reveal_strlit("filename");
    reveal_strlit("stem");
    reveal_strlit("parent");
    assert("filename"@[0] == 'f' && "stem"@[0] == 's' && "parent"@[0] == 'p');
    lemma_no_named_field(names, groups, key, names.len() as int);
    lemma_numbered_field(groups, key, n);
    if numbered_field(groups, key, n) is Some {
        let v = numbered_field(groups, key, n)->0;
        let j = choose|j: int| 1 <= j < n && #[trigger] groups[j] == Some(v) && key == text::decimal(j as nat);
        assert(key == text::decimal(j as nat));
    }
}

proof fn lemma_no_number(key: Seq<char>, n: nat)
    requires
        key == "filename"@ || key == "stem"@ || key == "parent"@,
    ensures
        key != text::decimal(n),
{
    reveal_strlit("filename");
    reveal_strlit("stem");
    reveal_strlit("parent");
    assert("filename"@[0] == 'f' && "stem"@[0] == 's' && "parent"@[0] == 'p');
    text::law_decimal_stands_for_the_number(n);
}

/// A template of one placeholder gives what the file has under that name, where
/// the pattern matches and has no group of the name.
pub proof fn law_file_fields_are_filled_in(
    names: Seq<Option<Seq<char>>>,
    groups: Seq<Option<Seq<char>>>,
    filename: Seq<char>,
    stem: Seq<char>,
    parent: Seq<char>,
)
    ensures
        !names.contains(Some("filename"@)) ==> tag_for("{filename}"@, names, Some(groups), filename, stem, parent)
            == Some(filename),
        !names.contains(Some("stem"@)) ==> tag_for("{stem}"@, names, Some(groups), filename, stem, parent) == Some(stem),
        !names.contains(Some("parent"@)) ==> tag_for("{parent}"@, names, Some(groups), filename, stem, parent) == Some(
            parent,
        ),
{
    reveal_strlit("{filename}");
    reveal_strlit("{stem}");
    reveal_strlit("{parent}");
    reveal_strlit("filename");
    reveal_strlit("stem");
    reveal_strlit("parent");
    assert("{filename}"@ =~= seq!['{'] + "filename"@ + seq!['}']);
    assert("{stem}"@ =~= seq!['{'] + "stem"@ + seq!['}']);
    assert("{parent}"@ =~= seq!['{'] + "parent"@ + seq!['}']);
    if !names.contains(Some("filename"@)) {
        lemma_lone_placeholder("filename"@, names, groups, filename, stem, parent);
    }
    if !names.contains(Some("stem"@)) {
        lemma_lone_placeholder("stem"@, names, groups, filename, stem, parent);
    }
    if !names.contains(Some("parent"@)) {
        lemma_lone_placeholder("parent"@, names, groups, filename, stem, parent);
    }
}

proof fn lemma_lone_placeholder(
    key: Seq<char>,
    names: Seq<Option<Seq<char>>>,
    groups: Seq<Option<Seq<char>>>,
    filename: Seq<char>,
    stem: Seq<char>,
    parent: Seq<char>,
)
    requires
        key == "filename"@ || key == "stem"@ || key == "parent"@,
        !names.contains(Some(key)),
    ensures
        tag_for(seq!['{'] + key + seq!['}'], names, Some(groups), filename, stem, parent) == field(
            key,
            filename,
            stem,
            parent,
            groups,
            names,
        ),
        key == "filename"@ ==> field(key, filename, stem, parent, groups, names) == Some(filename),
        key == "stem"@ ==> field(key, filename, stem, parent, groups, names) == Some(stem),
        key == "parent"@ ==> field(key, filename, stem, parent, groups, names) == Some(parent),
{
    reveal_strlit("filename");
    reveal_strlit("stem");
    reveal_strlit("parent");
    assert(!key.contains('}'));
    let value = |k: Seq<char>| field(k, filename, stem, parent, groups, names);
    let none = Seq::<char>::empty();
    let t = seq!['{'] + key + seq!['}'];
    law_placeholder_is_replaced(key, none, value);
    law_plain_text_is_kept(none, none, value);
    assert(t + none =~= t);
    assert forall|j: int| 0 <= j < names.len() implies #[trigger] names[j] != Some(key) by {
        assert(names.contains(names[j]));
    }
    assert forall|j: nat| 1 <= j < groups.len() implies key != #[trigger] text::decimal(j) by {
        lemma_no_number(key, j);
    }
    law_every_file_has_its_fields(key, filename, stem, parent, groups, names);
    let v = field(key, filename, stem, parent, groups, names)->0;
    assert(v + none =~= v);
}

/// A rule gives nothing, and misses nothing, where its pattern does not match.
/// Where it does, the rule either gives a tag or misses a field, as the template
/// comes out with the fields of the file and of the groups.
pub proof fn law_rule_gives_a_tag_or_misses_a_field(
    template: Seq<char>,
    names: Seq<Option<Seq<char>>>,
    groups: Seq<Option<Seq<char>>>,
    filename: Seq<char>,
    stem: Seq<char>,
    parent: Seq<char>,
)
    ensures
        tag_for(template, names, None, filename, stem, parent) is None,
        missing_for(template, names, None, filename, stem, parent) is None,
        tag_for(template, names, Some(groups), filename, stem, parent) is Some <==> missing_for(
            template,
            names,
            Some(groups),
            filename,
            stem,
            parent,
        ) is None,
        ({
            let value = |key: Seq<char>| field(key, filename, stem, parent, groups, names);
            match rendered(template, value) {
                Ok(tag) => tag_for(template, names, Some(groups), filename, stem, parent) == Some(tag),
                Err(missing) => missing_for(template, names, Some(groups), filename, stem, parent) == Some(missing),
            }
        }),
{
}

/// A table of fields gives each key the text that it holds under it.
pub proof fn law_table_gives_its_texts(m: Map<Seq<char>, String>, key: Seq<char>)
    ensures
        m.contains_key(key) ==> values_of(m)(key) == Some(m[key]@),
        !m.contains_key(key) ==> values_of(m)(key) is None,
{
}

} // verus!
