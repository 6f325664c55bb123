//! Pieces of SQL text: bind placeholders and joined conditions.
use vstd::prelude::*;

use crate::text;

verus! {

/// `n` bind placeholders with commas between them.
pub open spec fn marks(n: nat) -> Seq<char>
    decreases n,
{
    if n == 0 {
        Seq::empty()
    } else if n == 1 {
        "?"@
    } else {
        marks((n - 1) as nat) + ",?"@
    }
}

/// `n` bind placeholders with commas between them.
pub fn placeholders(n: usize) -> (r: String)
    ensures
        r@ == marks(n as nat),
{
    let mut out = String::new();
    let mut i: usize = 0;
    proof {
        reveal_strlit("?");
    }
    while i < n
        invariant
            i <= n,
            out@ == marks(i as nat),
        decreases n - i,
    {
        if i == 0 {
            out.append("?");
            assert(out@ =~= "?"@);
        } else {
            out.append(",?");
        }
        i = i + 1;
    }
    out
}

/// How many times `c` occurs in `s`.
pub open spec fn count(s: Seq<char>, c: char) -> nat
    decreases s.len(),
{
    if s.len() == 0 {
        0
    } else {
        count(s.drop_last(), c) + (if s.last() == c {
            1nat
        } else {
            0nat
        })
    }
}

/// The occurrences in a concatenation are those in its halves.
pub proof fn lemma_count_add(a: Seq<char>, b: Seq<char>, c: char)
    ensures
        count(a + b, c) == count(a, c) + count(b, c),
    decreases b.len(),
{
    if b.len() == 0 {
        assert(a + b =~= a);
    } else {
        assert((a + b).drop_last() =~= a + b.drop_last());
        lemma_count_add(a, b.drop_last(), c);
    }
}

/// `marks(n)` holds `n` placeholders.
pub proof fn lemma_marks(n: nat)
    ensures
        count(marks(n), '?') == n,
    decreases n,
{
    reveal_strlit("?");
    reveal_strlit(",?");
    reveal_with_fuel(count, 3);
    if n == 1 {
        assert("?"@.drop_last() =~= Seq::<char>::empty());
    } else if n > 1 {
        lemma_marks((n - 1) as nat);
        lemma_count_add(marks((n - 1) as nat), ",?"@, '?');
        assert(",?"@.drop_last() =~= seq![',']);
        assert(seq![','].drop_last() =~= Seq::<char>::empty());
    }
}

/// A text in which `c` does not occur has no occurrences of it.
pub proof fn lemma_count_none(s: Seq<char>, c: char)
    requires
        forall|i: int| 0 <= i < s.len() ==> s[i] != c,
    ensures
        count(s, c) == 0,
    decreases s.len(),
{
    if s.len() > 0 {
        lemma_count_none(s.drop_last(), c);
    }
}

/// Placeholders are question marks joined by commas.
pub proof fn law_marks_are_joined_by_commas(n: nat)
    ensures
        marks(n) == text::join_texts(Seq::new(n, |i: int| seq!['?']), seq![',']),
    decreases n,
{
    reveal_strlit("?");
    reveal_strlit(",?");
    let parts = Seq::new(n, |i: int| seq!['?']);
    if n == 1 {
        assert(parts[0] =~= "?"@);
    } else if n > 1 {
        law_marks_are_joined_by_commas((n - 1) as nat);
        assert(parts.drop_last() =~= Seq::new((n - 1) as nat, |i: int| seq!['?']));
        assert(",?"@ =~= seq![','] + seq!['?']);
        assert(marks(n) =~= marks((n - 1) as nat) + seq![','] + seq!['?']);
    }
}

} // verus!
