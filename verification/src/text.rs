//! Strings as sequences of characters.
use crate::chars::is_whitespace;
use vstd::prelude::*;

verus! {

use crate::chars::white;

/// `String::push` appends one character at the end.
pub assume_specification[ String::push ](s: &mut String, c: char)
    ensures
        final(s)@ == old(s)@.push(c),
;

/// The characters of `text`, in order.
pub(crate) fn chars_of(text: &str) -> (chars: Vec<char>)
    ensures
        chars@ == text@,
{
    let mut chars: Vec<char> = Vec::new();
    for c in it: text.chars()
        invariant
            it.seq() == text@,
            chars@ == text@.take(it.index() as int),
    {
        chars.push(c);
    }
    assert(text@.take(text@.len() as int) == text@);
    chars
}

/// The string of the given characters.
pub(crate) fn string_of(chars: &[char]) -> (text: String)
    ensures
        text@ == chars@,
{
    let mut text: String = String::new();
    let mut i: usize = 0;
    while i < chars.len()
        invariant
            i <= chars.len(),
            text@ == chars@.take(i as int),
        decreases chars.len() - i,
    {
        text.push(chars[i]);
        i = i + 1;
    }
    assert(chars@.take(i as int) == chars@);
    text
}

/// How many white characters `s` starts with.
pub open spec fn leading_white(s: Seq<char>) -> nat
    decreases s.len(),
{
    if s.len() > 0 && white(s[0]) {
        1 + leading_white(s.skip(1))
    } else {
        0
    }
}

/// `s` without the white characters at its end.
pub open spec fn trimmed_end(s: Seq<char>) -> Seq<char>
    decreases s.len(),
{
    if s.len() > 0 && white(s.last()) {
        trimmed_end(s.drop_last())
    } else {
        s
    }
}

/// `s` without the white characters at either end.
pub open spec fn trimmed(s: Seq<char>) -> Seq<char> {
    trimmed_end(s.skip(leading_white(s) as int))
}

proof fn lemma_leading_white(s: Seq<char>)
    ensures
        leading_white(s) <= s.len(),
        forall|i: int| 0 <= i < leading_white(s) ==> white(#[trigger] s[i]),
        leading_white(s) < s.len() ==> !white(s[leading_white(s) as int]),
    decreases s.len(),
{
    if s.len() > 0 && white(s[0]) {
        let rest = s.skip(1);
        lemma_leading_white(rest);
        assert forall|i: int| 0 <= i < leading_white(s) implies white(#[trigger] s[i]) by {
            if i > 0 {
                assert(s[i] == rest[i - 1]);
            }
        }
    }
}

proof fn lemma_leading_white_count(s: Seq<char>, n: nat)
    requires
        n <= s.len(),
        forall|i: int| 0 <= i < n ==> white(#[trigger] s[i]),
        n < s.len() ==> !white(s[n as int]),
    ensures
        leading_white(s) == n,
{
    lemma_leading_white(s);
}

proof fn lemma_trimmed_end(s: Seq<char>)
    ensures
        trimmed_end(s).len() <= s.len(),
        trimmed_end(s) == s.take(trimmed_end(s).len() as int),
        trimmed_end(s).len() > 0 ==> !white(trimmed_end(s).last()),
        forall|i: int| trimmed_end(s).len() <= i < s.len() ==> white(#[trigger] s[i]),
    decreases s.len(),
{
    if s.len() > 0 && white(s.last()) {
        let rest = s.drop_last();
        lemma_trimmed_end(rest);
        let n = trimmed_end(s).len() as int;
        assert(rest.take(n) == s.take(n));
        assert forall|i: int| n <= i < s.len() implies white(#[trigger] s[i]) by {
            if i < s.len() - 1 {
                assert(s[i] == rest[i]);
            }
        }
    } else {
        assert(s.take(s.len() as int) == s);
    }
}

/// Trimming leaves no white character at either end, keeps what lies between, and only drops
/// white characters.
pub proof fn lemma_trimmed(s: Seq<char>)
    ensures
        ({
            let t = trimmed(s);
            let n = leading_white(s) as int;
            &&& n + t.len() <= s.len()
            &&& t == s.subrange(n, n + t.len())
            &&& t.len() > 0 ==> !white(t[0]) && !white(t.last())
            &&& forall|i: int|
                0 <= i < s.len() && !(n <= i < n + t.len()) ==> white(#[trigger] s[i])
        }),
{
    lemma_leading_white(s);
    let n = leading_white(s) as int;
    let rest = s.skip(n);
    lemma_trimmed_end(rest);
    let t = trimmed(s);
    assert(t == s.subrange(n, n + t.len()));
    assert forall|i: int| 0 <= i < s.len() && !(n <= i < n + t.len()) implies white(
        #[trigger] s[i],
    ) by {
        if i >= n {
            assert(s[i] == rest[i - n]);
        }
    }
}

/// A text with no white character at either end stays as it is.
pub proof fn lemma_untrimmed(s: Seq<char>)
    requires
        s.len() > 0 ==> !white(s[0]) && !white(s.last()),
    ensures
        trimmed(s) == s,
{
    lemma_leading_white_count(s, 0);
    assert(s.skip(0) == s);
}

/// Trimming twice trims once.
pub proof fn lemma_trimmed_idempotent(s: Seq<char>)
    ensures
        trimmed(trimmed(s)) == trimmed(s),
{
    let t = trimmed(s);
    lemma_trimmed(s);
    lemma_leading_white_count(t, 0);
    assert(t.skip(0) == t);
}

/// The characters without the white ones at either end.
pub(crate) fn trim(chars: &[char]) -> (r: Vec<char>)
    ensures
        r@ == trimmed(chars@),
{
    let mut start: usize = 0;
    while start < chars.len() && is_whitespace(chars[start])
        invariant
            start <= chars.len(),
            forall|i: int| 0 <= i < start ==> white(#[trigger] chars@[i]),
        decreases chars.len() - start,
    {
        start = start + 1;
    }
    proof {
        lemma_leading_white_count(chars@, start as nat);
    }
    let ghost rest = chars@.skip(start as int);
    let mut end: usize = chars.len();
    assert(rest.take(end - start) == rest);
    while end > start && is_whitespace(chars[end - 1])
        invariant
            start <= end <= chars.len(),
            rest == chars@.skip(start as int),
            trimmed_end(rest) == trimmed_end(rest.take(end - start)),
        decreases end,
    {
        proof {
            let s = rest.take(end - start);
            assert(s.drop_last() == rest.take(end - start - 1));
        }
        end = end - 1;
    }
    let mut r: Vec<char> = Vec::new();
    let mut i: usize = start;
    while i < end
        invariant
            start <= i <= end <= chars.len(),
            r@ == chars@.subrange(start as int, i as int),
        decreases end - i,
    {
        r.push(chars[i]);
        i = i + 1;
    }
    assert(r@ == rest.take(end - start));
    r
}

/// The characters of `s` that are not white, in order.
pub open spec fn letters(s: Seq<char>) -> Seq<char> {
    s.filter(|c: char| !white(c))
}

pub(crate) proof fn lemma_letters_push(s: Seq<char>, c: char)
    ensures
        letters(s.push(c)) == (if white(c) {
            letters(s)
        } else {
            letters(s).push(c)
        }),
{
    reveal(Seq::filter);
    assert(s.push(c).drop_last() == s);
}

pub(crate) proof fn lemma_letters_none(s: Seq<char>)
    requires
        forall|i: int| 0 <= i < s.len() ==> white(#[trigger] s[i]),
    ensures
        letters(s) == Seq::<char>::empty(),
    decreases s.len(),
{
    reveal(Seq::filter);
    if s.len() > 0 {
        lemma_letters_none(s.drop_last());
    }
}

/// Trimming loses nothing but white characters.
pub proof fn lemma_trimmed_letters(s: Seq<char>)
    ensures
        letters(trimmed(s)) == letters(s),
{
    lemma_trimmed(s);
    let t = trimmed(s);
    let n = leading_white(s) as int;
    let (head, tail) = (s.take(n), s.skip(n + t.len()));
    assert(s =~= head + t + tail);
    Seq::filter_distributes_over_add(head + t, tail, |c: char| !white(c));
    Seq::filter_distributes_over_add(head, t, |c: char| !white(c));
    lemma_letters_none(head);
    lemma_letters_none(tail);
    assert(letters(s) =~= letters(t));
}

} // verus!
