//! Spacing repairs within one piece of text.
use crate::chars::{
    is_ascii_alphabetic, is_ascii_alphanumeric, is_ascii_lowercase, is_ascii_uppercase,
    is_whitespace,
};
use crate::text::chars_of;
use vstd::prelude::*;

verus! {

use crate::chars::{ascii_alphanumeric, ascii_letter, ascii_lower, ascii_upper, closing, white};
use crate::text::{lemma_letters_push, letters};

/// The index of the first character other than a space, from `start` on.
pub open spec fn first_non_space(chars: Seq<char>, start: int) -> Option<int>
    decreases chars.len() - start,
{
    if start >= chars.len() {
        None
    } else if chars[start] != ' ' {
        Some(start)
    } else {
        first_non_space(chars, start + 1)
    }
}

/// The number of lowercase ASCII letters in a row from `start` on.
pub open spec fn lowercase_run(chars: Seq<char>, start: int) -> nat
    decreases chars.len() - start,
{
    if 0 <= start < chars.len() && ascii_lower(chars[start]) {
        1 + lowercase_run(chars, start + 1)
    } else {
        0
    }
}

/// A character that ends the token before it.
pub open spec fn delimiter(c: char) -> bool {
    ||| white(c)
    ||| c == '('
    ||| c == '['
    ||| c == '{'
    ||| c == '<'
    ||| c == '"'
    ||| c == '\''
    ||| c == ','
    ||| c == ';'
    ||| c == ':'
}

/// Where the last token of `s` starts: behind the last delimiter.
pub open spec fn token_start(s: Seq<char>) -> int
    decreases s.len(),
{
    if s.len() == 0 || delimiter(s.last()) {
        s.len() as int
    } else {
        token_start(s.drop_last())
    }
}

/// Whether a token reads as the name in front of a top-level domain: at least three characters,
/// with a letter among them, made of letters, digits, `-` and `@`, and either starting with
/// `www`, holding an `@`, or without capitals.
pub open spec fn domain_name(token: Seq<char>) -> bool {
    &&& token.len() >= 3
    &&& exists|i: int| 0 <= i < token.len() && ascii_letter(#[trigger] token[i])
    &&& forall|i: int|
        0 <= i < token.len() ==> {
            ||| ascii_alphanumeric(#[trigger] token[i])
            ||| token[i] == '-'
            ||| token[i] == '@'
        }
    &&& {
        ||| token[0] == 'w' && token[1] == 'w' && token[2] == 'w'
        ||| exists|i: int| 0 <= i < token.len() && #[trigger] token[i] == '@'
        ||| forall|i: int| 0 <= i < token.len() ==> !ascii_upper(#[trigger] token[i])
    }
}

/// Whether two to six lowercase letters start at `at` and no letter, digit or `-` follows them.
pub open spec fn top_level_domain(chars: Seq<char>, at: int) -> bool {
    let end = at + lowercase_run(chars, at);
    &&& 2 <= lowercase_run(chars, at) <= 6
    &&& end < chars.len() ==> !ascii_alphanumeric(chars[end]) && chars[end] != '-'
}

/// Whether `output` ends in a domain name and its dot, and the rest of the domain starts at
/// `next`.
pub open spec fn splits_domain(output: Seq<char>, chars: Seq<char>, next: int) -> bool {
    &&& output.len() > 0
    &&& output.last() == '.'
    &&& top_level_domain(chars, next)
    &&& domain_name(output.drop_last().skip(token_start(output.drop_last())))
}

/// Whether the space at `at` goes, with `output` standing before it.
pub open spec fn collapses(output: Seq<char>, chars: Seq<char>, at: int) -> bool {
    &&& chars[at] == ' '
    &&& first_non_space(chars, at + 1) matches Some(next) && (closing(chars[next])
        || splits_domain(output, chars, next))
}

/// What the first `n` characters become.
pub open spec fn normalized_prefix(chars: Seq<char>, n: int) -> Seq<char>
    decreases n,
{
    if n <= 0 {
        seq![]
    } else {
        let output = normalized_prefix(chars, n - 1);
        if collapses(output, chars, n - 1) {
            output
        } else {
            output.push(chars[n - 1])
        }
    }
}

/// A text with the spaces gone that stand in front of closing punctuation or inside a domain
/// name.
pub open spec fn normalized(chars: Seq<char>) -> Seq<char> {
    normalized_prefix(chars, chars.len() as int)
}

proof fn lemma_first_non_space(chars: Seq<char>, start: int)
    requires
        0 <= start,
    ensures
        match first_non_space(chars, start) {
            Some(i) => {
                &&& start <= i < chars.len()
                &&& chars[i] != ' '
                &&& forall|j: int| start <= j < i ==> #[trigger] chars[j] == ' '
            },
            None => forall|j: int| start <= j < chars.len() ==> #[trigger] chars[j] == ' ',
        },
    decreases chars.len() - start,
{
    if start < chars.len() && chars[start] == ' ' {
        lemma_first_non_space(chars, start + 1);
    }
}

/// Finds the first character other than a space, from `start` on.
pub fn next_non_space(chars: &[char], start: usize) -> (r: Option<(usize, char)>)
    ensures
        match r {
            Some((i, c)) => first_non_space(chars@, start as int) == Some(i as int) && i
                < chars.len() && c == chars@[i as int] && c != ' ',
            None => first_non_space(chars@, start as int) is None,
        },
{
    let mut i: usize = start;
    while i < chars.len()
        invariant
            first_non_space(chars@, start as int) == first_non_space(chars@, i as int),
        decreases chars.len() - i,
    {
        if chars[i] != ' ' {
            return Some((i, chars[i]));
        }
        i = i + 1;
    }
    None
}

/// Whether a space in front of `c` goes.
pub fn should_collapse_space_before_punctuation(c: char) -> (b: bool)
    ensures
        b == closing(c),
{
    c == '.' || c == ',' || c == ';' || c == ':' || c == '!' || c == '?' || c == ')' || c == ']'
        || c == '}' || c == '%'
}

fn is_delimiter(c: char) -> (b: bool)
    ensures
        b == delimiter(c),
{
    is_whitespace(c) || c == '(' || c == '[' || c == '{' || c == '<' || c == '"' || c == '\'' || c
        == ',' || c == ';' || c == ':'
}

fn is_domain_name(token: &[char]) -> (b: bool)
    ensures
        b == domain_name(token@),
{
    let mut letter: bool = false;
    let mut plain: bool = true;
    let mut at: bool = false;
    let mut capital: bool = false;
    let mut i: usize = 0;
    while i < token.len()
        invariant
            i <= token.len(),
            letter == exists|j: int| 0 <= j < i && ascii_letter(#[trigger] token@[j]),
            plain == forall|j: int|
                0 <= j < i ==> {
                    ||| ascii_alphanumeric(#[trigger] token@[j])
                    ||| token@[j] == '-'
                    ||| token@[j] == '@'
                },
            at == exists|j: int| 0 <= j < i && #[trigger] token@[j] == '@',
            capital == exists|j: int| 0 <= j < i && ascii_upper(#[trigger] token@[j]),
        decreases token.len() - i,
    {
        let c: char = token[i];
        letter = letter || is_ascii_alphabetic(c);
        plain = plain && (is_ascii_alphanumeric(c) || c == '-' || c == '@');
        at = at || c == '@';
        capital = capital || is_ascii_uppercase(c);
        i = i + 1;
    }
    token.len() >= 3 && letter && plain && ((token[0] == 'w' && token[1] == 'w' && token[2] == 'w')
        || at || !capital)
}

/// Whether the space between `output` and the character at `next_idx` splits a domain name
/// behind its dot.
pub fn should_collapse_domain_space_after_dot(
    output: &str,
    chars: &[char],
    next_idx: usize,
) -> (b: bool)
    requires
        output@.len() > 0 && output@.last() == '.' ==> next_idx < chars.len(),
    ensures
        b == splits_domain(output@, chars@, next_idx as int),
{
    let before: Vec<char> = chars_of(output);
    if before.len() == 0 || before[before.len() - 1] != '.' || !is_ascii_lowercase(
        chars[next_idx],
    ) {
        return false;
    }
    let mut end: usize = next_idx;
    while end < chars.len() && is_ascii_lowercase(chars[end])
        invariant
            next_idx <= end <= chars.len(),
            lowercase_run(chars@, next_idx as int) == end - next_idx + lowercase_run(
                chars@,
                end as int,
            ),
        decreases chars.len() - end,
    {
        end = end + 1;
    }
    let tld_len: usize = end - next_idx;
    if tld_len < 2 || tld_len > 6 {
        return false;
    }
    if end < chars.len() && (is_ascii_alphanumeric(chars[end]) || chars[end] == '-') {
        return false;
    }
    let dot: usize = before.len() - 1;
    let ghost name = before@.drop_last();
    let mut start: usize = dot;
    assert(name.take(start as int) == name);
    while start > 0 && !is_delimiter(before[start - 1])
        invariant
            start <= dot == name.len(),
            before.len() == dot + 1,
            name == before@.drop_last(),
            token_start(name) == token_start(name.take(start as int)),
        decreases start,
    {
        proof {
            assert(name.take(start as int).drop_last() == name.take(start - 1));
        }
        start = start - 1;
    }
    let token: &[char] = vstd::slice::slice_subrange(before.as_slice(), start, dot);
    assert(token@ == name.skip(token_start(name)));
    is_domain_name(token)
}

/// Removes the spaces that stand in front of closing punctuation or inside a domain name.
pub fn normalize_segment_text(text: &str) -> (r: String)
    ensures
        r@ == normalized(text@),
{
    let chars: Vec<char> = chars_of(text);
    let mut output: String = String::new();
    let mut idx: usize = 0;
    while idx < chars.len()
        invariant
            idx <= chars.len(),
            chars@ == text@,
            output@ == normalized_prefix(text@, idx as int),
        decreases chars.len() - idx,
    {
        let c: char = chars[idx];
        let mut collapse: bool = false;
        if c == ' ' {
            if let Some((next_idx, next)) = next_non_space(chars.as_slice(), idx + 1) {
                collapse = should_collapse_space_before_punctuation(next)
                    || should_collapse_domain_space_after_dot(
                    output.as_str(),
                    chars.as_slice(),
                    next_idx,
                );
            }
        }
        if !collapse {
            output.push(c);
        }
        idx = idx + 1;
    }
    output
}

/// A character that is no space.
pub open spec fn visible(c: char) -> bool {
    c != ' '
}

proof fn lemma_filter_push(s: Seq<char>, c: char)
    ensures
        s.push(c).filter(|c: char| visible(c)) == (if visible(c) {
            s.filter(|c: char| visible(c)).push(c)
        } else {
            s.filter(|c: char| visible(c))
        }),
{
    reveal(Seq::filter);
    assert(s.push(c).drop_last() == s);
}

proof fn lemma_prefix_keeps_visible(chars: Seq<char>, n: int)
    requires
        0 <= n <= chars.len(),
    ensures
        normalized_prefix(chars, n).filter(|c: char| visible(c)) == chars.take(n).filter(
            |c: char| visible(c),
        ),
        normalized_prefix(chars, n).len() <= n,
    decreases n,
{
    if n == 0 {
        assert(chars.take(0) == normalized_prefix(chars, 0));
    } else {
        lemma_prefix_keeps_visible(chars, n - 1);
        assert(chars.take(n) == chars.take(n - 1).push(chars[n - 1]));
        lemma_filter_push(chars.take(n - 1), chars[n - 1]);
        lemma_filter_push(normalized_prefix(chars, n - 1), chars[n - 1]);
    }
}

/// Normalizing only drops spaces: everything else stays, in order.
pub proof fn lemma_normalized_keeps_visible(chars: Seq<char>)
    ensures
        normalized(chars).filter(|c: char| visible(c)) == chars.filter(|c: char| visible(c)),
        normalized(chars).len() <= chars.len(),
{
    lemma_prefix_keeps_visible(chars, chars.len() as int);
    assert(chars.take(chars.len() as int) == chars);
}

proof fn lemma_prefix_attached(chars: Seq<char>, n: int)
    requires
        0 <= n <= chars.len(),
    ensures
        ({
            let p = normalized_prefix(chars, n);
            &&& forall|i: int|
                0 <= i && i + 1 < p.len() && #[trigger] p[i] == ' ' ==> !closing(p[i + 1])
            &&& p.len() > 0 && p.last() == ' ' ==> (first_non_space(chars, n) matches Some(next)
                ==> !closing(chars[next]))
        }),
    decreases n,
{
    if n > 0 {
        lemma_prefix_attached(chars, n - 1);
        let before = normalized_prefix(chars, n - 1);
        let p = normalized_prefix(chars, n);
        assert forall|i: int|
            0 <= i && i + 1 < p.len() && #[trigger] p[i] == ' ' implies !closing(p[i + 1]) by {
            assert(before[i] == p[i]);
            if i + 1 == before.len() && chars[n - 1] != ' ' {
                assert(first_non_space(chars, n - 1) == Some(n - 1));
            }
        }
        if p.len() > 0 && p.last() == ' ' && collapses(before, chars, n - 1) {
            assert(first_non_space(chars, n - 1) == first_non_space(chars, n));
        }
    }
}

/// In a normalized text no space stands in front of closing punctuation.
pub proof fn lemma_normalized_attaches_punctuation(chars: Seq<char>)
    ensures
        forall|i: int|
            0 <= i && i + 1 < normalized(chars).len() && #[trigger] normalized(chars)[i] == ' '
                ==> !closing(normalized(chars)[i + 1]),
{
    lemma_prefix_attached(chars, chars.len() as int);
}

/// Later characters leave the output before them alone.
proof fn lemma_prefix_grows(chars: Seq<char>, m: int, n: int)
    requires
        0 <= m <= n <= chars.len(),
    ensures
        normalized_prefix(chars, m).len() <= normalized_prefix(chars, n).len(),
        normalized_prefix(chars, m) == normalized_prefix(chars, n).take(
            normalized_prefix(chars, m).len() as int,
        ),
    decreases n - m,
{
    let p = normalized_prefix(chars, m);
    if m < n {
        lemma_prefix_grows(chars, m, n - 1);
        let q = normalized_prefix(chars, n - 1);
        let r = normalized_prefix(chars, n);
        assert(r.take(p.len() as int) =~= q.take(p.len() as int));
    } else {
        assert(p.take(p.len() as int) =~= p);
    }
}

/// Spaces leave nothing but spaces.
proof fn lemma_spaces_give_spaces(chars: Seq<char>, m: int, n: int)
    requires
        0 <= m <= n <= chars.len(),
        forall|i: int| m <= i < n ==> #[trigger] chars[i] == ' ',
    ensures
        forall|i: int|
            normalized_prefix(chars, m).len() <= i < normalized_prefix(chars, n).len()
                ==> #[trigger] normalized_prefix(chars, n)[i] == ' ',
    decreases n - m,
{
    if m < n {
        lemma_spaces_give_spaces(chars, m, n - 1);
        lemma_prefix_grows(chars, m, n - 1);
    }
}

/// All spaces in front of closing punctuation go.
proof fn lemma_spaces_vanish(chars: Seq<char>, m: int, n: int)
    requires
        0 <= m <= n < chars.len(),
        first_non_space(chars, m) == Some(n),
        closing(chars[n]),
    ensures
        normalized_prefix(chars, n) == normalized_prefix(chars, m),
    decreases n - m,
{
    if m < n {
        lemma_first_non_space(chars, m);
        assert(chars[m] == ' ');
        lemma_spaces_vanish(chars, m + 1, n);
    }
}

/// The character that the output got from position `n`.
proof fn lemma_output_at(chars: Seq<char>, n: int)
    requires
        0 <= n < chars.len(),
        !collapses(normalized_prefix(chars, n), chars, n),
    ensures
        normalized_prefix(chars, n).len() < normalized(chars).len(),
        normalized(chars)[normalized_prefix(chars, n).len() as int] == chars[n],
{
    let p = normalized_prefix(chars, n);
    lemma_prefix_grows(chars, n + 1, chars.len() as int);
    assert(normalized_prefix(chars, n + 1) == p.push(chars[n]));
    assert(normalized(chars).take((p.len() + 1) as int)[p.len() as int] == chars[n]);
}

/// A run of lowercase letters and what follows it read the same before and after.
proof fn lemma_run_kept(chars: Seq<char>, n: int)
    requires
        0 <= n <= chars.len(),
        n < chars.len() && chars[n] == ' ' ==> !(normalized_prefix(chars, n).len() > 0
            && normalized_prefix(chars, n).last() == '.'),
    ensures
        ({
            let r = normalized(chars);
            let at = normalized_prefix(chars, n).len() as int;
            let run = lowercase_run(chars, n) as int;
            &&& lowercase_run(r, at) == run
            &&& (at + run < r.len() ==> !ascii_alphanumeric(r[at + run]) && r[at + run] != '-')
                ==> (n + run < chars.len() ==> !ascii_alphanumeric(chars[n + run]) && chars[n
                + run] != '-')
        }),
    decreases chars.len() - n,
{
    let r = normalized(chars);
    let p = normalized_prefix(chars, n);
    if n == chars.len() {
    } else if chars[n] != ' ' {
        lemma_output_at(chars, n);
        if ascii_lower(chars[n]) {
            assert(normalized_prefix(chars, n + 1) == p.push(chars[n]));
            lemma_run_kept(chars, n + 1);
        }
    } else if !collapses(p, chars, n) {
        lemma_output_at(chars, n);
    } else {
        let next = first_non_space(chars, n + 1)->0;
        lemma_first_non_space(chars, n + 1);
        assert(closing(chars[next]));
        lemma_spaces_vanish(chars, n, next);
        lemma_output_at(chars, next);
    }
}

/// The position that put the character at `k` into the output.
proof fn lemma_origin(chars: Seq<char>, k: int, n: int) -> (m: int)
    requires
        0 <= n <= chars.len(),
        0 <= k < normalized_prefix(chars, n).len(),
    ensures
        0 <= m < n,
        normalized_prefix(chars, m).len() == k,
        !collapses(normalized_prefix(chars, m), chars, m),
    decreases n,
{
    if k < normalized_prefix(chars, n - 1).len() {
        lemma_origin(chars, k, n - 1)
    } else {
        n - 1
    }
}

proof fn lemma_normalized_settled(chars: Seq<char>, k: int)
    requires
        0 <= k < normalized(chars).len(),
    ensures
        !collapses(normalized(chars).take(k), normalized(chars), k),
{
    let r = normalized(chars);
    let len = chars.len() as int;
    let m = lemma_origin(chars, k, len);
    lemma_output_at(chars, m);
    lemma_prefix_grows(chars, m, len);
    assert(r.take(k) == normalized_prefix(chars, m));
    if collapses(r.take(k), r, k) {
        let j = first_non_space(r, k + 1)->0;
        lemma_first_non_space(r, k + 1);
        lemma_first_non_space(chars, m + 1);
        assert(normalized_prefix(chars, m + 1) == normalized_prefix(chars, m).push(' '));
        if first_non_space(chars, m + 1) is None {
            lemma_spaces_give_spaces(chars, m + 1, len);
            assert(r[j] == ' ');
        }
        let n = first_non_space(chars, m + 1)->0;
        lemma_spaces_give_spaces(chars, m + 1, n);
        lemma_prefix_grows(chars, m + 1, n);
        lemma_prefix_grows(chars, n, len);
        lemma_output_at(chars, n);
        let at = normalized_prefix(chars, n).len() as int;
        assert forall|i: int| k + 1 <= i < at implies r[i] == ' ' by {
            assert(r.take(at)[i] == r[i]);
        }
        assert(j == at) by {
            if j < at {
                assert(r[j] == ' ');
            }
            if at < j {
                assert(r[at] == ' ');
            }
        }
        lemma_run_kept(chars, n);
    }
}

proof fn lemma_prefix_settled(chars: Seq<char>, k: int)
    requires
        0 <= k <= normalized(chars).len(),
    ensures
        normalized_prefix(normalized(chars), k) == normalized(chars).take(k),
    decreases k,
{
    let r = normalized(chars);
    if k > 0 {
        lemma_prefix_settled(chars, k - 1);
        lemma_normalized_settled(chars, k - 1);
        assert(r.take(k) =~= r.take(k - 1).push(r[k - 1]));
    } else {
        assert(r.take(0) =~= Seq::empty());
    }
}

/// Normalizing twice normalizes once.
pub proof fn lemma_normalized_idempotent(chars: Seq<char>)
    ensures
        normalized(normalized(chars)) == normalized(chars),
{
    let r = normalized(chars);
    lemma_prefix_settled(chars, r.len() as int);
    assert(r.take(r.len() as int) =~= r);
}

proof fn lemma_prefix_letters(chars: Seq<char>, n: int)
    requires
        0 <= n <= chars.len(),
    ensures
        letters(normalized_prefix(chars, n)) == letters(chars.take(n)),
    decreases n,
{
    if n == 0 {
        assert(chars.take(0) == normalized_prefix(chars, 0));
    } else {
        lemma_prefix_letters(chars, n - 1);
        assert(chars.take(n) == chars.take(n - 1).push(chars[n - 1]));
        lemma_letters_push(chars.take(n - 1), chars[n - 1]);
        lemma_letters_push(normalized_prefix(chars, n - 1), chars[n - 1]);
    }
}

/// Normalizing loses nothing but white characters.
pub proof fn lemma_normalized_letters(chars: Seq<char>)
    ensures
        letters(normalized(chars)) == letters(chars),
{
    lemma_prefix_letters(chars, chars.len() as int);
    assert(chars.take(chars.len() as int) == chars);
}

/// Whether the character at `j` is the next one behind the space at `i` that is no space.
pub open spec fn follows_space(chars: Seq<char>, i: int, j: int) -> bool {
    &&& 0 <= i < j < chars.len()
    &&& chars[i] == ' '
    &&& chars[j] != ' '
    &&& forall|k: int| i < k < j ==> #[trigger] chars[k] == ' '
}

/// Whether `before` ends in a dot with a name in front of it that starts at `from`: three or more
/// of letters, digits, `-` and `@`, with a letter among them, that start with `www`, hold an `@`
/// or are without capitals, at the start of the text or behind white space or one of
/// `( [ { < " ' , ; :`.
pub open spec fn name_and_dot(before: Seq<char>, from: int) -> bool {
    let end = before.len() - 1;
    &&& 0 <= from && from + 3 <= end
    &&& before[end] == '.'
    &&& from == 0 || white(before[from - 1]) || "([{<\"',;:"@.contains(before[from - 1])
    &&& forall|k: int|
        from <= k < end ==> {
            let c = #[trigger] before[k];
            'a' <= c <= 'z' || 'A' <= c <= 'Z' || '0' <= c <= '9' || c == '-' || c == '@'
        }
    &&& exists|k: int|
        from <= k < end && {
            let c = #[trigger] before[k];
            'a' <= c <= 'z' || 'A' <= c <= 'Z'
        }
    &&& {
        ||| before[from] == 'w' && before[from + 1] == 'w' && before[from + 2] == 'w'
        ||| exists|k: int| from <= k < end && #[trigger] before[k] == '@'
        ||| forall|k: int| from <= k < end ==> !('A' <= #[trigger] before[k] <= 'Z')
    }
}

/// Whether the two to six characters from `at` to `end` are lowercase letters, and neither a
/// letter nor a digit nor `-` follows them.
pub open spec fn short_ending(chars: Seq<char>, at: int, end: int) -> bool {
    &&& 0 <= at && at + 2 <= end <= at + 6 && end <= chars.len()
    &&& forall|k: int| at <= k < end ==> 'a' <= #[trigger] chars[k] <= 'z'
    &&& end < chars.len() ==> {
        let c = chars[end];
        !('a' <= c <= 'z' || 'A' <= c <= 'Z' || '0' <= c <= '9' || c == '-')
    }
}

/// Whether a domain name is split between `before` and `at`.
pub open spec fn domain_between(before: Seq<char>, chars: Seq<char>, at: int) -> bool {
    &&& exists|from: int| name_and_dot(before, from)
    &&& exists|end: int| short_ending(chars, at, end)
}

/// The marks that stand without a space in front of them are ten.
pub proof fn lemma_closing_marks(c: char)
    ensures
        closing(c) == ".,;:!?)]}%"@.contains(c),
{
    reveal_strlit(".,;:!?)]}%");
    let marks = ".,;:!?)]}%"@;
    assert(marks.len() == 10);
    assert(marks[0] == '.' && marks[1] == ',' && marks[2] == ';' && marks[3] == ':' && marks[4]
        == '!' && marks[5] == '?' && marks[6] == ')' && marks[7] == ']' && marks[8] == '}'
        && marks[9] == '%');
}

proof fn lemma_delimiters(c: char)
    ensures
        delimiter(c) == (white(c) || "([{<\"',;:"@.contains(c)),
{
    reveal_strlit("([{<\"',;:");
    let marks = "([{<\"',;:"@;
    assert(marks.len() == 9);
    assert(marks[0] == '(' && marks[1] == '[' && marks[2] == '{' && marks[3] == '<' && marks[4]
        == '"' && marks[5] == '\'' && marks[6] == ',' && marks[7] == ';' && marks[8] == ':');
}

proof fn lemma_token_start(s: Seq<char>)
    ensures
        0 <= token_start(s) <= s.len(),
        token_start(s) > 0 ==> delimiter(s[token_start(s) - 1]),
        forall|k: int| token_start(s) <= k < s.len() ==> !delimiter(#[trigger] s[k]),
    decreases s.len(),
{
    if !(s.len() == 0 || delimiter(s.last())) {
        lemma_token_start(s.drop_last());
        assert forall|k: int| token_start(s) <= k < s.len() implies !delimiter(#[trigger] s[k]) by {
            if k < s.len() - 1 {
                assert(s.drop_last()[k] == s[k]);
            }
        }
    }
}

proof fn lemma_lowercase_run(chars: Seq<char>, start: int)
    requires
        0 <= start <= chars.len(),
    ensures
        start + lowercase_run(chars, start) <= chars.len(),
        forall|k: int|
            start <= k < start + lowercase_run(chars, start) ==> ascii_lower(#[trigger] chars[k]),
        start + lowercase_run(chars, start) < chars.len() ==> !ascii_lower(
            chars[start + lowercase_run(chars, start)],
        ),
    decreases chars.len() - start,
{
    if start < chars.len() && ascii_lower(chars[start]) {
        lemma_lowercase_run(chars, start + 1);
    }
}

/// What is taken for a split domain name is one: a name and its dot, and a short ending.
pub proof fn lemma_domain_between(before: Seq<char>, chars: Seq<char>, at: int)
    requires
        0 <= at < chars.len(),
    ensures
        splits_domain(before, chars, at) == domain_between(before, chars, at),
{
    lemma_lowercase_run(chars, at);
    let run = lowercase_run(chars, at) as int;
    if splits_domain(before, chars, at) {
        assert(short_ending(chars, at, at + run));
        let name = before.drop_last();
        let from = token_start(name);
        let token = name.skip(from);
        lemma_token_start(name);
        let end = before.len() - 1;
        assert(end - from >= 3);
        if from > 0 {
            lemma_delimiters(before[from - 1]);
        }
        assert forall|k: int| from <= k < end implies {
            let c = #[trigger] before[k];
            'a' <= c <= 'z' || 'A' <= c <= 'Z' || '0' <= c <= '9' || c == '-' || c == '@'
        } by {
            assert(token[k - from] == before[k]);
        }
        let l = choose|i: int| 0 <= i < token.len() && ascii_letter(#[trigger] token[i]);
        assert(before[from + l] == token[l]);
        assert(token[0] == before[from] && token[1] == before[from + 1] && token[2] == before[from
            + 2]);
        if exists|i: int| 0 <= i < token.len() && #[trigger] token[i] == '@' {
            let i = choose|i: int| 0 <= i < token.len() && #[trigger] token[i] == '@';
            assert(before[from + i] == '@');
        }
        if forall|i: int| 0 <= i < token.len() ==> !ascii_upper(#[trigger] token[i]) {
            assert forall|k: int| from <= k < end implies !('A' <= #[trigger] before[k] <= 'Z') by {
                assert(token[k - from] == before[k]);
            }
        }
        assert(name_and_dot(before, from));
    }
    if domain_between(before, chars, at) {
        let end = choose|end: int| short_ending(chars, at, end);
        assert(run == end - at) by {
            if run < end - at {
                assert('a' <= chars[at + run] <= 'z');
            }
            if run > end - at {
                assert(ascii_lower(chars[end]));
            }
        }
        let from = choose|from: int| name_and_dot(before, from);
        let name = before.drop_last();
        let last = before.len() - 1;
        assert forall|k: int| from <= k < last implies !delimiter(#[trigger] name[k]) by {
            assert(name[k] == before[k]);
        }
        lemma_token_start(name);
        let t = token_start(name);
        if from > 0 {
            lemma_delimiters(before[from - 1]);
            assert(name[from - 1] == before[from - 1]);
        }
        assert(t == from) by {
            if t < from {
                assert(!delimiter(name[from - 1]));
            }
            if t > from {
                assert(delimiter(name[t - 1]));
            }
        }
        let token = name.skip(t);
        assert forall|i: int| 0 <= i < token.len() implies token[i] == #[trigger] before[from
            + i] by {}
        assert forall|i: int| 0 <= i < token.len() implies {
            ||| ascii_alphanumeric(#[trigger] token[i])
            ||| token[i] == '-'
            ||| token[i] == '@'
        } by {
            assert(token[i] == before[from + i]);
        }
        let l = choose|k: int|
            from <= k < last && {
                let c = #[trigger] before[k];
                'a' <= c <= 'z' || 'A' <= c <= 'Z'
            };
        assert(ascii_letter(token[l - from]));
        if exists|k: int| from <= k < last && #[trigger] before[k] == '@' {
            let k = choose|k: int| from <= k < last && #[trigger] before[k] == '@';
            assert(token[k - from] == '@');
        }
        if forall|k: int| from <= k < last ==> !('A' <= #[trigger] before[k] <= 'Z') {
            assert forall|i: int| 0 <= i < token.len() implies !ascii_upper(#[trigger] token[i]) by {
                assert(token[i] == before[from + i]);
            }
        }
        assert(domain_name(token));
    }
}

/// A space goes if and only if the next character that is no space is one of the ten marks, or the
/// rest of a domain name whose first part and dot the output ends in.
proof fn lemma_collapses(output: Seq<char>, chars: Seq<char>, i: int)
    requires
        0 <= i < chars.len(),
    ensures
        collapses(output, chars, i) <==> exists|j: int|
            #[trigger] follows_space(chars, i, j) && (".,;:!?)]}%"@.contains(chars[j])
                || domain_between(output, chars, j)),
{
    lemma_first_non_space(chars, i + 1);
    let next = first_non_space(chars, i + 1);
    if chars[i] == ' ' && next is Some {
        let n = next->0;
        assert(follows_space(chars, i, n));
        lemma_closing_marks(chars[n]);
        lemma_domain_between(output, chars, n);
        assert forall|j: int| #[trigger] follows_space(chars, i, j) implies j == n by {
            if j < n {
                assert(chars[j] == ' ');
            }
            if n < j {
                assert(chars[n] == ' ');
            }
        }
    }
}

/// Whether the first `m` of a list of positions, and no others, come before `i`.
pub open spec fn counts_before(kept: Seq<int>, i: int, m: int) -> bool {
    &&& 0 <= m <= kept.len()
    &&& forall|k: int| 0 <= k < kept.len() ==> (k < m <==> #[trigger] kept[k] < i)
}

/// The positions among the first `n` at which nothing goes.
proof fn lemma_kept(chars: Seq<char>, n: int) -> (kept: Seq<int>)
    requires
        0 <= n <= chars.len(),
    ensures
        kept.len() == normalized_prefix(chars, n).len(),
        forall|k: int|
            0 <= k < kept.len() ==> 0 <= #[trigger] kept[k] < n && normalized_prefix(chars, n)[k]
                == chars[kept[k]],
        forall|j: int, k: int| 0 <= j < k < kept.len() ==> kept[j] < kept[k],
        forall|i: int|
            0 <= i < n ==> (#[trigger] kept.contains(i) <==> !collapses(
                normalized_prefix(chars, i),
                chars,
                i,
            )),
        forall|i: int, m: int|
            0 <= i <= n && #[trigger] counts_before(kept, i, m) ==> normalized_prefix(
                chars,
                i,
            ).len() == m,
    decreases n,
{
    if n == 0 {
        Seq::empty()
    } else {
        let before = lemma_kept(chars, n - 1);
        let p = normalized_prefix(chars, n - 1);
        let kept = if collapses(p, chars, n - 1) {
            before
        } else {
            before.push(n - 1)
        };
        assert forall|i: int| 0 <= i < n implies (#[trigger] kept.contains(i) <==> !collapses(
            normalized_prefix(chars, i),
            chars,
            i,
        )) by {
            if i < n - 1 {
                assert(before.contains(i) == kept.contains(i)) by {
                    if before.contains(i) {
                        let k = choose|k: int| 0 <= k < before.len() && before[k] == i;
                        assert(kept[k] == i);
                    }
                    if kept.contains(i) {
                        let k = choose|k: int| 0 <= k < kept.len() && kept[k] == i;
                        assert(before[k] == i);
                    }
                }
            } else if !collapses(p, chars, n - 1) {
                assert(kept[before.len() as int] == i);
            } else {
                if kept.contains(i) {
                    let k = choose|k: int| 0 <= k < kept.len() && kept[k] == i;
                    assert(before[k] == i);
                }
            }
        }
        assert forall|i: int, m: int|
            0 <= i <= n && #[trigger] counts_before(kept, i, m) implies normalized_prefix(
            chars,
            i,
        ).len() == m by {
            if i == n {
                if m < kept.len() {
                    assert(kept[m] < i);
                }
            } else {
                assert(m <= before.len()) by {
                    if m > before.len() {
                        assert(kept[before.len() as int] == n - 1);
                        assert(kept[m - 1] < i);
                    }
                }
                assert forall|k: int| 0 <= k < before.len() implies (k < m <==> #[trigger] before[k]
                    < i) by {
                    assert(before[k] == kept[k]);
                }
                assert(counts_before(before, i, m));
            }
        }
        kept
    }
}

/// Which spaces go: the result is the text at the positions `kept`, in order, and a position is
/// left out if and only if a space stands there and the next character that is no space is one of
/// the ten marks `. , ; : ! ? ) ] } %`, or goes on with a domain name that the result so far ends
/// in.
pub proof fn lemma_which_spaces_go(chars: Seq<char>) -> (kept: Seq<int>)
    ensures
        kept.len() == normalized(chars).len(),
        forall|k: int|
            0 <= k < kept.len() ==> 0 <= #[trigger] kept[k] < chars.len() && normalized(chars)[k]
                == chars[kept[k]],
        forall|j: int, k: int| 0 <= j < k < kept.len() ==> kept[j] < kept[k],
        forall|i: int, m: int|
            0 <= i < chars.len() && #[trigger] counts_before(kept, i, m) ==> (!kept.contains(i)
                <==> exists|j: int|
                #[trigger] follows_space(chars, i, j) && (".,;:!?)]}%"@.contains(chars[j])
                    || domain_between(normalized(chars).take(m), chars, j))),
{
    let kept = lemma_kept(chars, chars.len() as int);
    assert forall|i: int, m: int|
        0 <= i < chars.len() && #[trigger] counts_before(kept, i, m) implies (!kept.contains(i)
        <==> exists|j: int|
        #[trigger] follows_space(chars, i, j) && (".,;:!?)]}%"@.contains(chars[j])
            || domain_between(normalized(chars).take(m), chars, j))) by {
        let p = normalized_prefix(chars, i);
        assert(p.len() == m);
        lemma_prefix_grows(chars, i, chars.len() as int);
        assert(p == normalized(chars).take(m));
        lemma_collapses(p, chars, i);
    }
    kept
}

/// A text in which no space has one of the ten marks behind it, and no dot has a space, is left as
/// it is.
pub proof fn lemma_nothing_to_repair(chars: Seq<char>)
    requires
        forall|i: int, j: int|
            #[trigger] follows_space(chars, i, j) ==> !".,;:!?)]}%"@.contains(chars[j]),
        forall|i: int|
            0 <= i && i + 1 < chars.len() && #[trigger] chars[i] == '.' ==> chars[i + 1] != ' ',
    ensures
        normalized(chars) == chars,
{
    lemma_prefix_unrepaired(chars, chars.len() as int);
    assert(chars.take(chars.len() as int) =~= chars);
}

proof fn lemma_prefix_unrepaired(chars: Seq<char>, n: int)
    requires
        0 <= n <= chars.len(),
        forall|i: int, j: int|
            #[trigger] follows_space(chars, i, j) ==> !".,;:!?)]}%"@.contains(chars[j]),
        forall|i: int|
            0 <= i && i + 1 < chars.len() && #[trigger] chars[i] == '.' ==> chars[i + 1] != ' ',
    ensures
        normalized_prefix(chars, n) == chars.take(n),
    decreases n,
{
    if n > 0 {
        lemma_prefix_unrepaired(chars, n - 1);
        let p = chars.take(n - 1);
        lemma_collapses(p, chars, n - 1);
        if collapses(p, chars, n - 1) {
            let j = choose|j: int|
                #[trigger] follows_space(chars, n - 1, j) && (".,;:!?)]}%"@.contains(chars[j])
                    || domain_between(p, chars, j));
            let from = choose|from: int| name_and_dot(p, from);
            assert(chars[n - 2] == '.');
        }
        assert(chars.take(n) =~= p.push(chars[n - 1]));
    } else {
        assert(chars.take(0) =~= Seq::empty());
    }
}

/// A text keeps its first and its last character where they are no spaces.
pub proof fn lemma_ends_stay(chars: Seq<char>)
    requires
        chars.len() > 0,
        chars[0] != ' ' && chars.last() != ' ',
    ensures
        normalized(chars).len() > 0,
        normalized(chars)[0] == chars[0],
        normalized(chars).last() == chars.last(),
{
    let len = chars.len() as int;
    assert(normalized_prefix(chars, 0).len() == 0);
    lemma_output_at(chars, 0);
    assert(normalized(chars) == normalized_prefix(chars, len - 1).push(chars[len - 1]));
}

} // verus!
