//! The Unicode converter: classifies characters by the standard library's
//! Unicode properties and lowers uppercase letters by their full lowercase
//! mapping.
use std::borrow::Cow;
use vstd::prelude::*;
use vstd::utf8::encode_utf8;
use crate::text::{
    lowercase_mapping, push_lowercase, unicode_alphanumeric, unicode_lowercase, unicode_uppercase,
};

verus! {

/// How a character takes part in a word.
#[derive(PartialEq, Eq, Structural, Clone, Copy, Debug)]
pub enum Kind {
    /// Not part of any word: an underscore, or neither alphabetic nor numeric.
    Boundary,
    /// An uppercase letter.
    Upper,
    /// Any other alphanumeric character: lowercase letters, digits, and
    /// letters without case.
    Lower,
}

/// The kind of `c`, by its Unicode properties.
pub open spec fn kind_of(c: char) -> Kind {
    if c == '_' || !unicode_alphanumeric(c) {
        Kind::Boundary
    } else if unicode_uppercase(c) {
        Kind::Upper
    } else {
        Kind::Lower
    }
}

/// A lowercase letter: after a run of uppercase letters it takes the last of
/// them into its own word ("ABCd" gives "ab_cd").
pub open spec fn is_lowercase_letter(c: char) -> bool {
    kind_of(c) == Kind::Lower && unicode_lowercase(c)
}

/// Whether a new word begins at position `k`, which holds a word character.
pub open spec fn opens_word(s: Seq<char>, k: int) -> bool {
    ||| k == 0
    ||| kind_of(s[k - 1]) == Kind::Boundary
    ||| kind_of(s[k - 1]) == Kind::Lower && kind_of(s[k]) == Kind::Upper
    ||| kind_of(s[k - 1]) == Kind::Upper && kind_of(s[k]) == Kind::Upper && k + 1 < s.len()
        && is_lowercase_letter(s[k + 1])
    ||| kind_of(s[k - 1]) == Kind::Upper && kind_of(s[k]) == Kind::Lower && !is_lowercase_letter(
        s[k],
    )
}

/// What a word character contributes to the output.
pub open spec fn word_text(c: char) -> Seq<char> {
    if kind_of(c) == Kind::Upper {
        lowercase_mapping(c)
    } else {
        seq![c]
    }
}

/// The output for the first `k` characters of `s` (`s` is the whole input, so
/// that a word boundary may look one character ahead).
pub open spec fn snake_prefix(s: Seq<char>, k: int) -> Seq<char>
    decreases k,
{
    if k <= 0 {
        seq![]
    } else {
        let out = snake_prefix(s, k - 1);
        let c = s[k - 1];
        if kind_of(c) == Kind::Boundary {
            out
        } else if opens_word(s, k - 1) && out.len() > 0 {
            out.push('_') + word_text(c)
        } else {
            out + word_text(c)
        }
    }
}

/// The snake_case form of `s`.
pub open spec fn snake(s: Seq<char>) -> Seq<char> {
    snake_prefix(s, s.len() as int)
}

/// `s` is already in snake_case: word characters that are not uppercase,
/// joined by single underscores, with none at either end.
pub open spec fn is_snake(s: Seq<char>) -> bool {
    forall|k: int|
        0 <= k < s.len() ==> (kind_of(#[trigger] s[k]) == Kind::Lower || (s[k] == '_' && 0 < k
            < s.len() - 1 && s[k + 1] != '_'))
}

/// Position `k` passes the fast-accept scan, judged by what precedes it.
pub open spec fn clean_at(s: Seq<char>, k: int) -> bool {
    kind_of(s[k]) == Kind::Lower || (s[k] == '_' && k > 0 && s[k - 1] != '_')
}

/// The first `i` characters of `s` all pass the fast-accept scan.
pub open spec fn clean_prefix(s: Seq<char>, i: int) -> bool {
    forall|k: int| 0 <= k < i ==> #[trigger] clean_at(s, k)
}

/// `s` without one trailing underscore.
pub open spec fn trim_underscore(s: Seq<char>) -> Seq<char> {
    if s.len() > 0 && s.last() == '_' {
        s.drop_last()
    } else {
        s
    }
}

proof fn lemma_encoded_len(cs: Seq<char>)
    ensures
        encode_utf8(cs).len() >= cs.len(),
    decreases cs.len(),
{
    if cs.len() > 0 {
        lemma_encoded_len(cs.drop_first());
    }
}

/// The output for a prefix that passes the scan is that prefix itself, less
/// an underscore at its end.
pub proof fn lemma_clean_prefix(s: Seq<char>, i: int)
    requires
        0 <= i <= s.len(),
        clean_prefix(s, i),
    ensures
        snake_prefix(s, i) == trim_underscore(s.take(i)),
    decreases i,
{
    if i > 0 {
        assert(clean_prefix(s, i - 1));
        lemma_clean_prefix(s, i - 1);
        assert(clean_at(s, i - 1));
        let c = s[i - 1];
        if c == '_' {
            assert(s.take(i).drop_last() =~= s.take(i - 1));
            if i > 1 {
                assert(clean_at(s, i - 2));
            }
        } else {
            if i > 1 {
                assert(clean_at(s, i - 2));
                if s[i - 2] == '_' {
                    assert(clean_at(s, i - 3));
                    assert(s.take(i - 1).drop_last().push('_').push(c) =~= s.take(i));
                } else {
                    assert(s.take(i - 1).push(c) =~= s.take(i));
                }
            } else {
                assert(seq![c] =~= s.take(i));
            }
        }
    }
}

/// Being in snake_case is passing the scan with no underscore at the end.
pub proof fn lemma_is_snake_clean(s: Seq<char>)
    ensures
        is_snake(s) <==> clean_prefix(s, s.len() as int) && (s.len() == 0 || s.last() != '_'),
{
    if is_snake(s) {
        assert forall|k: int| 0 <= k < s.len() implies #[trigger] clean_at(s, k) by {
            if s[k] == '_' {
                assert(kind_of(s[k - 1]) == Kind::Lower || s[k - 1] == '_');
            }
        }
        if s.len() > 0 {
            assert(kind_of(s[s.len() - 1]) == Kind::Lower || s[s.len() - 1] == '_');
        }
    }
    if clean_prefix(s, s.len() as int) && (s.len() == 0 || s.last() != '_') {
        assert forall|k: int| 0 <= k < s.len() implies (kind_of(#[trigger] s[k]) == Kind::Lower
            || (s[k] == '_' && 0 < k < s.len() - 1 && s[k + 1] != '_')) by {
            assert(clean_at(s, k));
            if s[k] == '_' && k + 1 < s.len() {
                assert(clean_at(s, k + 1));
            }
        }
    }
}

fn kind(c: char) -> (r: Kind)
    ensures
        r == kind_of(c),
{
    if c == '_' || !c.is_alphanumeric() {
        Kind::Boundary
    } else if c.is_uppercase() {
        Kind::Upper
    } else {
        Kind::Lower
    }
}

fn lowercase_letter(c: char) -> (r: bool)
    ensures
        r == is_lowercase_letter(c),
{
    kind(c) == Kind::Lower && c.is_lowercase()
}

/// The fast-accept scan: the length of the longest prefix of `s` that passes
/// it, and whether `s` is already in snake_case.
fn scan(s: &str) -> (r: (usize, bool))
    ensures
        r.0 <= s@.len(),
        clean_prefix(s@, r.0 as int),
        r.1 <==> is_snake(s@),
{
    let byte_len = s.as_bytes().len();
    proof {
        lemma_encoded_len(s@);
        lemma_is_snake_clean(s@);
    }
    let mut i: usize = 0;
    let mut after_underscore = true;
    for c in it: s.chars()
        invariant
            it.seq() == s@,
            i == it.index(),
            s@.len() <= byte_len,
            clean_prefix(s@, i as int),
            after_underscore == (i == 0 || s@[i - 1] == '_'),
    {
        let ok = if c == '_' {
            !after_underscore
        } else {
            kind(c) == Kind::Lower
        };
        if !ok {
            assert(!clean_at(s@, i as int));
            return (i, false);
        }
        assert(clean_at(s@, i as int));
        after_underscore = c == '_';
        i = i + 1;
    }
    (i, !after_underscore || i == 0)
}

fn collect_chars(s: &str) -> (v: Vec<char>)
    ensures
        v@ == s@,
{
    let mut v: Vec<char> = Vec::new();
    for c in it: s.chars()
        invariant
            it.seq() == s@,
            v@ == s@.take(it.index() as int),
    {
        v.push(c);
    }
    v
}

/// Whether a word begins at `k`, given the kinds of the characters at `k - 1`
/// (when `k > 0`) and at `k`.
fn opens_word_at(cs: &Vec<char>, k: usize, prev: Kind, cur: Kind) -> (r: bool)
    requires
        k < cs@.len(),
        k > 0 ==> prev == kind_of(cs@[k - 1]),
        cur == kind_of(cs@[k as int]),
    ensures
        r == opens_word(cs@, k as int),
{
    if k == 0 || prev == Kind::Boundary {
        true
    } else if prev == Kind::Lower {
        cur == Kind::Upper
    } else if cur == Kind::Upper {
        k < cs.len() - 1 && lowercase_letter(cs[k + 1])
    } else {
        cur == Kind::Lower && !lowercase_letter(cs[k])
    }
}

/// The allocating transform: extends `result`, the output for the first
/// `from` characters, to the output for all of `cs`.
fn snakecase_mod(cs: &Vec<char>, from: usize, written: bool, result: &mut String)
    requires
        from <= cs@.len(),
        old(result)@ == snake_prefix(cs@, from as int),
        written == (old(result)@.len() > 0),
    ensures
        final(result)@ == snake(cs@),
{
    let n = cs.len();
    let mut k = from;
    let mut any = written;
    let mut prev = if k > 0 {
        kind(cs[k - 1])
    } else {
        Kind::Boundary
    };
    while k < n
        invariant
            from <= k <= n,
            n == cs@.len(),
            result@ == snake_prefix(cs@, k as int),
            any == (result@.len() > 0),
            k > 0 ==> prev == kind_of(cs@[k - 1]),
        decreases n - k,
    {
        let c = cs[k];
        let cur = kind(c);
        if cur != Kind::Boundary {
            if any && opens_word_at(cs, k, prev, cur) {
                result.push('_');
            }
            if cur == Kind::Upper {
                push_lowercase(result, c);
            } else {
                result.push(c);
            }
            any = true;
        }
        prev = cur;
        k = k + 1;
    }
}

/// Converts `s` to snake_case: lowercase words joined by single underscores.
///
/// Words are runs of uppercase letters and runs of other alphanumeric
/// characters; a lowercase letter takes the last letter of an uppercase run
/// before it into its own word. Everything else only separates words and is
/// dropped. Text already in that form is returned borrowed, without a copy.
pub fn to_snakecase<'a>(s: &'a str) -> (r: Cow<'a, str>)
    ensures
        r@ == snake(s@),
        r is Borrowed <==> is_snake(s@),
        r is Borrowed ==> r == Cow::Borrowed(s),
{
    let (stop, done) = scan(s);
    if done {
        proof {
            lemma_is_snake_clean(s@);
            lemma_clean_prefix(s@, s@.len() as int);
            assert(s@.take(s@.len() as int) =~= s@);
        }
        return Cow::Borrowed(s);
    }
    let cs = collect_chars(s);
    let keep = if stop > 0 && cs[stop - 1] == '_' {
        stop - 1
    } else {
        stop
    };
    let mut result = String::new();
    let mut j: usize = 0;
    while j < keep
        invariant
            j <= keep <= stop <= cs@.len(),
            cs@ == s@,
            result@ == cs@.take(j as int),
        decreases keep - j,
    {
        result.push(cs[j]);
        j = j + 1;
        assert(result@ =~= cs@.take(j as int));
    }
    proof {
        lemma_clean_prefix(s@, stop as int);
        assert(trim_underscore(s@.take(stop as int)) =~= cs@.take(keep as int));
    }
    snakecase_mod(&cs, stop, keep > 0, &mut result);
    Cow::Owned(result)
}

} // verus!
