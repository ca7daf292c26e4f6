//! Properties that hold of every conversion.
use vstd::prelude::*;
use crate::ascii::{
    Phase, ascii_head, ascii_kept, ascii_resume, ascii_snake, ascii_stop, ascii_walk,
    is_alnum_byte, is_ascii_snake, is_word_byte, lemma_ascii_stop_snake, opens,
};
use crate::text::lowercase_mapping;
use crate::unicode::{
    Kind, is_snake, kind_of, lemma_clean_prefix, lemma_is_snake_clean, opens_word, snake,
    snake_prefix, word_text,
};

verus! {

/// The lowercase mapping of every uppercase character of `s` is one or more
/// characters, none of them an underscore.
pub open spec fn lowerings_join_cleanly(s: Seq<char>) -> bool {
    forall|k: int|
        0 <= k < s.len() && kind_of(#[trigger] s[k]) == Kind::Upper ==> lowercase_mapping(s[k]).len()
            > 0 && !lowercase_mapping(s[k]).contains('_')
}

/// The lowercase mapping of every uppercase character of `s` is one or more
/// characters that the converter keeps as they are.
pub open spec fn lowerings_are_word_chars(s: Seq<char>) -> bool {
    forall|k: int|
        0 <= k < s.len() && kind_of(#[trigger] s[k]) == Kind::Upper ==> lowercase_mapping(s[k]).len()
            > 0 && forall|j: int|
            0 <= j < lowercase_mapping(s[k]).len() ==> kind_of(
                #[trigger] lowercase_mapping(s[k])[j],
            ) == Kind::Lower
}

/// No underscore at either end, and never two in a row.
pub open spec fn single_underscores(t: Seq<char>) -> bool {
    &&& (t.len() > 0 ==> t[0] != '_' && t.last() != '_')
    &&& forall|k: int| 0 <= k < t.len() - 1 ==> !(#[trigger] t[k] == '_' && t[k + 1] == '_')
}

/// `c` is an underscore, a character of `s` kept as it is, or a character of
/// the lowercase mapping of an uppercase character of `s`.
pub open spec fn comes_from(s: Seq<char>, c: char) -> bool {
    c == '_' || exists|k: int|
        0 <= k < s.len() && #[trigger] word_text(s[k]).contains(c) && kind_of(s[k])
            != Kind::Boundary
}

/// Number of underscore-separated segments of `t`.
pub open spec fn segment_count(t: Seq<char>) -> nat {
    if t.len() == 0 {
        0
    } else {
        underscores(t) + 1
    }
}

pub open spec fn underscores(t: Seq<char>) -> nat
    decreases t.len(),
{
    if t.len() == 0 {
        0
    } else {
        underscores(t.drop_last()) + if t.last() == '_' {
            1nat
        } else {
            0
        }
    }
}

/// Number of words that begin among the first `k` characters of `s`.
pub open spec fn words_upto(s: Seq<char>, k: int) -> nat
    decreases k,
{
    if k <= 0 {
        0
    } else {
        words_upto(s, k - 1) + if kind_of(s[k - 1]) != Kind::Boundary && opens_word(s, k - 1) {
            1nat
        } else {
            0
        }
    }
}

/// Number of words of `s`: maximal runs of word characters, split further
/// where case changes.
pub open spec fn word_count(s: Seq<char>) -> nat {
    words_upto(s, s.len() as int)
}

proof fn lemma_underscores_concat(a: Seq<char>, b: Seq<char>)
    ensures
        underscores(a + b) == underscores(a) + underscores(b),
    decreases b.len(),
{
    if b.len() > 0 {
        assert((a + b).drop_last() =~= a + b.drop_last());
        lemma_underscores_concat(a, b.drop_last());
    }
}

proof fn lemma_no_underscores(t: Seq<char>)
    requires
        !t.contains('_'),
    ensures
        underscores(t) == 0,
    decreases t.len(),
{
    if t.len() > 0 {
        assert(!t.drop_last().contains('_')) by {
            if t.drop_last().contains('_') {
                let j = choose|j: int| 0 <= j < t.drop_last().len() && t.drop_last()[j] == '_';
                assert(t[j] == '_');
            }
        }
        lemma_no_underscores(t.drop_last());
        assert(t[t.len() - 1] != '_');
    }
}

proof fn lemma_prefix_shape(s: Seq<char>, k: int)
    requires
        0 <= k <= s.len(),
        lowerings_join_cleanly(s),
    ensures
        single_underscores(snake_prefix(s, k)),
        k > 0 && kind_of(s[k - 1]) != Kind::Boundary ==> snake_prefix(s, k).len() > 0,
        segment_count(snake_prefix(s, k)) == words_upto(s, k),
        forall|j: int|
            0 <= j < snake_prefix(s, k).len() ==> comes_from(s, #[trigger] snake_prefix(s, k)[j]),
    decreases k,
{
    if k > 0 {
        lemma_prefix_shape(s, k - 1);
        let out = snake_prefix(s, k - 1);
        let c = s[k - 1];
        if kind_of(c) != Kind::Boundary {
            let w = word_text(c);
            assert(w.len() > 0 && !w.contains('_')) by {
                if kind_of(c) != Kind::Upper {
                    assert(w[0] == c);
                }
            }
            lemma_no_underscores(w);
            assert forall|j: int| 0 <= j < w.len() implies comes_from(s, #[trigger] w[j]) by {
                assert(word_text(s[k - 1]).contains(w[j]));
            }
            let t = snake_prefix(s, k);
            if opens_word(s, k - 1) && out.len() > 0 {
                let u = out.push('_');
                assert(t == u + w);
                lemma_underscores_concat(u, w);
                assert(u.drop_last() =~= out);
                assert forall|j: int| 0 <= j < t.len() - 1 implies !(#[trigger] t[j] == '_' && t[j
                    + 1] == '_') by {
                    if j < out.len() - 1 {
                        assert(t[j] == out[j] && t[j + 1] == out[j + 1]);
                    } else if j == out.len() - 1 {
                        assert(t[j] == out.last());
                    } else if j == out.len() as int {
                        assert(t[j + 1] == w[0]);
                    } else {
                        assert(t[j + 1] == w[j + 1 - u.len()]);
                    }
                }
                assert forall|j: int| 0 <= j < t.len() implies comes_from(s, #[trigger] t[j]) by {
                    if j < out.len() {
                        assert(t[j] == out[j]);
                    } else if j > out.len() {
                        assert(t[j] == w[j - u.len()]);
                    }
                }
                assert(t.last() == w.last());
                assert(t[0] == out[0]);
            } else {
                assert(t == out + w);
                lemma_underscores_concat(out, w);
                assert(!opens_word(s, k - 1) ==> out.len() > 0);
                assert forall|j: int| 0 <= j < t.len() - 1 implies !(#[trigger] t[j] == '_' && t[j
                    + 1] == '_') by {
                    if j < out.len() - 1 {
                        assert(t[j] == out[j] && t[j + 1] == out[j + 1]);
                    } else if j == out.len() - 1 {
                        assert(t[j + 1] == w[0]);
                    } else {
                        assert(t[j + 1] == w[j + 1 - out.len()]);
                    }
                }
                assert forall|j: int| 0 <= j < t.len() implies comes_from(s, #[trigger] t[j]) by {
                    if j < out.len() {
                        assert(t[j] == out[j]);
                    } else {
                        assert(t[j] == w[j - out.len()]);
                    }
                }
                assert(t.last() == w.last());
                if out.len() > 0 {
                    assert(t[0] == out[0]);
                } else {
                    assert(t[0] == w[0]);
                }
            }
        }
    }
}

/// The output of the Unicode converter never starts or ends with an
/// underscore and never holds two in a row; each of its characters is an
/// underscore, a character of the input, or part of the lowercase mapping of
/// an uppercase character of the input. This holds wherever those mappings
/// hold no underscore.
pub proof fn snake_is_canonical(s: Seq<char>)
    requires
        lowerings_join_cleanly(s),
    ensures
        single_underscores(snake(s)),
        forall|j: int| 0 <= j < snake(s).len() ==> comes_from(s, #[trigger] snake(s)[j]),
{
    lemma_prefix_shape(s, s.len() as int);
}

/// The Unicode converter's output has one segment per word of the input:
/// the number of underscores plus one, for non-empty output, is the number of
/// words.
pub proof fn snake_segment_count(s: Seq<char>)
    requires
        lowerings_join_cleanly(s),
    ensures
        segment_count(snake(s)) == word_count(s),
{
    lemma_prefix_shape(s, s.len() as int);
}

/// Text already in snake_case comes out of the Unicode converter unchanged.
pub proof fn snake_keeps_snake_case(s: Seq<char>)
    requires
        is_snake(s),
    ensures
        snake(s) == s,
{
    lemma_is_snake_clean(s);
    lemma_clean_prefix(s, s.len() as int);
    assert(s.take(s.len() as int) =~= s);
}

/// Converting twice with the Unicode converter gives what converting once
/// gives, wherever the lowercase mapping of each uppercase character of the
/// input is made of characters that the converter keeps.
pub proof fn snake_idempotent(s: Seq<char>)
    requires
        lowerings_are_word_chars(s),
    ensures
        snake(snake(s)) == snake(s),
{
    assert(lowerings_join_cleanly(s)) by {
        assert forall|k: int|
            0 <= k < s.len() && kind_of(#[trigger] s[k]) == Kind::Upper implies lowercase_mapping(
            s[k],
        ).len() > 0 && !lowercase_mapping(s[k]).contains('_') by {
            if lowercase_mapping(s[k]).contains('_') {
                let j = choose|j: int|
                    0 <= j < lowercase_mapping(s[k]).len() && lowercase_mapping(s[k])[j] == '_';
                assert(kind_of(lowercase_mapping(s[k])[j]) == Kind::Lower);
            }
        }
    }
    lemma_prefix_shape(s, s.len() as int);
    let t = snake(s);
    assert forall|j: int| 0 <= j < t.len() implies (kind_of(#[trigger] t[j]) == Kind::Lower || (t[j]
        == '_' && 0 < j < t.len() - 1 && t[j + 1] != '_')) by {
        assert(comes_from(s, t[j]));
        if t[j] != '_' {
            let k = choose|k: int|
                0 <= k < s.len() && #[trigger] word_text(s[k]).contains(t[j]) && kind_of(s[k])
                    != Kind::Boundary;
            let w = word_text(s[k]);
            let i = choose|i: int| 0 <= i < w.len() && w[i] == t[j];
            if kind_of(s[k]) == Kind::Upper {
                assert(kind_of(lowercase_mapping(s[k])[i]) == Kind::Lower);
            }
        } else {
            if j + 1 < t.len() && t[j + 1] == '_' {
                assert(!(t[j] == '_' && t[j + 1] == '_'));
            }
        }
    }
    snake_keeps_snake_case(t);
}

/// Number of underscore-separated segments of the bytes `t`.
pub open spec fn byte_segment_count(t: Seq<u8>) -> nat {
    if t.len() == 0 {
        0
    } else {
        byte_underscores(t) + 1
    }
}

pub open spec fn byte_underscores(t: Seq<u8>) -> nat
    decreases t.len(),
{
    if t.len() == 0 {
        0
    } else {
        byte_underscores(t.drop_last()) + if t.last() == 0x5f {
            1nat
        } else {
            0
        }
    }
}

/// Number of words of a text in snake_case: letters or digits at its start
/// or right after an underscore.
pub open spec fn head_words(h: Seq<u8>) -> nat
    decreases h.len(),
{
    if h.len() == 0 {
        0
    } else {
        head_words(h.drop_last()) + if is_word_byte(h.last()) && (h.len() == 1 || h[h.len() - 2]
            == 0x5f) {
            1nat
        } else {
            0
        }
    }
}

/// Number of words that begin in `bs` when it is rewritten after `head`.
pub open spec fn walk_words(bs: Seq<u8>, head: Seq<u8>) -> nat
    decreases bs.len(),
{
    if bs.len() == 0 {
        0
    } else {
        walk_words(bs.drop_last(), head) + if is_alnum_byte(bs.last()) && opens(
            ascii_walk(bs.drop_last(), head).0,
            bs.last(),
        ) {
            1nat
        } else {
            0
        }
    }
}

/// Number of words of `bs` as the ASCII converter groups them: those of the
/// part kept as it is, then those of the part rewritten.
pub open spec fn ascii_word_count(bs: Seq<u8>) -> nat {
    let head = ascii_head(bs);
    head_words(head) + walk_words(bs.subrange(ascii_resume(bs), bs.len() as int), head)
}

proof fn lemma_head_words(p: Seq<u8>)
    requires
        forall|k: int| 0 <= k < p.len() ==> is_word_byte(#[trigger] p[k]) || p[k] == 0x5f,
        p.len() > 0 ==> p[0] != 0x5f,
        forall|k: int| 0 <= k < p.len() - 1 ==> !(#[trigger] p[k] == 0x5f && p[k + 1] == 0x5f),
    ensures
        byte_underscores(p) + (if p.len() > 0 && p.last() != 0x5f {
            1nat
        } else {
            0
        }) == head_words(p),
    decreases p.len(),
{
    if p.len() > 0 {
        let q = p.drop_last();
        assert forall|k: int| 0 <= k < q.len() - 1 implies !(#[trigger] q[k] == 0x5f && q[k + 1]
            == 0x5f) by {
            assert(q[k] == p[k] && q[k + 1] == p[k + 1]);
        }
        assert forall|k: int| 0 <= k < q.len() implies is_word_byte(#[trigger] q[k]) || q[k]
            == 0x5f by {
            assert(q[k] == p[k]);
        }
        lemma_head_words(q);
        if p.len() > 1 {
            assert(q.last() == p[p.len() - 2]);
            assert(q[0] == p[0]);
        }
        assert(is_word_byte(p[p.len() - 1]) || p[p.len() - 1] == 0x5f);
    }
}

proof fn lemma_head(bs: Seq<u8>)
    ensures
        is_ascii_snake(ascii_head(bs)),
        byte_segment_count(ascii_head(bs)) == head_words(ascii_head(bs)),
        0 <= ascii_resume(bs) <= bs.len(),
{
    lemma_ascii_stop_snake(bs);
    let h = ascii_head(bs);
    let i = ascii_stop(bs, 0);
    assert forall|k: int| 0 <= k < h.len() implies #[trigger] h[k] == bs[k] && ascii_kept(bs, k) by {
    }
    if h.len() > 0 {
        let l = h.len() - 1;
        if h[l] == 0x5f {
            assert(ascii_kept(bs, l));
            assert(is_word_byte(bs[l + 1]));
            assert(ascii_kept(bs, l + 1));
        }
    }
    assert forall|k: int| 0 <= k < h.len() implies (is_word_byte(#[trigger] h[k]) || (h[k] == 0x5f
        && 0 < k < h.len() - 1 && h[k + 1] != 0x5f)) by {
        assert(ascii_kept(bs, k));
        if h[k] == 0x5f && k + 1 < h.len() {
            assert(h[k + 1] == bs[k + 1]);
        }
    }
    assert forall|k: int| 0 <= k < h.len() - 1 implies !(#[trigger] h[k] == 0x5f && h[k + 1]
        == 0x5f) by {
        assert(ascii_kept(bs, k));
        assert(h[k + 1] == bs[k + 1]);
    }
    lemma_head_words(h);
}

proof fn lemma_byte_underscores_push(t: Seq<u8>, b: u8)
    ensures
        byte_underscores(t.push(b)) == byte_underscores(t) + if b == 0x5f {
            1nat
        } else {
            0
        },
{
    assert(t.push(b).drop_last() =~= t);
}

proof fn lemma_walk(bs: Seq<u8>, head: Seq<u8>)
    requires
        is_ascii_snake(head),
    ensures
        is_ascii_snake(ascii_walk(bs, head).1),
        ascii_walk(bs, head).0 != Phase::Gap ==> ascii_walk(bs, head).1.len() > 0,
        byte_segment_count(ascii_walk(bs, head).1) == byte_segment_count(head) + walk_words(
            bs,
            head,
        ),
    decreases bs.len(),
{
    if bs.len() > 0 {
        lemma_walk(bs.drop_last(), head);
        let (p, out) = ascii_walk(bs.drop_last(), head);
        let b = bs.last();
        let t = ascii_walk(bs, head).1;
        if is_alnum_byte(b) {
            let l: u8 = if 0x41 <= b <= 0x5a {
                (b + 0x20) as u8
            } else {
                b
            };
            assert(is_word_byte(l));
            if out.len() > 0 {
                assert(out.last() != 0x5f) by {
                    assert(is_word_byte(out[out.len() - 1]) || out.len() - 1 < out.len() - 1);
                }
            }
            if opens(p, b) && out.len() > 0 {
                let u = out.push(0x5f);
                assert(t == u.push(l));
                lemma_byte_underscores_push(out, 0x5f);
                lemma_byte_underscores_push(u, l);
                assert forall|k: int| 0 <= k < t.len() implies (is_word_byte(#[trigger] t[k]) || (
                t[k] == 0x5f && 0 < k < t.len() - 1 && t[k + 1] != 0x5f)) by {
                    if k < out.len() - 1 {
                        assert(t[k] == out[k] && t[k + 1] == out[k + 1]);
                    } else if k == out.len() - 1 {
                        assert(t[k] == out[k]);
                    }
                }
            } else {
                assert(t == out.push(l));
                lemma_byte_underscores_push(out, l);
                assert forall|k: int| 0 <= k < t.len() implies (is_word_byte(#[trigger] t[k]) || (
                t[k] == 0x5f && 0 < k < t.len() - 1 && t[k + 1] != 0x5f)) by {
                    if k < out.len() - 1 {
                        assert(t[k] == out[k] && t[k + 1] == out[k + 1]);
                    } else if k == out.len() - 1 {
                        assert(t[k] == out[k]);
                    }
                }
            }
        }
    }
}

/// The ASCII converter's output is in snake_case: lowercase letters and
/// digits joined by single underscores, with none at either end.
pub proof fn ascii_is_canonical(bs: Seq<u8>)
    ensures
        is_ascii_snake(ascii_snake(bs)),
{
    lemma_head(bs);
    lemma_walk(bs.subrange(ascii_resume(bs), bs.len() as int), ascii_head(bs));
}

/// Text already in snake_case comes out of the ASCII converter unchanged.
pub proof fn ascii_keeps_snake_case(bs: Seq<u8>)
    requires
        is_ascii_snake(bs),
    ensures
        ascii_snake(bs) == bs,
{
    lemma_ascii_stop_snake(bs);
    assert(bs.take(bs.len() as int) =~= bs);
    assert(bs.subrange(bs.len() as int, bs.len() as int) =~= Seq::<u8>::empty());
    if bs.len() > 0 {
        assert(ascii_kept(bs, bs.len() - 1));
    }
}

/// Converting twice with the ASCII converter gives what converting once gives.
pub proof fn ascii_idempotent(bs: Seq<u8>)
    ensures
        ascii_snake(ascii_snake(bs)) == ascii_snake(bs),
{
    ascii_is_canonical(bs);
    ascii_keeps_snake_case(ascii_snake(bs));
}

/// The ASCII converter's output has one segment per word of the input: the
/// number of underscores plus one, for non-empty output, is the number of
/// words.
pub proof fn ascii_segment_count(bs: Seq<u8>)
    ensures
        byte_segment_count(ascii_snake(bs)) == ascii_word_count(bs),
{
    lemma_head(bs);
    lemma_walk(bs.subrange(ascii_resume(bs), bs.len() as int), ascii_head(bs));
}

} // verus!
