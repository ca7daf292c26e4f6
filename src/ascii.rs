//! The ASCII converter: works on the UTF-8 bytes of the text, knows only the
//! ASCII letters and digits, and drops every other byte as a separator.
use std::borrow::Cow;
use vstd::prelude::*;
use vstd::utf8::{encode_utf8, is_ascii_chars, is_ascii_chars_encode_utf8};

verus! {

pub open spec fn is_lower_byte(b: u8) -> bool {
    0x61 <= b <= 0x7a
}

pub open spec fn is_upper_byte(b: u8) -> bool {
    0x41 <= b <= 0x5a
}

pub open spec fn is_digit_byte(b: u8) -> bool {
    0x30 <= b <= 0x39
}

/// A byte that may stand in a word of the output.
pub open spec fn is_word_byte(b: u8) -> bool {
    is_lower_byte(b) || is_digit_byte(b)
}

pub open spec fn is_alnum_byte(b: u8) -> bool {
    is_word_byte(b) || is_upper_byte(b)
}

/// `b` with an uppercase letter made lowercase.
pub open spec fn lowered(b: u8) -> u8 {
    if is_upper_byte(b) {
        (b + 0x20) as u8
    } else {
        b
    }
}

/// `bs` is already in snake_case: lowercase letters and digits joined by
/// single underscores, with none at either end.
pub open spec fn is_ascii_snake(bs: Seq<u8>) -> bool {
    forall|k: int|
        0 <= k < bs.len() ==> (is_word_byte(#[trigger] bs[k]) || (bs[k] == 0x5f && 0 < k < bs.len()
            - 1 && bs[k + 1] != 0x5f))
}

/// The fast-accept scan takes the byte at `k`: a lowercase letter or digit,
/// or an underscore between one of those and another.
pub open spec fn ascii_kept(bs: Seq<u8>, k: int) -> bool {
    is_word_byte(bs[k]) || (bs[k] == 0x5f && 0 < k && k + 1 < bs.len() && is_word_byte(
        bs[k + 1],
    ))
}

/// Where the fast-accept scan, started at `k`, stops.
pub open spec fn ascii_stop(bs: Seq<u8>, k: int) -> int
    decreases bs.len() - k,
{
    if 0 <= k < bs.len() && ascii_kept(bs, k) {
        ascii_stop(bs, k + 1)
    } else {
        k
    }
}

/// Where the rewriting starts: at the stop of the scan, or one byte before it
/// when the scan stopped at an uppercase letter right after a digit, so that
/// the digit joins the word that follows.
pub open spec fn ascii_resume(bs: Seq<u8>) -> int {
    let i = ascii_stop(bs, 0);
    if 0 < i < bs.len() && is_upper_byte(bs[i]) && is_digit_byte(bs[i - 1]) {
        i - 1
    } else {
        i
    }
}

/// The part of the input that is kept as it is: what precedes the resume
/// point, less an underscore at its end.
pub open spec fn ascii_head(bs: Seq<u8>) -> Seq<u8> {
    let j = ascii_resume(bs);
    if j > 0 && bs[j - 1] == 0x5f {
        bs.take(j - 1)
    } else {
        bs.take(j)
    }
}

/// Where the rewriting stands between two bytes.
#[derive(PartialEq, Eq, Structural, Clone, Copy, Debug)]
pub enum Phase {
    /// Between words.
    Gap,
    /// In the leading run of uppercase letters and digits of a word.
    Caps,
    /// In the trailing run of lowercase letters and digits of a word.
    Tail,
}

/// Whether the letter or digit `b` begins a new word after phase `p`.
pub open spec fn opens(p: Phase, b: u8) -> bool {
    p == Phase::Gap || (p == Phase::Tail && is_upper_byte(b))
}

pub open spec fn next_phase(p: Phase, b: u8) -> Phase {
    if !is_alnum_byte(b) {
        Phase::Gap
    } else if is_lower_byte(b) {
        Phase::Tail
    } else if is_upper_byte(b) {
        Phase::Caps
    } else if p == Phase::Tail {
        Phase::Tail
    } else {
        Phase::Caps
    }
}

/// One byte of rewriting: the phase and output after `b`.
pub open spec fn ascii_step(state: (Phase, Seq<u8>), b: u8) -> (Phase, Seq<u8>) {
    let (p, out) = state;
    if !is_alnum_byte(b) {
        (Phase::Gap, out)
    } else if opens(p, b) && out.len() > 0 {
        (next_phase(p, b), out.push(0x5f).push(lowered(b)))
    } else {
        (next_phase(p, b), out.push(lowered(b)))
    }
}

/// Rewriting `bs` after the output `head`.
pub open spec fn ascii_walk(bs: Seq<u8>, head: Seq<u8>) -> (Phase, Seq<u8>)
    decreases bs.len(),
{
    if bs.len() == 0 {
        (Phase::Gap, head)
    } else {
        ascii_step(ascii_walk(bs.drop_last(), head), bs.last())
    }
}

/// The snake_case form of the bytes `bs`.
pub open spec fn ascii_snake(bs: Seq<u8>) -> Seq<u8> {
    ascii_walk(bs.subrange(ascii_resume(bs), bs.len() as int), ascii_head(bs)).1
}

/// The characters of the ASCII bytes `bs`.
pub open spec fn as_chars(bs: Seq<u8>) -> Seq<char> {
    bs.map_values(|b: u8| b as char)
}

pub open spec fn all_ascii(bs: Seq<u8>) -> bool {
    forall|k: int| 0 <= k < bs.len() ==> #[trigger] bs[k] < 0x80
}

proof fn lemma_encode_as_chars(bs: Seq<u8>)
    requires
        all_ascii(bs),
    ensures
        encode_utf8(as_chars(bs)) == bs,
{
    let cs = as_chars(bs);
    assert(is_ascii_chars(cs));
    is_ascii_chars_encode_utf8(cs);
    assert(encode_utf8(cs) =~= bs);
}

/// The scan stops at the end exactly on text in snake_case.
pub proof fn lemma_ascii_stop_snake(bs: Seq<u8>)
    ensures
        (ascii_stop(bs, 0) == bs.len()) <==> is_ascii_snake(bs),
        0 <= ascii_stop(bs, 0) <= bs.len(),
        forall|k: int| 0 <= k < ascii_stop(bs, 0) ==> #[trigger] ascii_kept(bs, k),
{
    lemma_ascii_stop_from(bs, 0);
    if is_ascii_snake(bs) && ascii_stop(bs, 0) < bs.len() {
        let i = ascii_stop(bs, 0);
        assert(is_word_byte(bs[i]) || bs[i] == 0x5f);
        if bs[i] == 0x5f {
            assert(is_word_byte(bs[i + 1]) || bs[i + 1] == 0x5f);
        }
    }
    if ascii_stop(bs, 0) == bs.len() {
        assert forall|k: int| 0 <= k < bs.len() implies (is_word_byte(#[trigger] bs[k]) || (bs[k]
            == 0x5f && 0 < k < bs.len() - 1 && bs[k + 1] != 0x5f)) by {
            assert(ascii_kept(bs, k));
        }
    }
}

proof fn lemma_ascii_stop_from(bs: Seq<u8>, k: int)
    requires
        0 <= k <= bs.len(),
    ensures
        k <= ascii_stop(bs, k) <= bs.len(),
        ascii_stop(bs, k) < bs.len() ==> !ascii_kept(bs, ascii_stop(bs, k)),
        forall|j: int| k <= j < ascii_stop(bs, k) ==> #[trigger] ascii_kept(bs, j),
    decreases bs.len() - k,
{
    if k < bs.len() && ascii_kept(bs, k) {
        lemma_ascii_stop_from(bs, k + 1);
    }
}

fn is_lower_or_digit(b: u8) -> (r: bool)
    ensures
        r == is_word_byte(b),
{
    (b >= 0x61 && b <= 0x7a) || (b >= 0x30 && b <= 0x39)
}

fn is_upper(b: u8) -> (r: bool)
    ensures
        r == is_upper_byte(b),
{
    b >= 0x41 && b <= 0x5a
}

/// Appends `b`, made lowercase, when it is an uppercase letter or a digit,
/// and tells whether it was one.
fn is_upper_or_digit_add(result: &mut String, b: u8) -> (r: bool)
    ensures
        r == (is_upper_byte(b) || is_digit_byte(b)),
        r ==> final(result)@ == old(result)@.push(lowered(b) as char),
        !r ==> final(result)@ == old(result)@,
{
    if is_upper(b) {
        result.push((b + 0x20) as char);
        true
    } else if b >= 0x30 && b <= 0x39 {
        result.push(b as char);
        true
    } else {
        false
    }
}

/// Converts `s` to snake_case over ASCII: lowercase letters and digits joined
/// by single underscores.
///
/// A word is a run of uppercase letters and digits followed by a run of
/// lowercase letters and digits. Every byte that is not an ASCII letter or
/// digit, including each byte of a non-ASCII character, only separates words
/// and is dropped. Text already in that form is returned borrowed, without a
/// copy.
pub fn to_snakecase_ascii<'a>(s: &'a str) -> (r: Cow<'a, str>)
    ensures
        encode_utf8(r@) == ascii_snake(encode_utf8(s@)),
        r is Borrowed <==> is_ascii_snake(encode_utf8(s@)),
        r is Borrowed ==> r == Cow::Borrowed(s),
{
    let bytes = s.as_bytes();
    let ghost bs = bytes@;
    let n = bytes.len();
    proof {
        lemma_ascii_stop_snake(bs);
    }
    let mut idx: usize = 0;
    while idx < n && (is_lower_or_digit(bytes[idx]) || (bytes[idx] == 0x5f && idx > 0 && idx < n
        - 1 && is_lower_or_digit(bytes[idx + 1])))
        invariant
            idx <= n,
            n == bs.len(),
            bs == bytes@,
            ascii_stop(bs, 0) == ascii_stop(bs, idx as int),
        decreases n - idx,
    {
        idx = idx + 1;
    }
    if idx >= n {
        proof {
            assert(bs.take(n as int) =~= bs);
            assert(bs.subrange(n as int, n as int) =~= Seq::<u8>::empty());
            if n > 0 {
                assert(ascii_kept(bs, n - 1));
            }
        }
        return Cow::Borrowed(s);
    }
    if idx > 0 && is_upper(bytes[idx]) && bytes[idx - 1] >= 0x30 && bytes[idx - 1] <= 0x39 {
        idx = idx - 1;
    }
    let keep = if idx > 0 && bytes[idx - 1] == 0x5f {
        idx - 1
    } else {
        idx
    };
    let mut result = String::new();
    let mut j: usize = 0;
    while j < keep
        invariant
            j <= keep <= idx <= n,
            n == bs.len(),
            bs == bytes@,
            result@ == as_chars(bs.take(j as int)),
        decreases keep - j,
    {
        result.push(bytes[j] as char);
        j = j + 1;
        assert(result@ =~= as_chars(bs.take(j as int)));
    }
    let ghost head = bs.take(keep as int);
    let ghost mut out = head;
    let mut phase = Phase::Gap;
    let mut any = keep > 0;
    let mut k = idx;
    proof {
        assert(head == ascii_head(bs));
        assert forall|m: int| 0 <= m < head.len() implies #[trigger] head[m] < 0x80 by {
            assert(ascii_kept(bs, m));
        }
        assert(bs.subrange(idx as int, idx as int) =~= Seq::<u8>::empty());
    }
    while k < n
        invariant
            idx <= k <= n,
            n == bs.len(),
            bs == bytes@,
            idx == ascii_resume(bs),
            ascii_walk(bs.subrange(idx as int, k as int), head) == (phase, out),
            result@ == as_chars(out),
            any == (out.len() > 0),
            all_ascii(out),
        decreases n - k,
    {
        let b = bytes[k];
        let ghost prev = (phase, out);
        if !(is_lower_or_digit(b) || is_upper(b)) {
            phase = Phase::Gap;
        } else {
            if any && (phase == Phase::Gap || (phase == Phase::Tail && is_upper(b))) {
                result.push('_');
                proof {
                    out = out.push(0x5f);
                }
            }
            if (phase != Phase::Tail || is_upper(b)) && is_upper_or_digit_add(&mut result, b) {
                phase = Phase::Caps;
            } else {
                result.push(b as char);
                phase = Phase::Tail;
            }
            proof {
                out = out.push(lowered(b));
            }
            any = true;
        }
        proof {
            assert(bs.subrange(idx as int, k + 1).drop_last() =~= bs.subrange(idx as int, k as int));
            assert(ascii_step(prev, b) == (phase, out));
            assert(result@ =~= as_chars(out));
        }
        k = k + 1;
    }
    proof {
        lemma_encode_as_chars(out);
    }
    Cow::Owned(result)
}

} // verus!
