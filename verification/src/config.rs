//! Character sets: the pattern syntax by which a font descriptor names the
//! characters to compile.

use crate::chars::{is_scalar, lemma_char_number, lemma_scalar_char};
use crate::font::strictly_increasing;
use crate::sorted::{increasing, insert};
use vstd::prelude::*;

verus! {

/// The characters after `low` up to and with `high`.
pub open spec fn span(low: char, high: char) -> Set<char> {
    Set::new(|c: char| (low as u32) < (c as u32) && (c as u32) <= (high as u32))
}

/// The characters that a pattern names from position `at` on, where `last` is
/// the character read before `at`, if any.
///
/// A `-` between two characters names every character after the first up to
/// the second; it stands for itself at the start and at the end of a pattern.
/// The end of one range can be the start of the next: in `a-c-e` the second
/// `-` stands between `c` and `e`.
pub open spec fn pattern_set(pattern: Seq<char>, at: int, last: Option<char>) -> Set<char>
    decreases pattern.len() - at,
{
    if at < 0 || at >= pattern.len() {
        Set::empty()
    } else if pattern[at] == '-' && last is Some && at + 1 < pattern.len() {
        span(last->0, pattern[at + 1]).insert(pattern[at + 1]).union(
            pattern_set(pattern, at + 2, Some(pattern[at + 1])),
        )
    } else {
        pattern_set(pattern, at + 1, Some(pattern[at])).insert(pattern[at])
    }
}

/// The characters that a pattern names.
pub open spec fn char_set(pattern: Seq<char>) -> Set<char> {
    pattern_set(pattern, 0, None)
}

/// The characters of `text`, one by one.
fn symbols_of(text: &str) -> (symbols: Vec<char>)
    ensures
        symbols@ == text@,
{
    let mut symbols: Vec<char> = Vec::new();
    for c in it: text.chars()
        invariant
            it.seq() == text@,
            symbols@ == text@.take(it.index() as int),
    {
        symbols.push(c);
        proof {
            assert(symbols@ =~= text@.take(it.index() + 1));
        }
    }
    proof {
        assert(text@.take(text@.len() as int) =~= text@);
    }
    symbols
}

/// Expands a pattern such as `A-Za-z0-9 ` into the characters it names, in
/// increasing order and each of them once.
pub fn parse_char_set(pattern: &str) -> (chars: Vec<char>)
    ensures
        strictly_increasing(chars@),
        chars@.to_set() == char_set(pattern@),
{
    let symbols = symbols_of(pattern);
    let n = symbols.len();
    let mut keys: Vec<u32> = Vec::new();
    let ghost mut collected: Set<char> = Set::empty();
    let mut last: Option<char> = None;
    let mut at: usize = 0;
    while at < n
        invariant
            at <= n,
            n == symbols@.len(),
            symbols@ == pattern@,
            increasing(keys@),
            forall|i: int| 0 <= i < keys@.len() ==> is_scalar(#[trigger] keys@[i]),
            forall|c: char| keys@.contains(c as u32) <==> collected.contains(c),
            collected.union(pattern_set(pattern@, at as int, last)) == char_set(pattern@),
        decreases n - at,
    {
        let c = symbols[at];
        let ghost rest = pattern_set(pattern@, at as int, last);
        if c == '-' && last.is_some() && n - at > 1 {
            let start_char = last.unwrap();
            let end_char = symbols[at + 1];
            let start = start_char as u32;
            let end = end_char as u32;
            let ghost before_span = collected;
            proof {
                lemma_char_number(end_char, start_char);
                lemma_char_number(start_char, end_char);
            }
            if start < end {
                let mut u: u32 = start + 1;
                while u <= end
                    invariant
                        start < u <= end + 1,
                        end <= 0x10FFFF,
                        start == start_char as u32,
                        increasing(keys@),
                        forall|i: int| 0 <= i < keys@.len() ==> is_scalar(#[trigger] keys@[i]),
                        forall|c: char| keys@.contains(c as u32) <==> collected.contains(c),
                        collected == before_span.union(
                            Set::new(|c: char| start < (c as u32) && (c as u32) < u),
                        ),
                    decreases end + 1 - u,
                {
                    let ghost old_keys = keys@;
                    let ghost old_collected = collected;
                    match char::from_u32(u) {
                        Some(ch) => {
                            insert(&mut keys, u);
                            proof {
                                collected = collected.insert(ch);
                                lemma_scalar_char(u);
                                assert forall|d: char| keys@.contains(d as u32)
                                    <==> collected.contains(d) by {
                                    lemma_char_number(d, ch);
                                }
                                assert forall|i: int| 0 <= i < keys@.len() implies is_scalar(
                                    #[trigger] keys@[i],
                                ) by {
                                    assert(keys@.contains(keys@[i]));
                                    if keys@[i] != u {
                                        assert(old_keys.contains(keys@[i]));
                                    }
                                }
                            }
                        },
                        None => {},
                    }
                    proof {
                        let wider = before_span.union(
                            Set::new(|c: char| start < (c as u32) && (c as u32) < u + 1),
                        );
                        assert forall|d: char| collected.contains(d) <==> wider.contains(d) by {
                            lemma_char_number(d, d);
                            if is_scalar(u) {
                                lemma_scalar_char(u);
                                lemma_char_number(d, u as char);
                            }
                        }
                        assert(collected =~= wider);
                    }
                    u = u + 1;
                }
            }
            let ghost old_keys = keys@;
            insert(&mut keys, end);
            proof {
                collected = collected.insert(end_char);
                assert forall|d: char| keys@.contains(d as u32) <==> collected.contains(d) by {
                    lemma_char_number(d, end_char);
                }
                assert forall|i: int| 0 <= i < keys@.len() implies is_scalar(
                    #[trigger] keys@[i],
                ) by {
                    assert(keys@.contains(keys@[i]));
                    if keys@[i] != end {
                        assert(old_keys.contains(keys@[i]));
                    }
                }
                assert(collected =~= before_span.union(span(start_char, end_char).insert(end_char)));
                assert(rest == span(start_char, end_char).insert(end_char).union(
                    pattern_set(pattern@, at + 2, Some(end_char)),
                ));
                assert(collected.union(pattern_set(pattern@, at + 2, Some(end_char)))
                    =~= before_span.union(rest));
            }
            last = Some(end_char);
            at = at + 2;
        } else {
            let ghost old_keys = keys@;
            let ghost old_collected = collected;
            insert(&mut keys, c as u32);
            proof {
                collected = collected.insert(c);
                lemma_char_number(c, c);
                assert forall|i: int| 0 <= i < keys@.len() implies is_scalar(
                    #[trigger] keys@[i],
                ) by {
                    assert(keys@.contains(keys@[i]));
                    if keys@[i] != c as u32 {
                        assert(old_keys.contains(keys@[i]));
                    }
                }
                assert forall|d: char| keys@.contains(d as u32) <==> collected.contains(d) by {
                    lemma_char_number(d, c);
                }
                assert(rest == pattern_set(pattern@, at + 1, Some(c)).insert(c));
                assert(collected.union(pattern_set(pattern@, at + 1, Some(c)))
                    =~= old_collected.union(rest));
            }
            last = Some(c);
            at = at + 1;
        }
    }
    proof {
        assert(collected.union(Set::<char>::empty()) =~= collected);
    }
    let mut chars: Vec<char> = Vec::new();
    let mut i: usize = 0;
    while i < keys.len()
        invariant
            i <= keys@.len(),
            chars@.len() == i,
            forall|j: int| 0 <= j < keys@.len() ==> is_scalar(#[trigger] keys@[j]),
            forall|j: int| 0 <= j < i ==> (#[trigger] chars@[j]) as u32 == keys@[j],
        decreases keys@.len() - i,
    {
        match char::from_u32(keys[i]) {
            Some(ch) => {
                chars.push(ch);
            },
            None => {
                assert(is_scalar(keys@[i as int]));
            },
        }
        i = i + 1;
    }
    proof {
        assert forall|a: int, b: int| 0 <= a < b < chars@.len() implies (chars@[a] as u32) < (
        chars@[b] as u32) by {
            assert(keys@[a] < keys@[b]);
        }
        assert forall|c: char| chars@.to_set().contains(c) <==> collected.contains(c) by {
            if chars@.contains(c) {
                let j = choose|j: int| 0 <= j < chars@.len() && chars@[j] == c;
                assert(keys@[j] == c as u32);
                assert(keys@.contains(c as u32));
            }
            if collected.contains(c) {
                assert(keys@.contains(c as u32));
                let j = choose|j: int| 0 <= j < keys@.len() && keys@[j] == c as u32;
                lemma_char_number(chars@[j], c);
            }
        }
        assert(chars@.to_set() =~= collected);
    }
    chars
}

} // verus!
