//! Assembling conversational context from stored entry text.
//!
//! Entry content may carry derived annotation blocks appended by outside
//! collaborators: an emotion tag and a suggestion block, each introduced by
//! a known marker. When entry text is handed to the assistant as context,
//! the suggestion block is dropped and the emotion marker is rewritten to
//! a plain form. This is a best-effort convenience transform, verified
//! against spec-level definitions of cutting, replacement and trimming.

use vstd::prelude::*;

verus! {

/// The marker that introduces a stored suggestion block.
pub open spec fn suggestion_marker() -> Seq<char> {
    "\n\n\u{1F4A1} Suggestion:"@
}

/// The marker that introduces a stored emotion tag.
pub open spec fn emotion_marker() -> Seq<char> {
    "\n\n\u{1F9E0} Emotion:"@
}

/// The plain form the emotion marker is rewritten to.
pub open spec fn emotion_replacement() -> Seq<char> {
    "\n\nEmotion:"@
}

/// Everything before the first occurrence of `pat` in `s`, or all of `s`
/// when `pat` does not occur (or is empty).
pub open spec fn cut_at_marker(s: Seq<char>, pat: Seq<char>) -> Seq<char>
    decreases s.len(),
{
    if s.len() < pat.len() || pat.len() == 0 {
        s
    } else if s.take(pat.len() as int) == pat {
        Seq::empty()
    } else {
        seq![s[0]] + cut_at_marker(s.drop_first(), pat)
    }
}

/// `s` with every leftmost, non-overlapping occurrence of `pat` replaced
/// by `rep`; `s` itself when `pat` is empty.
pub open spec fn replace_all(s: Seq<char>, pat: Seq<char>, rep: Seq<char>) -> Seq<char>
    decreases s.len(),
{
    if s.len() < pat.len() || pat.len() == 0 {
        s
    } else if s.take(pat.len() as int) == pat {
        rep + replace_all(s.skip(pat.len() as int), pat, rep)
    } else {
        seq![s[0]] + replace_all(s.drop_first(), pat, rep)
    }
}

/// `c` has the Unicode `White_Space` property, the set that trimming
/// removes from the ends of context text.
pub open spec fn is_space(c: char) -> bool {
    ||| 0x9 <= c as u32 <= 0xD
    ||| c as u32 == 0x20
    ||| c as u32 == 0x85
    ||| c as u32 == 0xA0
    ||| c as u32 == 0x1680
    ||| 0x2000 <= c as u32 <= 0x200A
    ||| c as u32 == 0x2028
    ||| c as u32 == 0x2029
    ||| c as u32 == 0x202F
    ||| c as u32 == 0x205F
    ||| c as u32 == 0x3000
}

/// `s` with leading and trailing whitespace removed.
pub open spec fn trim_chars(s: Seq<char>) -> Seq<char>
    decreases s.len(),
{
    if s.len() == 0 {
        s
    } else if is_space(s[0]) {
        trim_chars(s.drop_first())
    } else if is_space(s.last()) {
        trim_chars(s.drop_last())
    } else {
        s
    }
}

/// The main content of a stored entry text: everything before the first
/// suggestion marker, with emotion markers rewritten to their plain form,
/// and surrounding whitespace trimmed.
pub open spec fn main_content_of(full: Seq<char>) -> Seq<char> {
    trim_chars(
        replace_all(
            cut_at_marker(full, suggestion_marker()),
            emotion_marker(),
            emotion_replacement(),
        ),
    )
}

/// Compares `pat` against the characters of `s` starting at `pos`.
fn marker_at(s: &str, pos: usize, pat: &str) -> (r: bool)
    requires
        pos + pat@.len() <= s@.len(),
        s@.len() <= usize::MAX,
    ensures
        r == (s@.subrange(pos as int, pos as int + pat@.len() as int) == pat@),
{
    let m = pat.unicode_len();
    let ghost sub = s@.subrange(pos as int, pos as int + m as int);
    let mut j: usize = 0;
    while j < m
        invariant
            0 <= j <= m,
            forall|k: int| 0 <= k < j ==> s@[pos + k] == pat@[k],
        decreases m - j,
    {
        if s.get_char(pos + j) != pat.get_char(j) {
            proof {
                assert(sub[j as int] == s@[pos + j]);
            }
            return false;
        }
        j += 1;
    }
    proof {
        assert(sub =~= pat@);
    }
    true
}

/// Returns everything before the first occurrence of `pat` in `s`.
fn cut_before<'a>(s: &'a str, pat: &str) -> (r: &'a str)
    ensures
        r@ == cut_at_marker(s@, pat@),
{
    let n = s.unicode_len();
    let m = pat.unicode_len();
    if m == 0 {
        return s;
    }
    let mut i: usize = 0;
    proof {
        assert(s@.skip(0) =~= s@);
        assert(s@.take(0) + cut_at_marker(s@, pat@) =~= cut_at_marker(s@, pat@));
    }
    while i < n
        invariant
            0 <= i <= n,
            n == s@.len(),
            m == pat@.len(),
            m > 0,
            cut_at_marker(s@, pat@) == s@.take(i as int) + cut_at_marker(
                s@.skip(i as int),
                pat@,
            ),
        decreases n - i,
    {
        let ghost tail = s@.skip(i as int);
        if m <= n - i && marker_at(s, i, pat) {
            proof {
                assert(tail.take(m as int) =~= s@.subrange(i as int, i as int + m as int));
                assert(cut_at_marker(tail, pat@) == Seq::<char>::empty());
                assert(cut_at_marker(s@, pat@) =~= s@.take(i as int));
            }
            return s.substring_char(0, i);
        }
        proof {
            if tail.len() < m as int {
                assert(cut_at_marker(tail, pat@) == tail);
                assert(s@.skip(i as int + 1).len() < m as int);
                assert(cut_at_marker(s@.skip(i as int + 1), pat@) == s@.skip(i as int + 1));
                assert(s@.take(i as int) + tail =~= s@.take(i as int + 1) + s@.skip(
                    i as int + 1,
                ));
            } else {
                assert(tail.take(m as int) =~= s@.subrange(i as int, i as int + m as int));
                assert(cut_at_marker(tail, pat@) == seq![tail[0]] + cut_at_marker(
                    tail.drop_first(),
                    pat@,
                ));
                assert(tail.drop_first() =~= s@.skip(i as int + 1));
                assert(s@.take(i as int) + (seq![tail[0]] + cut_at_marker(
                    s@.skip(i as int + 1),
                    pat@,
                )) =~= s@.take(i as int + 1) + cut_at_marker(s@.skip(i as int + 1), pat@));
            }
        }
        i += 1;
    }
    proof {
        assert(s@.skip(n as int).len() == 0);
        assert(cut_at_marker(s@.skip(n as int), pat@) == s@.skip(n as int));
        assert(s@.take(n as int) + s@.skip(n as int) =~= s@);
    }
    s
}

/// Replaces every leftmost occurrence of `pat` in `s` by `rep`.
fn replace_marker(s: &str, pat: &str, rep: &str) -> (r: String)
    requires
        pat@.len() > 0,
    ensures
        r@ == replace_all(s@, pat@, rep@),
{
    let n = s.unicode_len();
    let m = pat.unicode_len();
    let mut out = String::new();
    let mut i: usize = 0;
    proof {
        assert(s@.skip(0) =~= s@);
        assert(out@ + replace_all(s@, pat@, rep@) =~= replace_all(s@, pat@, rep@));
    }
    while i < n
        invariant
            0 <= i <= n,
            n == s@.len(),
            m == pat@.len(),
            m > 0,
            out@ + replace_all(s@.skip(i as int), pat@, rep@) == replace_all(s@, pat@, rep@),
        decreases n - i,
    {
        let ghost tail = s@.skip(i as int);
        if m <= n - i && marker_at(s, i, pat) {
            proof {
                assert(tail.take(m as int) =~= s@.subrange(i as int, i as int + m as int));
                assert(replace_all(tail, pat@, rep@) == rep@ + replace_all(
                    tail.skip(m as int),
                    pat@,
                    rep@,
                ));
                assert(tail.skip(m as int) =~= s@.skip(i as int + m as int));
                assert(out@ + (rep@ + replace_all(s@.skip(i as int + m as int), pat@, rep@)) =~= (
                out@ + rep@) + replace_all(s@.skip(i as int + m as int), pat@, rep@));
            }
            out.append(rep);
            i += m;
        } else {
            let c = s.get_char(i);
            proof {
                assert(tail[0] == s@[i as int]);
                if tail.len() < m as int {
                    assert(replace_all(tail, pat@, rep@) == tail);
                    assert(s@.skip(i as int + 1).len() < m as int);
                    assert(replace_all(s@.skip(i as int + 1), pat@, rep@) == s@.skip(
                        i as int + 1,
                    ));
                    assert(tail =~= seq![s@[i as int]] + s@.skip(i as int + 1));
                } else {
                    assert(tail.take(m as int) =~= s@.subrange(i as int, i as int + m as int));
                    assert(replace_all(tail, pat@, rep@) == seq![tail[0]] + replace_all(
                        tail.drop_first(),
                        pat@,
                        rep@,
                    ));
                    assert(tail.drop_first() =~= s@.skip(i as int + 1));
                }
                assert(out@ + (seq![s@[i as int]] + replace_all(
                    s@.skip(i as int + 1),
                    pat@,
                    rep@,
                )) =~= out@.push(s@[i as int]) + replace_all(s@.skip(i as int + 1), pat@, rep@));
            }
            out.push(c);
            i += 1;
        }
    }
    proof {
        assert(s@.skip(n as int).len() == 0);
        assert(replace_all(s@.skip(n as int), pat@, rep@) == s@.skip(n as int));
        assert(out@ + s@.skip(n as int) =~= out@);
    }
    out
}

/// `c` is a whitespace character in the sense of `is_space`.
fn is_space_char(c: char) -> (r: bool)
    ensures
        r == is_space(c),
{
    let v = c as u32;
    (0x9 <= v && v <= 0xD) || v == 0x20 || v == 0x85 || v == 0xA0 || v == 0x1680 || (0x2000 <= v
        && v <= 0x200A) || v == 0x2028 || v == 0x2029 || v == 0x202F || v == 0x205F || v == 0x3000
}

/// Trimming a sequence whose whitespace lies entirely outside `lo..hi`
/// yields exactly `lo..hi`.
proof fn lemma_trim_range(s: Seq<char>, lo: int, hi: int)
    requires
        0 <= lo <= hi <= s.len(),
        forall|k: int| 0 <= k < lo ==> is_space(#[trigger] s[k]),
        forall|k: int| hi <= k < s.len() ==> is_space(#[trigger] s[k]),
        lo < hi ==> !is_space(s[lo]) && !is_space(s[hi - 1]),
    ensures
        trim_chars(s) == s.subrange(lo, hi),
    decreases s.len(),
{
    if s.len() == 0 {
        assert(s.subrange(lo, hi) =~= s);
    } else if lo > 0 {
        assert(is_space(s[0]));
        let t = s.drop_first();
        assert forall|k: int| 0 <= k < lo - 1 implies is_space(#[trigger] t[k]) by {
            assert(t[k] == s[k + 1]);
        }
        assert forall|k: int| hi - 1 <= k < t.len() implies is_space(#[trigger] t[k]) by {
            assert(t[k] == s[k + 1]);
        }
        lemma_trim_range(t, lo - 1, hi - 1);
        assert(t.subrange(lo - 1, hi - 1) =~= s.subrange(lo, hi));
    } else if lo == hi {
        assert(is_space(s[0]));
        let t = s.drop_first();
        assert forall|k: int| 0 <= k < t.len() implies is_space(#[trigger] t[k]) by {
            assert(t[k] == s[k + 1]);
        }
        lemma_trim_range(t, 0, 0);
        assert(t.subrange(0, 0) =~= s.subrange(lo, hi));
    } else if hi < s.len() {
        assert(!is_space(s[0]));
        assert(is_space(s.last()));
        let t = s.drop_last();
        assert forall|k: int| hi <= k < t.len() implies is_space(#[trigger] t[k]) by {
            assert(t[k] == s[k]);
        }
        lemma_trim_range(t, lo, hi);
        assert(t.subrange(lo, hi) =~= s.subrange(lo, hi));
    } else {
        assert(!is_space(s[0]));
        assert(!is_space(s.last()));
        assert(s.subrange(lo, hi) =~= s);
    }
}

/// Removes leading and trailing whitespace.
fn trim_spaces<'a>(s: &'a str) -> (r: &'a str)
    ensures
        r@ == trim_chars(s@),
{
    let n = s.unicode_len();
    let mut lo: usize = 0;
    while lo < n && is_space_char(s.get_char(lo))
        invariant
            0 <= lo <= n,
            n == s@.len(),
            forall|k: int| 0 <= k < lo ==> is_space(#[trigger] s@[k]),
        decreases n - lo,
    {
        lo += 1;
    }
    let mut hi: usize = n;
    while hi > lo && is_space_char(s.get_char(hi - 1))
        invariant
            lo <= hi <= n,
            n == s@.len(),
            forall|k: int| hi <= k < n ==> is_space(#[trigger] s@[k]),
        decreases hi,
    {
        hi -= 1;
    }
    proof {
        lemma_trim_range(s@, lo as int, hi as int);
    }
    s.substring_char(lo, hi)
}

/// Strips a stored entry's derived annotations when it is handed to the
/// assistant as context: drops everything from the first suggestion marker
/// on, rewrites the emotion marker to a plain form, and trims surrounding
/// whitespace.
pub fn get_main_content_from_full_content_rs(full_content: &str) -> (r: String)
    ensures
        r@ == main_content_of(full_content@),
{
    let relevant = cut_before(full_content, "\n\n\u{1F4A1} Suggestion:");
    proof {
        reveal_strlit("\n\n\u{1F9E0} Emotion:");
    }
    let replaced = replace_marker(relevant, "\n\n\u{1F9E0} Emotion:", "\n\nEmotion:");
    let trimmed = trim_spaces(replaced.as_str());
    String::from_str(trimmed)
}

} // verus!
