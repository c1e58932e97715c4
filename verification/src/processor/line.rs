//! The grammar of a configuration line: plain text with `{name}` references to
//! fields or other phrases.
use vstd::prelude::*;
use vstd::utf8::encode_utf8;
use crate::text::{chars_of, pop_char, string_of, utf8_len};

verus! {

/// A character allowed in a reference name.
pub open spec fn is_name_char(c: char) -> bool {
    ('a' <= c && c <= 'z') || ('A' <= c && c <= 'Z') || ('0' <= c && c <= '9') || c == '-' || c == '_'
}

/// The first position at or after `j` that does not hold a name character.
pub open spec fn run_end(s: Seq<char>, j: int) -> int
    decreases s.len() - j,
{
    if j < 0 || j >= s.len() || !is_name_char(s[j]) {
        j
    } else {
        run_end(s, j + 1)
    }
}

/// A reference `{name}` starts at `i`.
pub open spec fn span_at(s: Seq<char>, i: int) -> bool {
    &&& 0 <= i < s.len()
    &&& s[i] == '{'
    &&& run_end(s, i + 1) > i + 1
    &&& run_end(s, i + 1) < s.len()
    &&& s[run_end(s, i + 1)] == '}'
}

/// The references in `s` from position `i` on, as (start, end) character positions,
/// braces included, in order.
pub open spec fn spans_from(s: Seq<char>, i: int) -> Seq<(int, int)>
    decreases s.len() - i,
{
    if i < 0 || i >= s.len() {
        Seq::empty()
    } else if span_at(s, i) {
        seq![(i, run_end(s, i + 1) + 1)] + spans_from(s, run_end(s, i + 1) + 1)
    } else {
        spans_from(s, i + 1)
    }
}

/// All references of the line `s`.
pub open spec fn placeholder_spans(s: Seq<char>) -> Seq<(int, int)> {
    spans_from(s, 0)
}

/// The number of bytes of the UTF-8 encoding of the first `k` characters of `s`.
pub open spec fn byte_offset(s: Seq<char>, k: int) -> nat {
    encode_utf8(s.take(k)).len()
}

/// Calls `regex::Regex::new` with the pattern `\{[a-zA-Z0-9\-_]+\}` (a valid pattern,
/// so the `unwrap` cannot fail) and `Regex::find_iter` on `line`, giving the byte
/// range of each match.  The contract states the matches that the regex crate
/// documents for this pattern (leftmost-first, successive, non-overlapping): each
/// `{`, one or more of the name characters, then `}`; as the pattern is ASCII, the
/// byte ranges are those of the character ranges `placeholder_spans` gives.
#[verifier::external_body]
fn placeholder_matches(line: &str) -> (res: Vec<(usize, usize)>)
    ensures
        res@.len() == placeholder_spans(line@).len(),
        forall|k: int|
            0 <= k < res@.len() ==> #[trigger] res@[k].0 == byte_offset(line@, placeholder_spans(line@)[k].0),
        forall|k: int|
            0 <= k < res@.len() ==> #[trigger] res@[k].1 == byte_offset(line@, placeholder_spans(line@)[k].1),
{
    let regex = regex::Regex::new(r"\{[a-zA-Z0-9\-_]+\}").unwrap();
    regex.find_iter(line).map(|m| (m.start(), m.end())).collect()
}

/// A piece of a line: plain text, or the name inside a `{name}` reference.
pub enum LineSegment {
    Text(String),
    Reference(String),
}

/// The value of a piece of a line.
pub enum Segment {
    Text(Seq<char>),
    Reference(Seq<char>),
}

impl LineSegment {
    pub open spec fn view(&self) -> Segment {
        match self {
            LineSegment::Text(t) => Segment::Text(t@),
            LineSegment::Reference(n) => Segment::Reference(n@),
        }
    }
}

pub open spec fn segment_views(v: Seq<LineSegment>) -> Seq<Segment> {
    v.map_values(|x: LineSegment| x.view())
}

/// Text with one trailing space removed.
pub open spec fn trim_one(t: Seq<char>) -> Seq<char> {
    if t.len() > 0 && t.last() == ' ' {
        t.drop_last()
    } else {
        t
    }
}

/// The pieces found before and at the first `k` references, and the position after
/// the last of them.  Before each reference a single leading space is skipped; the
/// text up to the reference is kept (less one trailing space) only when it takes
/// more than one byte.
pub open spec fn segment_fold(s: Seq<char>, spans: Seq<(int, int)>, k: int) -> (Seq<Segment>, int)
    decreases k,
{
    if k <= 0 {
        (Seq::empty(), 0)
    } else {
        let prev = segment_fold(s, spans, k - 1);
        let (start, end) = spans[k - 1];
        let off = if 0 <= prev.1 < s.len() && s[prev.1] == ' ' {
            prev.1 + 1
        } else {
            prev.1
        };
        let with_text = if byte_offset(s, start) - byte_offset(s, off) > 1 {
            prev.0.push(Segment::Text(trim_one(s.subrange(off, start))))
        } else {
            prev.0
        };
        (with_text.push(Segment::Reference(s.subrange(start + 1, end - 1))), end)
    }
}

/// The pieces of the line `s`: after the last reference, one leading space is
/// skipped (as before each reference), and what remains is kept as text if
/// anything remains; a line without references is kept as it is.
pub open spec fn segments(s: Seq<char>) -> Seq<Segment> {
    let spans = placeholder_spans(s);
    let f = segment_fold(s, spans, spans.len() as int);
    let off = if spans.len() > 0 && 0 <= f.1 < s.len() && s[f.1] == ' ' {
        f.1 + 1
    } else {
        f.1
    };
    if off != s.len() {
        f.0.push(Segment::Text(s.subrange(off, s.len() as int)))
    } else {
        f.0
    }
}

pub proof fn lemma_encode_concat(a: Seq<char>, b: Seq<char>)
    ensures
        encode_utf8(a + b) == encode_utf8(a) + encode_utf8(b),
    decreases a.len(),
{
    if a.len() > 0 {
        assert((a + b).drop_first() == a.drop_first() + b);
        assert((a + b)[0] == a[0]);
        lemma_encode_concat(a.drop_first(), b);
    } else {
        assert(a + b == b);
    }
}

proof fn lemma_byte_offset_step(s: Seq<char>, k: int)
    requires
        0 <= k < s.len(),
    ensures
        byte_offset(s, k + 1) == byte_offset(s, k) + encode_utf8(seq![s[k]]).len(),
        encode_utf8(seq![s[k]]).len() >= 1,
{
    assert(s.take(k + 1) == s.take(k) + seq![s[k]]);
    lemma_encode_concat(s.take(k), seq![s[k]]);
    assert(seq![s[k]].drop_first() =~= Seq::<char>::empty());
}

proof fn lemma_byte_offset_mono(s: Seq<char>, a: int, b: int)
    requires
        0 <= a < b <= s.len(),
    ensures
        byte_offset(s, a) < byte_offset(s, b),
    decreases b - a,
{
    lemma_byte_offset_step(s, b - 1);
    if a < b - 1 {
        lemma_byte_offset_mono(s, a, b - 1);
    }
}

proof fn lemma_run_end(s: Seq<char>, j: int)
    requires
        0 <= j <= s.len(),
    ensures
        j <= run_end(s, j) <= s.len(),
    decreases s.len() - j,
{
    if j < s.len() && is_name_char(s[j]) {
        lemma_run_end(s, j + 1);
    }
}

proof fn lemma_spans_from(s: Seq<char>, i: int)
    requires
        0 <= i,
    ensures
        forall|k: int|
            0 <= k < spans_from(s, i).len() ==> {
                let (a, b) = #[trigger] spans_from(s, i)[k];
                &&& i <= a
                &&& a + 3 <= b <= s.len()
                &&& s[a] == '{'
            },
        forall|k: int, l: int|
            0 <= k < l < spans_from(s, i).len() ==> #[trigger] spans_from(s, i)[k].1 <= #[trigger] spans_from(
                s,
                i,
            )[l].0,
    decreases s.len() - i,
{
    if i < s.len() {
        if span_at(s, i) {
            let e = run_end(s, i + 1) + 1;
            lemma_run_end(s, i + 1);
            lemma_spans_from(s, e);
            let rest = spans_from(s, e);
            assert(spans_from(s, i) == seq![(i, e)] + rest);
            assert forall|k: int| 0 <= k < spans_from(s, i).len() implies {
                let (a, b) = #[trigger] spans_from(s, i)[k];
                &&& i <= a
                &&& a + 3 <= b <= s.len()
                &&& s[a] == '{'
            } by {
                if k > 0 {
                    assert(spans_from(s, i)[k] == rest[k - 1]);
                }
            }
            assert forall|k: int, l: int|
                0 <= k < l < spans_from(s, i).len() implies #[trigger] spans_from(s, i)[k].1
                <= #[trigger] spans_from(s, i)[l].0 by {
                if k > 0 {
                    assert(spans_from(s, i)[k] == rest[k - 1]);
                }
                assert(spans_from(s, i)[l] == rest[l - 1]);
            }
        } else {
            lemma_spans_from(s, i + 1);
            assert(spans_from(s, i) == spans_from(s, i + 1));
        }
    }
}

/// The byte offset of every character position of `cs`, and of its end.
fn byte_offsets(cs: &Vec<char>, Ghost(total): Ghost<nat>) -> (res: Vec<usize>)
    requires
        encode_utf8(cs@).len() == total,
        total <= usize::MAX,
    ensures
        res@.len() == cs@.len() + 1,
        forall|k: int| 0 <= k <= cs@.len() ==> #[trigger] res@[k] == byte_offset(cs@, k),
{
    let mut res: Vec<usize> = Vec::new();
    res.push(0);
    let mut k: usize = 0;
    proof {
        assert(cs@.take(0) =~= Seq::<char>::empty());
    }
    while k < cs.len()
        invariant
            k <= cs@.len(),
            encode_utf8(cs@).len() == total,
            total <= usize::MAX,
            res@.len() == k + 1,
            forall|j: int| 0 <= j <= k ==> #[trigger] res@[j] == byte_offset(cs@, j),
        decreases cs.len() - k,
    {
        proof {
            lemma_byte_offset_step(cs@, k as int);
            assert(cs@.take(cs@.len() as int) == cs@);
            if k + 1 < cs@.len() {
                lemma_byte_offset_mono(cs@, k + 1, cs@.len() as int);
            }
        }
        let next = res[k] + utf8_len(cs[k]);
        res.push(next);
        k = k + 1;
    }
    res
}

/// The character position whose byte offset is `target`.
fn char_position(offs: &Vec<usize>, cs: Ghost<Seq<char>>, target: usize, Ghost(k0): Ghost<int>) -> (res: usize)
    requires
        0 <= k0 <= cs@.len(),
        offs@.len() == cs@.len() + 1,
        forall|k: int| 0 <= k <= cs@.len() ==> #[trigger] offs@[k] == byte_offset(cs@, k),
        target == byte_offset(cs@, k0),
    ensures
        res == k0,
{
    let n = offs.len();
    let mut i: usize = 0;
    while offs[i] < target
        invariant
            0 <= i <= k0,
            offs@.len() == cs@.len() + 1,
            forall|k: int| 0 <= k <= cs@.len() ==> #[trigger] offs@[k] == byte_offset(cs@, k),
            target == byte_offset(cs@, k0),
            k0 <= cs@.len(),
            n == offs@.len(),
        decreases k0 - i,
    {
        proof {
            if i == k0 {
                assert(offs@[i as int] == target);
            }
        }
        i = i + 1;
    }
    proof {
        if i < k0 {
            lemma_byte_offset_mono(cs@, i as int, k0);
        }
    }
    i
}

/// Splits a configuration line into text and references.
pub fn line_segments(line: &str) -> (res: Vec<LineSegment>)
    ensures
        segment_views(res@) == segments(line@),
{
    let cs = chars_of(line);
    let bytes = line.as_bytes();
    let total = bytes.len();
    proof {
        assert(cs@.take(cs@.len() as int) == cs@);
        assert(encode_utf8(cs@).len() == total);
    }
    let offs = byte_offsets(&cs, Ghost(encode_utf8(cs@).len()));
    let matches = placeholder_matches(line);
    let ghost spans = placeholder_spans(line@);
    proof {
        lemma_spans_from(line@, 0);
    }
    let mut res: Vec<LineSegment> = Vec::new();
    let mut off: usize = 0;
    let mut k: usize = 0;
    while k < matches.len()
        invariant
            k <= matches@.len(),
            cs@ == line@,
            spans == placeholder_spans(line@),
            matches@.len() == spans.len(),
            forall|j: int| 0 <= j < matches@.len() ==> #[trigger] matches@[j].0 == byte_offset(line@, spans[j].0),
            forall|j: int| 0 <= j < matches@.len() ==> #[trigger] matches@[j].1 == byte_offset(line@, spans[j].1),
            forall|j: int|
                0 <= j < spans.len() ==> {
                    let (a, b) = #[trigger] spans[j];
                    &&& 0 <= a
                    &&& a + 3 <= b <= line@.len()
                    &&& line@[a] == '{'
                },
            forall|j: int, l: int| 0 <= j < l < spans.len() ==> #[trigger] spans[j].1 <= #[trigger] spans[l].0,
            offs@.len() == cs@.len() + 1,
            forall|j: int| 0 <= j <= cs@.len() ==> #[trigger] offs@[j] == byte_offset(cs@, j),
            segment_fold(line@, spans, k as int) == (segment_views(res@), off as int),
            off <= line@.len(),
            k < spans.len() ==> off <= spans[k as int].0,
        decreases matches.len() - k,
    {
        let ghost (sa, sb) = spans[k as int];
        let start = char_position(&offs, Ghost(cs@), matches[k].0, Ghost(sa));
        let end = char_position(&offs, Ghost(cs@), matches[k].1, Ghost(sb));
        let ghost prev = segment_views(res@);
        let ghost prev_off = off;
        if off < cs.len() && cs[off] == ' ' {
            off = off + 1;
        }
        proof {
            if off > start {
                assert(cs@[start as int] == '{');
            }
            if off < start {
                lemma_byte_offset_mono(cs@, off as int, start as int);
            }
        }
        if offs[start] - offs[off] > 1 {
            let mut content = string_of(&cs, off, start);
            let ghost raw = content@;
            let cc = chars_of(content.as_str());
            if cc.len() > 0 && cc[cc.len() - 1] == ' ' {
                pop_char(&mut content);
            }
            proof {
                assert(content@ == trim_one(raw));
            }
            res.push(LineSegment::Text(content));
        }
        let name = string_of(&cs, start + 1, end - 1);
        res.push(LineSegment::Reference(name));
        proof {
            assert(segment_views(res@) =~= segment_fold(line@, spans, k + 1).0);
            if k + 1 < spans.len() {
                assert(spans[k as int].1 <= spans[k + 1].0);
            }
        }
        off = end;
        k = k + 1;
    }
    if k > 0 && off < cs.len() && cs[off] == ' ' {
        off = off + 1;
    }
    if off != cs.len() {
        let rest = string_of(&cs, off, cs.len());
        res.push(LineSegment::Text(rest));
        proof {
            assert(segment_views(res@) =~= segments(line@));
        }
    }
    res
}

} // verus!
