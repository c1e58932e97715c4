//! Character-level helpers: splitting, lower-casing and building strings.
use vstd::prelude::*;
use vstd::std_specs::iter::IteratorSpec;
use vstd::utf8::encode_utf8;

verus! {

broadcast use vstd::string::group_string_axioms;

/// What `str::to_lowercase` gives back for a string (full Unicode case mapping).
pub uninterp spec fn lowercase(s: Seq<char>) -> Seq<char>;

/// What `char::is_uppercase` says of a character (Unicode `Uppercase` property).
pub uninterp spec fn uppercase_char(c: char) -> bool;

/// Calls `str::to_lowercase`.  Its result depends on the string alone; the Unicode
/// case tables are not written out here, the result is named `lowercase`.
#[verifier::external_body]
pub(crate) fn to_lowercase(s: &str) -> (res: String)
    ensures
        res@ == lowercase(s@),
{
    s.to_lowercase()
}

/// Calls `char::is_uppercase`.  The result is named `uppercase_char`.
#[verifier::external_body]
pub(crate) fn is_uppercase(c: char) -> (res: bool)
    ensures
        res == uppercase_char(c),
{
    c.is_uppercase()
}

/// Calls `String::push`, which appends one character.
#[verifier::external_body]
pub(crate) fn push_char(s: &mut String, c: char)
    ensures
        final(s)@ == old(s)@.push(c),
{
    s.push(c)
}

/// The number of bytes of the UTF-8 encoding of `c`.
pub(crate) fn utf8_len(c: char) -> (res: usize)
    ensures
        res == encode_utf8(seq![c]).len(),
{
    proof {
        assert(seq![c].drop_first() =~= Seq::<char>::empty());
        assert(encode_utf8(seq![c]) == vstd::utf8::encode_scalar(c as u32) + encode_utf8(Seq::<char>::empty()));
    }
    let v: u32 = c as u32;
    if v < 0x80 {
        1
    } else if v < 0x800 {
        2
    } else if v < 0x10000 {
        3
    } else {
        4
    }
}

/// Calls `String::pop`, which removes the last character.
#[verifier::external_body]
pub(crate) fn pop_char(s: &mut String) -> (res: Option<char>)
    ensures
        old(s)@.len() == 0 ==> res is None && final(s)@ == old(s)@,
        old(s)@.len() > 0 ==> res == Some(old(s)@.last()) && final(s)@ == old(s)@.drop_last(),
{
    s.pop()
}

/// The pieces of `s` between occurrences of `sep`, as `str::split` with a
/// one-character pattern yields them: an empty string gives one empty piece, and
/// every separator starts a new piece.
pub open spec fn split_seq(s: Seq<char>, sep: char) -> Seq<Seq<char>>
    decreases s.len(),
{
    if s.len() == 0 {
        seq![Seq::<char>::empty()]
    } else {
        let prev = split_seq(s.drop_last(), sep);
        if s.last() == sep {
            prev.push(Seq::<char>::empty())
        } else {
            prev.update(prev.len() - 1, prev.last().push(s.last()))
        }
    }
}

pub proof fn lemma_split_nonempty(s: Seq<char>, sep: char)
    ensures
        split_seq(s, sep).len() >= 1,
    decreases s.len(),
{
    if s.len() > 0 {
        lemma_split_nonempty(s.drop_last(), sep);
    }
}

/// The views of a sequence of strings.
pub open spec fn views(v: Seq<String>) -> Seq<Seq<char>> {
    v.map_values(|s: String| s@)
}

/// The characters of `s`, in order.
pub fn chars_of(s: &str) -> (res: Vec<char>)
    ensures
        res@ == s@,
{
    let mut res: Vec<char> = Vec::new();
    let mut it = s.chars();
    loop
        invariant
            res@ + it.remaining() == s@,
            it.obeys_prophetic_iter_laws(),
            it.decrease() is Some,
        ensures
            res@ == s@,
        decreases it.decrease()->0,
    {
        let ghost before = it.remaining();
        match it.next() {
            Some(c) => {
                proof {
                    assert(res@.push(c) + it.remaining() == res@ + before);
                }
                res.push(c);
            },
            None => {
                proof {
                    assert(res@ + it.remaining() == res@);
                }
                break ;
            },
        }
    }
    res
}

/// A string made of the characters `cs[from..to]`.
pub fn string_of(cs: &[char], from: usize, to: usize) -> (res: String)
    requires
        from <= to <= cs@.len(),
    ensures
        res@ == cs@.subrange(from as int, to as int),
{
    let mut res = String::new();
    let mut i = from;
    while i < to
        invariant
            from <= i <= to <= cs@.len(),
            res@ == cs@.subrange(from as int, i as int),
        decreases to - i,
    {
        push_char(&mut res, cs[i]);
        proof {
            assert(cs@.subrange(from as int, i + 1) == cs@.subrange(from as int, i as int).push(cs@[i as int]));
        }
        i = i + 1;
    }
    res
}

/// Splits `s` at every occurrence of `sep` (as `str::split` does).
pub fn split(s: &str, sep: char) -> (res: Vec<String>)
    ensures
        views(res@) == split_seq(s@, sep),
{
    let cs = chars_of(s);
    let mut pieces: Vec<String> = Vec::new();
    let mut cur = String::new();
    let mut i: usize = 0;
    while i < cs.len()
        invariant
            i <= cs@.len(),
            cs@ == s@,
            views(pieces@).push(cur@) == split_seq(cs@.take(i as int), sep),
        decreases cs.len() - i,
    {
        let c = cs[i];
        proof {
            assert(cs@.take(i + 1).drop_last() == cs@.take(i as int));
            lemma_split_nonempty(cs@.take(i as int), sep);
        }
        if c == sep {
            let piece = cur;
            proof {
                assert(views(pieces@.push(piece)) == views(pieces@).push(piece@));
            }
            pieces.push(piece);
            cur = String::new();
            proof {
                assert(views(pieces@).push(cur@) == split_seq(cs@.take(i + 1), sep));
            }
        } else {
            let ghost before = cur@;
            push_char(&mut cur, c);
            proof {
                assert(views(pieces@).push(cur@) == views(pieces@).push(before).update(
                    views(pieces@).len() as int,
                    before.push(c),
                ));
            }
        }
        i = i + 1;
    }
    proof {
        assert(cs@.take(cs@.len() as int) == cs@);
        assert(views(pieces@.push(cur)) == views(pieces@).push(cur@));
    }
    pieces.push(cur);
    pieces
}

/// `n` spaces.
pub open spec fn spaces(n: nat) -> Seq<char> {
    Seq::new(n, |i: int| ' ')
}

/// The lines `ls` joined with a newline between each two.
pub open spec fn join_lines(ls: Seq<Seq<char>>) -> Seq<char>
    decreases ls.len(),
{
    if ls.len() == 0 {
        Seq::empty()
    } else if ls.len() == 1 {
        ls[0]
    } else {
        join_lines(ls.drop_last()) + "\n"@ + ls.last()
    }
}

/// Each line of `text` put behind `n` spaces and a bar.
pub open spec fn indented(text: Seq<char>, n: nat) -> Seq<char> {
    join_lines(split_seq(text, '\n').map_values(|l: Seq<char>| spaces(n) + "| "@ + l))
}

/// Puts each line of `text` behind `n` spaces and a bar.
pub fn indent(text: &str, n: usize) -> (res: String)
    ensures
        res@ == indented(text@, n as nat),
{
    let mut prefix = String::new();
    let mut k: usize = 0;
    while k < n
        invariant
            k <= n,
            prefix@ == spaces(k as nat),
        decreases n - k,
    {
        push_char(&mut prefix, ' ');
        proof {
            assert(prefix@ =~= spaces((k + 1) as nat));
        }
        k = k + 1;
    }
    prefix.append("| ");
    let lines = split(text, '\n');
    let ghost mapped = split_seq(text@, '\n').map_values(|l: Seq<char>| spaces(n as nat) + "| "@ + l);
    let mut res = String::new();
    let mut i: usize = 0;
    while i < lines.len()
        invariant
            i <= lines@.len(),
            views(lines@) == split_seq(text@, '\n'),
            mapped == split_seq(text@, '\n').map_values(|l: Seq<char>| spaces(n as nat) + "| "@ + l),
            prefix@ == spaces(n as nat) + "| "@,
            res@ == join_lines(mapped.take(i as int)),
        decreases lines.len() - i,
    {
        let ghost before = res@;
        proof {
            assert(views(lines@)[i as int] == lines@[i as int]@);
            assert(mapped[i as int] == prefix@ + lines@[i as int]@);
            assert(mapped.take(i + 1).drop_last() =~= mapped.take(i as int));
        }
        if i > 0 {
            res.append("\n");
        }
        res.append(prefix.as_str());
        res.append(lines[i].as_str());
        proof {
            if i == 0 {
                assert(mapped.take(1) =~= seq![mapped[0]]);
            }
            assert(res@ =~= join_lines(mapped.take(i + 1)));
        }
        i = i + 1;
    }
    proof {
        assert(mapped.take(i as int) =~= mapped);
    }
    res
}

} // verus!
