//! Character-level helpers shared by the lexer and the line parser.
use vstd::prelude::*;

verus! {

/// The Unicode `White_Space` property, the set of characters that
/// `char::is_whitespace` reports.
pub open spec fn is_space(c: char) -> bool {
    ||| ('\u{9}' <= c && c <= '\u{d}')
    ||| c == ' '
    ||| c == '\u{85}'
    ||| c == '\u{a0}'
    ||| c == '\u{1680}'
    ||| ('\u{2000}' <= c && c <= '\u{200a}')
    ||| c == '\u{2028}'
    ||| c == '\u{2029}'
    ||| c == '\u{202f}'
    ||| c == '\u{205f}'
    ||| c == '\u{3000}'
}

/// Whether `c` separates words.
pub fn is_whitespace(c: char) -> (r: bool)
    ensures
        r == is_space(c),
{
    ('\u{9}' <= c && c <= '\u{d}') || c == ' ' || c == '\u{85}' || c == '\u{a0}' || c == '\u{1680}'
        || ('\u{2000}' <= c && c <= '\u{200a}') || c == '\u{2028}' || c == '\u{2029}' || c
        == '\u{202f}' || c == '\u{205f}' || c == '\u{3000}'
}

/// The characters of `s`, in order.
pub fn chars_of(s: &str) -> (r: Vec<char>)
    ensures
        r@ == s@,
{
    let mut r: Vec<char> = Vec::new();
    for c in it: s.chars()
        invariant
            it.seq() == s@,
            r@ == it.seq().take(it.index() as int),
    {
        r.push(c);
    }
    r
}

/// Relies on `String::push`, which appends the character to the end of the string.
#[verifier::external_body]
pub(crate) fn push_char(s: &mut String, c: char)
    ensures
        final(s)@ == old(s)@.push(c),
{
    s.push(c)
}

/// The one-element sequence of a non-empty word, or nothing.
pub open spec fn finished_word(cur: Seq<char>) -> Seq<Seq<char>> {
    if cur.len() > 0 {
        seq![cur]
    } else {
        seq![]
    }
}

/// The whitespace-separated words of `s`, the first of them continuing `cur`.
pub open spec fn words_from(cur: Seq<char>, s: Seq<char>) -> Seq<Seq<char>>
    decreases s.len(),
{
    if s.len() == 0 {
        finished_word(cur)
    } else if is_space(s[0]) {
        finished_word(cur) + words_from(seq![], s.drop_first())
    } else {
        words_from(cur.push(s[0]), s.drop_first())
    }
}

/// The whitespace-separated words of `s`, in order: runs of whitespace
/// separate, and no word is empty.
pub open spec fn words_of(s: Seq<char>) -> Seq<Seq<char>> {
    words_from(seq![], s)
}

/// The texts of a sequence of strings.
pub open spec fn texts(v: Seq<String>) -> Seq<Seq<char>> {
    v.map_values(|s: String| s@)
}

/// Splits characters into whitespace-separated words.
pub fn split_words(cs: &Vec<char>) -> (r: Vec<String>)
    ensures
        texts(r@) == words_of(cs@),
{
    let mut out: Vec<String> = Vec::new();
    let mut cur = String::new();
    let mut in_word = false;
    let mut i: usize = 0;
    assert(cs@.skip(0) =~= cs@);
    assert(texts(out@) =~= Seq::<Seq<char>>::empty());
    while i < cs.len()
        invariant
            i <= cs.len(),
            in_word == (cur@.len() > 0),
            texts(out@) + words_from(cur@, cs@.skip(i as int)) == words_of(cs@),
        decreases cs.len() - i,
    {
        let c = cs[i];
        let ghost rest = cs@.skip(i as int);
        assert(rest[0] == c);
        assert(rest.drop_first() =~= cs@.skip(i + 1));
        if is_whitespace(c) {
            if in_word {
                let ghost before = texts(out@);
                let ghost word = cur@;
                out.push(cur);
                cur = String::new();
                in_word = false;
                assert(texts(out@) =~= before + seq![word]);
                assert(before + (seq![word] + words_from(seq![], cs@.skip(i + 1))) =~= before
                    + seq![word] + words_from(seq![], cs@.skip(i + 1)));
            } else {
                assert(finished_word(cur@) + words_from(seq![], cs@.skip(i + 1)) =~= words_from(
                    seq![],
                    cs@.skip(i + 1),
                ));
                assert(cur@ =~= Seq::<char>::empty());
            }
        } else {
            push_char(&mut cur, c);
            in_word = true;
        }
        i = i + 1;
    }
    assert(cs@.skip(i as int) =~= Seq::<char>::empty());
    if in_word {
        let ghost before = texts(out@);
        let ghost word = cur@;
        out.push(cur);
        assert(texts(out@) =~= before + seq![word]);
    } else {
        assert(texts(out@) + finished_word(cur@) =~= texts(out@));
    }
    out
}

/// A line without the carriage return that ends it, if any.
pub open spec fn strip_cr(l: Seq<char>) -> Seq<char> {
    if l.len() > 0 && l.last() == '\r' {
        l.drop_last()
    } else {
        l
    }
}

/// The lines of `s`, the first of them continuing `cur`.
pub open spec fn lines_from(cur: Seq<char>, s: Seq<char>) -> Seq<Seq<char>>
    decreases s.len(),
{
    if s.len() == 0 {
        finished_word(cur)
    } else if s[0] == '\n' {
        seq![strip_cr(cur)] + lines_from(seq![], s.drop_first())
    } else {
        lines_from(cur.push(s[0]), s.drop_first())
    }
}

/// The lines of `s`: a newline, or a carriage return and a newline, ends
/// each line; the last line needs no ending, and an empty input has no line.
pub open spec fn lines_of(s: Seq<char>) -> Seq<Seq<char>> {
    lines_from(seq![], s)
}

} // verus!
