//! The character-level lexer: a state machine that turns a stream of
//! characters into tag, argument and comment tokens.
use vstd::prelude::*;

pub use crate::tag::Tag;
use crate::text::{chars_of, is_whitespace, push_char};

verus! {

/// One lexical token of the input.
#[derive(Clone, Debug, PartialEq)]
pub enum Token {
    Tag(Tag),
    Argument(String),
    Comment(String),
}

/// The mathematical value of a [`Token`].
pub enum TokenView {
    Tag(crate::tag::TagView),
    Argument(Seq<char>),
    Comment(Seq<char>),
}

impl View for Token {
    type V = TokenView;

    open spec fn view(&self) -> TokenView {
        match self {
            Token::Tag(t) => TokenView::Tag(t@),
            Token::Argument(s) => TokenView::Argument(s@),
            Token::Comment(s) => TokenView::Comment(s@),
        }
    }
}

/// Where the lexer stands within the current line.
#[derive(Clone, Copy, Debug, PartialEq, Eq, Structural)]
pub enum State {
    StartOfLine,
    Tag,
    Argument,
    Comment,
    EndOfFile,
}

/// The kind of token that the accumulated text becomes.
#[derive(Clone, Copy, Debug, PartialEq, Eq, Structural)]
pub enum TokenType {
    Tag,
    Argument,
    Comment,
}

/// The token of kind `t` whose text is `s`.
pub open spec fn token_of(t: TokenType, s: Seq<char>) -> TokenView {
    match t {
        TokenType::Tag => TokenView::Tag(crate::tag::tag_of(s)),
        TokenType::Argument => TokenView::Argument(s),
        TokenType::Comment => TokenView::Comment(s),
    }
}

impl Token {
    /// The token of kind `token_type` whose text is `s`.
    pub fn new(token_type: TokenType, s: String) -> (r: Token)
        ensures
            r@ == token_of(token_type, s@),
    {
        match token_type {
            TokenType::Tag => Token::Tag(Tag::from_str(s.as_str())),
            TokenType::Argument => Token::Argument(s),
            TokenType::Comment => Token::Comment(s),
        }
    }
}

/// Whether `c` opens a comment.
pub fn comment_char(c: char) -> (r: bool)
    ensures
        r == (c == '#'),
{
    c == '#'
}

/// The state after a whitespace character that ends a token.
pub open spec fn after_space(c: char) -> State {
    if c == '\n' {
        State::StartOfLine
    } else {
        State::Argument
    }
}

/// One transition of the lexer: from a state and the text accumulated so far,
/// on character `c`, the next state, the next accumulated text and the token
/// emitted, if any.
pub open spec fn step(st: State, buf: Seq<char>, c: char) -> (State, Seq<char>, Option<TokenView>) {
    match st {
        State::StartOfLine => {
            if c == '#' {
                (State::Comment, buf, None)
            } else if crate::text::is_space(c) {
                (State::StartOfLine, buf, None)
            } else {
                (State::Tag, buf.push(c), None)
            }
        },
        State::Tag => {
            if c == '#' {
                (State::Comment, buf, None)
            } else if crate::text::is_space(c) {
                (after_space(c), seq![], Some(token_of(TokenType::Tag, buf)))
            } else {
                (State::Tag, buf.push(c), None)
            }
        },
        State::Argument => {
            if c == '#' {
                (State::Comment, buf, None)
            } else if crate::text::is_space(c) {
                (
                    after_space(c),
                    seq![],
                    if buf.len() > 0 {
                        Some(token_of(TokenType::Argument, buf))
                    } else {
                        None
                    },
                )
            } else {
                (State::Argument, buf.push(c), None)
            }
        },
        State::Comment => {
            if c == '\n' {
                (State::StartOfLine, seq![], Some(token_of(TokenType::Comment, buf)))
            } else {
                (State::Comment, buf.push(c), None)
            }
        },
        State::EndOfFile => (State::EndOfFile, buf, None),
    }
}

/// The tokens of an optional token: none or one.
pub open spec fn opt_seq<A>(o: Option<A>) -> Seq<A> {
    match o {
        Some(a) => seq![a],
        None => seq![],
    }
}

/// The tokens that the lexer emits from state `st` with accumulated text
/// `buf` on the characters `s` and then the end of the input, which acts as
/// a final newline.
pub open spec fn tokens_from(st: State, buf: Seq<char>, s: Seq<char>) -> Seq<TokenView>
    decreases s.len(),
{
    if s.len() == 0 {
        opt_seq(step(st, buf, '\n').2)
    } else {
        let (st2, buf2, t) = step(st, buf, s[0]);
        opt_seq(t) + tokens_from(st2, buf2, s.drop_first())
    }
}

/// The tokens of the whole input `s`.
pub open spec fn tokens_of(s: Seq<char>) -> Seq<TokenView> {
    tokens_from(State::StartOfLine, seq![], s)
}

/// A lexer over an input held in memory, yielding its tokens one at a time.
pub struct TokenIterator {
    source: Vec<char>,
    pos: usize,
    state: State,
    buffer: String,
}

impl TokenIterator {
    /// The read position stays within the input, and a line starts with
    /// nothing accumulated.
    pub closed spec fn wf(&self) -> bool {
        &&& self.pos <= self.source.len()
        &&& self.state == State::StartOfLine ==> self.buffer@.len() == 0
    }

    /// The state of the lexer.
    pub closed spec fn lexer_state(&self) -> State {
        self.state
    }

    /// The text accumulated for the token being read.
    pub closed spec fn buffered(&self) -> Seq<char> {
        self.buffer@
    }

    /// The tokens that are still to come, in order.
    pub closed spec fn pending(&self) -> Seq<TokenView> {
        if self.state == State::EndOfFile {
            seq![]
        } else {
            tokens_from(self.state, self.buffer@, self.source@.skip(self.pos as int))
        }
    }

    /// Feeds one character to the state machine; returns the token it
    /// completes, if any.
    pub fn push_char(&mut self, c: char) -> (r: Option<Token>)
        ensures
            (final(self).lexer_state(), final(self).buffered(), opt_view(r)) == step(
                old(self).lexer_state(),
                old(self).buffered(),
                c,
            ),
            final(self).source_rest() == old(self).source_rest(),
            final(self).position() == old(self).position(),
            old(self).wf() ==> final(self).wf(),
    {
        match self.state {
            State::StartOfLine => {
                if comment_char(c) {
                    self.state = State::Comment;
                } else if !is_whitespace(c) {
                    push_char(&mut self.buffer, c);
                    self.state = State::Tag;
                }
                None
            },
            State::Tag => {
                if comment_char(c) {
                    self.state = State::Comment;
                    None
                } else if is_whitespace(c) {
                    self.state = if c == '\n' {
                        State::StartOfLine
                    } else {
                        State::Argument
                    };
                    Some(self.take_token(TokenType::Tag))
                } else {
                    push_char(&mut self.buffer, c);
                    None
                }
            },
            State::Argument => {
                if comment_char(c) {
                    self.state = State::Comment;
                    None
                } else if is_whitespace(c) {
                    self.state = if c == '\n' {
                        State::StartOfLine
                    } else {
                        State::Argument
                    };
                    if self.buffer.as_str().unicode_len() > 0 {
                        Some(self.take_token(TokenType::Argument))
                    } else {
                        None
                    }
                } else {
                    push_char(&mut self.buffer, c);
                    None
                }
            },
            State::Comment => {
                if c == '\n' {
                    self.state = State::StartOfLine;
                    Some(self.take_token(TokenType::Comment))
                } else {
                    push_char(&mut self.buffer, c);
                    None
                }
            },
            State::EndOfFile => None,
        }
    }

    /// The input held and how much of it has been read.
    pub closed spec fn position(&self) -> (Seq<char>, nat) {
        (self.source@, self.pos as nat)
    }

    /// The characters not yet read.
    pub closed spec fn source_rest(&self) -> Seq<char> {
        self.source@.skip(self.pos as int)
    }

    /// Empties the buffer into a token of kind `t`.
    fn take_token(&mut self, t: TokenType) -> (r: Token)
        ensures
            r@ == token_of(t, old(self).buffer@),
            final(self).buffer@ == Seq::<char>::empty(),
            final(self).state == old(self).state,
            final(self).source == old(self).source,
            final(self).pos == old(self).pos,
    {
        let mut text = String::new();
        std::mem::swap(&mut self.buffer, &mut text);
        Token::new(t, text)
    }

    /// The next token, or `None` once the input is exhausted. The end of the
    /// input ends the last line as a newline would, exactly once.
    pub fn next(&mut self) -> (r: Option<Token>)
        requires
            old(self).wf(),
        ensures
            final(self).wf(),
            old(self).pending().len() > 0 ==> {
                &&& r is Some
                &&& r->0@ == old(self).pending()[0]
                &&& final(self).pending() == old(self).pending().drop_first()
            },
            old(self).pending().len() == 0 ==> r is None && final(self).pending().len() == 0,
    {
        if self.state == State::EndOfFile {
            return None;
        }
        while self.pos < self.source.len()
            invariant
                self.pos <= self.source.len(),
                self.state != State::EndOfFile,
                self.pending() == old(self).pending(),
            decreases self.source.len() - self.pos,
        {
            let c = self.source[self.pos];
            proof {
                assert(self.source@.skip(self.pos as int).drop_first() =~= self.source@.skip(self.pos + 1));
            }
            self.pos = self.pos + 1;
            let t = self.push_char(c);
            if t.is_some() {
                return t;
            }
        }
        self.finish()
    }

    /// Ends the input: completes the token being read, as a final newline
    /// would, and returns it. After this no token comes any more.
    pub fn finish(&mut self) -> (r: Option<Token>)
        ensures
            opt_view(r) == step(old(self).lexer_state(), old(self).buffered(), '\n').2,
            final(self).lexer_state() == State::EndOfFile,
            final(self).pending().len() == 0,
            final(self).source_rest() == old(self).source_rest(),
            final(self).position() == old(self).position(),
            old(self).wf() ==> final(self).wf(),
    {
        let t = self.push_char('\n');
        self.state = State::EndOfFile;
        t
    }

    /// A lexer with no input of its own, to be fed with [`Self::push_char`]
    /// and ended with [`Self::finish`].
    pub fn new() -> (r: TokenIterator)
        ensures
            r.wf(),
            r.lexer_state() == State::StartOfLine,
            r.buffered().len() == 0,
            r.pending() == tokens_of(seq![]),
    {
        let r = TokenIterator {
            source: Vec::new(),
            pos: 0,
            state: State::StartOfLine,
            buffer: String::new(),
        };
        assert(r.source@.skip(0) =~= Seq::<char>::empty());
        r
    }
}

/// The value of an optional token.
pub open spec fn opt_view(t: Option<Token>) -> Option<TokenView> {
    match t {
        Some(t) => Some(t@),
        None => None,
    }
}

/// A lexer over the characters of `text`.
pub fn read_obj(text: &str) -> (r: TokenIterator)
    ensures
        r.wf(),
        r.pending() == tokens_of(text@),
{
    let source = chars_of(text);
    let r = TokenIterator { source, pos: 0, state: State::StartOfLine, buffer: String::new() };
    assert(r.source@.skip(0) =~= text@);
    r
}

/// A word of a record: not empty, without whitespace and without `#`.
pub open spec fn is_word(w: Seq<char>) -> bool {
    &&& w.len() > 0
    &&& forall|i: int| 0 <= i < w.len() ==> !crate::text::is_space(#[trigger] w[i]) && w[i] != '#'
}

/// A run of whitespace that separates two words of one line: not empty, and
/// without a newline.
pub open spec fn is_gap(g: Seq<char>) -> bool {
    &&& g.len() > 0
    &&& forall|i: int| 0 <= i < g.len() ==> crate::text::is_space(#[trigger] g[i]) && g[i] != '\n'
}

/// The words `args`, each preceded by the gap of the same position.
pub open spec fn spaced(args: Seq<Seq<char>>, gaps: Seq<Seq<char>>) -> Seq<char>
    decreases args.len(),
{
    if args.len() == 0 || gaps.len() == 0 {
        seq![]
    } else {
        gaps[0] + args[0] + spaced(args.drop_first(), gaps.drop_first())
    }
}

/// The argument tokens of the words `args`.
pub open spec fn argument_tokens(args: Seq<Seq<char>>) -> Seq<TokenView> {
    args.map_values(|a: Seq<char>| TokenView::Argument(a))
}

/// Characters that continue a word add to the accumulated text and emit nothing.
proof fn lemma_word_chars(st: State, buf: Seq<char>, w: Seq<char>, rest: Seq<char>)
    requires
        st == State::Tag || st == State::Argument,
        forall|i: int| 0 <= i < w.len() ==> !crate::text::is_space(#[trigger] w[i]) && w[i] != '#',
    ensures
        tokens_from(st, buf, w + rest) == tokens_from(st, buf + w, rest),
    decreases w.len(),
{
    if w.len() == 0 {
        assert(w + rest =~= rest);
        assert(buf + w =~= buf);
    } else {
        let w2 = w.drop_first();
        assert((w + rest).drop_first() =~= w2 + rest);
        assert((w + rest)[0] == w[0]);
        assert forall|i: int| 0 <= i < w2.len() implies !crate::text::is_space(#[trigger] w2[i])
            && w2[i] != '#' by {
            assert(w2[i] == w[i + 1]);
        }
        lemma_word_chars(st, buf.push(w[0]), w2, rest);
        assert(buf.push(w[0]) + w2 =~= buf + w);
    }
}

/// Whitespace after a completed argument emits nothing.
proof fn lemma_gap_chars(g: Seq<char>, rest: Seq<char>)
    requires
        forall|i: int| 0 <= i < g.len() ==> crate::text::is_space(#[trigger] g[i]) && g[i] != '\n',
    ensures
        tokens_from(State::Argument, seq![], g + rest) == tokens_from(State::Argument, seq![], rest),
    decreases g.len(),
{
    if g.len() == 0 {
        assert(g + rest =~= rest);
    } else {
        let g2 = g.drop_first();
        assert((g + rest).drop_first() =~= g2 + rest);
        assert((g + rest)[0] == g[0]);
        assert forall|i: int| 0 <= i < g2.len() implies crate::text::is_space(#[trigger] g2[i])
            && g2[i] != '\n' by {
            assert(g2[i] == g[i + 1]);
        }
        lemma_gap_chars(g2, rest);
    }
}

/// From a tag or an argument being read, the rest of a line made of spaced
/// words yields the pending token and then one argument token per word.
proof fn lemma_spaced_words(st: State, buf: Seq<char>, args: Seq<Seq<char>>, gaps: Seq<Seq<char>>)
    requires
        st == State::Tag || st == State::Argument,
        buf.len() > 0,
        gaps.len() == args.len(),
        forall|i: int| 0 <= i < args.len() ==> is_word(#[trigger] args[i]),
        forall|i: int| 0 <= i < gaps.len() ==> is_gap(#[trigger] gaps[i]),
    ensures
        tokens_from(st, buf, spaced(args, gaps) + seq!['\n']) == seq![
            token_of(if st == State::Tag { TokenType::Tag } else { TokenType::Argument }, buf),
        ] + argument_tokens(args),
    decreases args.len(),
{
    let kind = if st == State::Tag {
        TokenType::Tag
    } else {
        TokenType::Argument
    };
    if args.len() == 0 {
        assert(spaced(args, gaps) + seq!['\n'] =~= seq!['\n']);
        assert(seq!['\n'].drop_first() =~= Seq::<char>::empty());
        assert(argument_tokens(args) =~= Seq::<TokenView>::empty());
        assert(tokens_from(State::StartOfLine, seq![], seq![]) =~= Seq::<TokenView>::empty());
        assert(seq![token_of(kind, buf)] + argument_tokens(args) =~= seq![token_of(kind, buf)]);
    } else {
        let g = gaps[0];
        let a = args[0];
        let args2 = args.drop_first();
        let gaps2 = gaps.drop_first();
        let tail = a + (spaced(args2, gaps2) + seq!['\n']);
        let s = spaced(args, gaps) + seq!['\n'];
        assert(s =~= g + tail);
        assert(is_gap(g));
        assert(is_word(a));
        assert(s[0] == g[0]);
        assert(s.drop_first() =~= g.drop_first() + tail);
        let g2 = g.drop_first();
        assert forall|i: int| 0 <= i < g2.len() implies crate::text::is_space(#[trigger] g2[i])
            && g2[i] != '\n' by {
            assert(g2[i] == g[i + 1]);
        }
        lemma_gap_chars(g2, tail);
        lemma_word_chars(State::Argument, seq![], a, spaced(args2, gaps2) + seq!['\n']);
        assert(Seq::<char>::empty() + a =~= a);
        assert forall|i: int| 0 <= i < args2.len() implies is_word(#[trigger] args2[i]) by {
            assert(args2[i] == args[i + 1]);
        }
        assert forall|i: int| 0 <= i < gaps2.len() implies is_gap(#[trigger] gaps2[i]) by {
            assert(gaps2[i] == gaps[i + 1]);
        }
        lemma_spaced_words(State::Argument, a, args2, gaps2);
        assert(argument_tokens(args) =~= seq![TokenView::Argument(a)] + argument_tokens(args2));
        assert(seq![token_of(kind, buf)] + argument_tokens(args) =~= seq![token_of(kind, buf)] + (
        seq![TokenView::Argument(a)] + argument_tokens(args2)));
    }
}

/// A record line, a tag followed by arguments that runs of whitespace
/// separate, lexes to the tag token and then one argument token per
/// argument, in order, whatever the length of each run.
pub proof fn lemma_record_line_tokens(tag: Seq<char>, args: Seq<Seq<char>>, gaps: Seq<Seq<char>>)
    requires
        is_word(tag),
        gaps.len() == args.len(),
        forall|i: int| 0 <= i < args.len() ==> is_word(#[trigger] args[i]),
        forall|i: int| 0 <= i < gaps.len() ==> is_gap(#[trigger] gaps[i]),
    ensures
        tokens_of(tag + spaced(args, gaps) + seq!['\n']) == seq![
            TokenView::Tag(crate::tag::tag_of(tag)),
        ] + argument_tokens(args),
{
    let rest = spaced(args, gaps) + seq!['\n'];
    let s = tag + spaced(args, gaps) + seq!['\n'];
    assert(s =~= tag + rest);
    assert(s[0] == tag[0]);
    assert(s.drop_first() =~= tag.drop_first() + rest);
    let t2 = tag.drop_first();
    assert forall|i: int| 0 <= i < t2.len() implies !crate::text::is_space(#[trigger] t2[i])
        && t2[i] != '#' by {
        assert(t2[i] == tag[i + 1]);
    }
    lemma_word_chars(State::Tag, seq![tag[0]], t2, rest);
    assert(seq![tag[0]] + t2 =~= tag);
    assert(seq![tag[0]] =~= Seq::<char>::empty().push(tag[0]));
    lemma_spaced_words(State::Tag, tag, args, gaps);
}

/// A tag and two arguments, separated by single spaces and ended by a
/// newline, lex to exactly the tag token and the two argument tokens.
pub proof fn lemma_tag_and_two_arguments(tag: Seq<char>, arg1: Seq<char>, arg2: Seq<char>)
    requires
        is_word(tag),
        is_word(arg1),
        is_word(arg2),
    ensures
        tokens_of(tag + seq![' '] + arg1 + seq![' '] + arg2 + seq!['\n']) == seq![
            TokenView::Tag(crate::tag::tag_of(tag)),
            TokenView::Argument(arg1),
            TokenView::Argument(arg2),
        ],
{
    let args = seq![arg1, arg2];
    let gaps = seq![seq![' '], seq![' ']];
    assert(is_gap(seq![' ']));
    assert(spaced(args.drop_first().drop_first(), gaps.drop_first().drop_first()) =~= Seq::<char>::empty());
    assert(spaced(args.drop_first(), gaps.drop_first()) =~= seq![' '] + arg2);
    assert(spaced(args, gaps) =~= seq![' '] + arg1 + seq![' '] + arg2);
    assert(tag + seq![' '] + arg1 + seq![' '] + arg2 + seq!['\n'] =~= tag + spaced(args, gaps) + seq!['\n']);
    lemma_record_line_tokens(tag, args, gaps);
    assert(argument_tokens(args) =~= seq![TokenView::Argument(arg1), TokenView::Argument(arg2)]);
}

/// Lines that differ only in the length of the whitespace runs between their
/// words lex to the same tokens.
pub proof fn lemma_whitespace_runs(
    tag: Seq<char>,
    args: Seq<Seq<char>>,
    gaps1: Seq<Seq<char>>,
    gaps2: Seq<Seq<char>>,
)
    requires
        is_word(tag),
        gaps1.len() == args.len(),
        gaps2.len() == args.len(),
        forall|i: int| 0 <= i < args.len() ==> is_word(#[trigger] args[i]),
        forall|i: int| 0 <= i < args.len() ==> is_gap(#[trigger] gaps1[i]),
        forall|i: int| 0 <= i < args.len() ==> is_gap(#[trigger] gaps2[i]),
    ensures
        tokens_of(tag + spaced(args, gaps1) + seq!['\n']) == tokens_of(
            tag + spaced(args, gaps2) + seq!['\n'],
        ),
{
    lemma_record_line_tokens(tag, args, gaps1);
    lemma_record_line_tokens(tag, args, gaps2);
}

/// The tokens of one line whose words are `ws`: the first word as a tag,
/// the others as arguments; nothing for a blank line.
pub open spec fn line_tokens(ws: Seq<Seq<char>>) -> Seq<TokenView> {
    if ws.len() == 0 {
        seq![]
    } else {
        seq![TokenView::Tag(crate::tag::tag_of(ws[0]))] + argument_tokens(ws.drop_first())
    }
}

/// The lines `ls`, each ended by a newline.
pub open spec fn joined_lines(ls: Seq<Seq<char>>) -> Seq<char>
    decreases ls.len(),
{
    if ls.len() == 0 {
        seq![]
    } else {
        ls[0] + seq!['\n'] + joined_lines(ls.drop_first())
    }
}

/// The tokens of the lines `ls`, line after line.
pub open spec fn lines_tokens(ls: Seq<Seq<char>>) -> Seq<TokenView>
    decreases ls.len(),
{
    if ls.len() == 0 {
        seq![]
    } else {
        line_tokens(crate::text::words_of(ls[0])) + lines_tokens(ls.drop_first())
    }
}

/// A line of text: no newline and no `#`.
pub open spec fn is_plain_line(t: Seq<char>) -> bool {
    forall|i: int| 0 <= i < t.len() ==> #[trigger] t[i] != '\n' && t[i] != '#'
}

proof fn lemma_argument_tokens_concat(a: Seq<Seq<char>>, b: Seq<Seq<char>>)
    ensures
        argument_tokens(a + b) == argument_tokens(a) + argument_tokens(b),
{
    assert(argument_tokens(a + b) =~= argument_tokens(a) + argument_tokens(b));
}

/// The lexer reads the rest `t` of a plain line as the word splitter does:
/// from the start of a line or inside the first word it yields the line's
/// tokens; after the first word, argument tokens.
proof fn lemma_plain_line(st: State, buf: Seq<char>, t: Seq<char>, rest: Seq<char>)
    requires
        is_plain_line(t),
        st == State::StartOfLine ==> buf.len() == 0,
        st == State::Tag ==> buf.len() > 0,
        st == State::StartOfLine || st == State::Tag || st == State::Argument,
    ensures
        tokens_from(st, buf, t + seq!['\n'] + rest) == (if st == State::Argument {
            argument_tokens(crate::text::words_from(buf, t))
        } else {
            line_tokens(crate::text::words_from(buf, t))
        }) + tokens_from(State::StartOfLine, seq![], rest),
    decreases t.len(),
{
    let r = tokens_from(State::StartOfLine, seq![], rest);
    let s = t + seq!['\n'] + rest;
    let none = Seq::<Seq<char>>::empty();
    assert(crate::text::is_space('\n'));
    if t.len() == 0 {
        assert(s =~= seq!['\n'] + rest);
        assert(s[0] == '\n');
        assert(s.drop_first() =~= rest);
        assert(crate::text::words_from(buf, t) == crate::text::finished_word(buf));
        let next = step(st, buf, '\n');
        assert(next.0 == State::StartOfLine && next.1 == Seq::<char>::empty());
        assert(tokens_from(st, buf, s) == opt_seq(next.2) + r);
        if st == State::StartOfLine {
            assert(line_tokens(none) =~= Seq::<TokenView>::empty());
            assert(Seq::<TokenView>::empty() + r =~= r);
        } else if st == State::Tag {
            assert(seq![buf].drop_first() =~= none);
            assert(argument_tokens(none) =~= Seq::<TokenView>::empty());
            assert(line_tokens(seq![buf]) =~= seq![TokenView::Tag(crate::tag::tag_of(buf))]);
        } else {
            assert(argument_tokens(none) =~= Seq::<TokenView>::empty());
            assert(argument_tokens(seq![buf]) =~= seq![TokenView::Argument(buf)]);
            assert(Seq::<TokenView>::empty() + r =~= r);
        }
    } else {
        let c = t[0];
        let t2 = t.drop_first();
        assert(s[0] == c);
        assert(s.drop_first() =~= t2 + seq!['\n'] + rest);
        let next = step(st, buf, c);
        let later = tokens_from(next.0, next.1, t2 + seq!['\n'] + rest);
        assert(tokens_from(st, buf, s) == opt_seq(next.2) + later);
        assert(Seq::<TokenView>::empty() + later =~= later);
        assert(is_plain_line(t2)) by {
            assert forall|i: int| 0 <= i < t2.len() implies #[trigger] t2[i] != '\n' && t2[i] != '#' by {
                assert(t2[i] == t[i + 1]);
            }
        }
        assert(t[0] != '\n' && t[0] != '#');
        if crate::text::is_space(c) {
            let w2 = crate::text::words_from(seq![], t2);
            assert(crate::text::words_from(buf, t) == crate::text::finished_word(buf) + w2);
            if st == State::StartOfLine {
                lemma_plain_line(State::StartOfLine, seq![], t2, rest);
                assert(buf =~= Seq::<char>::empty());
                assert(crate::text::finished_word(buf) + w2 =~= w2);
            } else if st == State::Tag {
                lemma_plain_line(State::Argument, seq![], t2, rest);
                assert((seq![buf] + w2).drop_first() =~= w2);
                assert((seq![buf] + w2)[0] == buf);
                let head = seq![TokenView::Tag(crate::tag::tag_of(buf))];
                assert(head + (argument_tokens(w2) + r) =~= (head + argument_tokens(w2)) + r);
            } else {
                lemma_plain_line(State::Argument, seq![], t2, rest);
                lemma_argument_tokens_concat(crate::text::finished_word(buf), w2);
                let fw = argument_tokens(crate::text::finished_word(buf));
                if buf.len() > 0 {
                    assert(fw =~= seq![TokenView::Argument(buf)]);
                } else {
                    assert(fw =~= Seq::<TokenView>::empty());
                }
                assert(fw + (argument_tokens(w2) + r) =~= (fw + argument_tokens(w2)) + r);
            }
        } else {
            if st == State::StartOfLine {
                lemma_plain_line(State::Tag, buf.push(c), t2, rest);
            } else {
                lemma_plain_line(st, buf.push(c), t2, rest);
            }
        }
    }
}

/// A missing final newline changes no token: the end of the input ends the
/// last line as a newline would.
pub proof fn lemma_final_newline(st: State, buf: Seq<char>, s: Seq<char>)
    ensures
        tokens_from(st, buf, s + seq!['\n']) == tokens_from(st, buf, s),
    decreases s.len(),
{
    assert(crate::text::is_space('\n'));
    if s.len() == 0 {
        let nl = s + seq!['\n'];
        assert(nl =~= seq!['\n']);
        assert(nl.drop_first() =~= Seq::<char>::empty());
        let next = step(st, buf, '\n');
        assert(tokens_from(next.0, next.1, Seq::<char>::empty()) =~= Seq::<TokenView>::empty());
        assert(opt_seq(next.2) + Seq::<TokenView>::empty() =~= opt_seq(next.2));
    } else {
        assert((s + seq!['\n'])[0] == s[0]);
        assert((s + seq!['\n']).drop_first() =~= s.drop_first() + seq!['\n']);
        let next = step(st, buf, s[0]);
        lemma_final_newline(next.0, next.1, s.drop_first());
    }
}

/// An input of plain lines, without `#`, lexes line after line to the words
/// of each line: the first word as a tag and the others as arguments, with
/// runs of whitespace collapsed and no empty argument; a blank line yields
/// nothing.
pub proof fn lemma_plain_lines_tokens(ls: Seq<Seq<char>>)
    requires
        forall|i: int| 0 <= i < ls.len() ==> is_plain_line(#[trigger] ls[i]),
    ensures
        tokens_of(joined_lines(ls)) == lines_tokens(ls),
    decreases ls.len(),
{
    if ls.len() == 0 {
        assert(tokens_of(Seq::<char>::empty()) =~= Seq::<TokenView>::empty());
    } else {
        let rest = ls.drop_first();
        assert forall|i: int| 0 <= i < rest.len() implies is_plain_line(#[trigger] rest[i]) by {
            assert(rest[i] == ls[i + 1]);
        }
        lemma_plain_lines_tokens(rest);
        assert(is_plain_line(ls[0]));
        lemma_plain_line(State::StartOfLine, seq![], ls[0], joined_lines(rest));
    }
}

} // verus!
