use vstd::prelude::*;

use crate::text::push_char;

verus! {

/// One token of a command line.
#[derive(Debug, PartialEq, Eq)]
pub enum Token {
    Literal(String),
    Complex(String),
    Pipe,
    Write(usize),
    Append(usize),
}

/// The mathematical value of a token: its text as a sequence of characters.
pub enum Lexeme {
    Literal(Seq<char>),
    Complex(Seq<char>),
    Pipe,
    Write(usize),
    Append(usize),
}

impl View for Token {
    type V = Lexeme;

    open spec fn view(&self) -> Lexeme {
        match self {
            Token::Literal(s) => Lexeme::Literal(s@),
            Token::Complex(s) => Lexeme::Complex(s@),
            Token::Pipe => Lexeme::Pipe,
            Token::Write(fd) => Lexeme::Write(*fd),
            Token::Append(fd) => Lexeme::Append(*fd),
        }
    }
}

pub open spec fn lexemes(v: Seq<Token>) -> Seq<Lexeme> {
    v.map_values(|t: Token| t@)
}

/// The quoting regime the lexer is in.
#[derive(Clone, Copy, Debug, PartialEq, Eq, Structural)]
pub enum Quote {
    Unquoted,
    Single,
    Double,
}

pub open spec fn is_space(c: char) -> bool {
    c == ' ' || c == '\t' || c == '\n' || c == '\x0C' || c == '\r'
}

pub open spec fn is_digit(c: char) -> bool {
    '0' <= c && c <= '9'
}

pub open spec fn all_digits(s: Seq<char>) -> bool {
    forall|k: int| 0 <= k < s.len() ==> is_digit(#[trigger] s[k])
}

pub open spec fn digit_value(c: char) -> nat {
    ((c as u32) - ('0' as u32)) as nat
}

/// The number that a run of decimal digits denotes.
pub open spec fn digits_value(s: Seq<char>) -> nat
    decreases s.len(),
{
    if s.len() == 0 {
        0
    } else {
        digits_value(s.drop_last()) * 10 + digit_value(s.last())
    }
}

/// The value of a non-empty run of decimal digits, when it fits in `usize`.
pub open spec fn decimal(s: Seq<char>) -> Option<usize> {
    if s.len() > 0 && all_digits(s) && digits_value(s) <= usize::MAX {
        Some(digits_value(s) as usize)
    } else {
        None
    }
}

/// A character that a backslash escapes inside double quotes.
pub open spec fn escapable_in_double(c: char) -> bool {
    c == '"' || c == '\\' || c == '$' || c == '`' || c == '\n'
}

/// The lexer's state between two characters: the quoting regime, the word
/// collected so far, the tokens emitted so far, and whether the input ended
/// right after an unquoted backslash.
pub struct LexState {
    pub mode: Quote,
    pub word: Seq<char>,
    pub out: Seq<Lexeme>,
    pub dangling: bool,
}

pub open spec fn initial_state() -> LexState {
    LexState { mode: Quote::Unquoted, word: Seq::empty(), out: Seq::empty(), dangling: false }
}

/// Emits the pending word as a literal, unless it is empty.
pub open spec fn flush(word: Seq<char>, out: Seq<Lexeme>) -> Seq<Lexeme> {
    if word.len() == 0 {
        out
    } else {
        out.push(Lexeme::Literal(word))
    }
}

/// The redirection operator `>` or `>>` at position `i`, outside quotes.
pub open spec fn redirect_step(s: Seq<char>, i: int, st: LexState) -> (int, LexState) {
    let fd: usize = match decimal(st.word) {
        Some(n) => n,
        None => 1,
    };
    let out = match decimal(st.word) {
        Some(n) => st.out,
        None => flush(st.word, st.out),
    };
    if i + 1 < s.len() && s[i + 1] == '>' {
        (i + 2, LexState { word: Seq::empty(), out: out.push(Lexeme::Append(fd)), ..st })
    } else {
        (i + 1, LexState { word: Seq::empty(), out: out.push(Lexeme::Write(fd)), ..st })
    }
}

/// One transition of the lexer on the character at position `i`: the position
/// of the next character to read, and the new state.
pub open spec fn step(s: Seq<char>, i: int, st: LexState) -> (int, LexState) {
    let c = s[i];
    let more = i + 1 < s.len();
    match st.mode {
        Quote::Single => {
            if c == '\'' {
                (i + 1, LexState { mode: Quote::Unquoted, ..st })
            } else {
                (i + 1, LexState { word: st.word.push(c), ..st })
            }
        },
        Quote::Double => {
            if c == '"' {
                (i + 1, LexState { mode: Quote::Unquoted, ..st })
            } else if c == '\\' && more && escapable_in_double(s[i + 1]) {
                (i + 2, LexState { word: st.word.push(s[i + 1]), ..st })
            } else {
                (i + 1, LexState { word: st.word.push(c), ..st })
            }
        },
        Quote::Unquoted => {
            if c == '\'' {
                (i + 1, LexState { mode: Quote::Single, ..st })
            } else if c == '"' {
                (i + 1, LexState { mode: Quote::Double, ..st })
            } else if c == '|' {
                (
                    i + 1,
                    LexState {
                        word: Seq::empty(),
                        out: flush(st.word, st.out).push(Lexeme::Pipe),
                        ..st
                    },
                )
            } else if c == '\\' {
                if more {
                    (i + 2, LexState { word: st.word.push(s[i + 1]), ..st })
                } else {
                    (i + 1, LexState { dangling: true, ..st })
                }
            } else if c == '>' {
                redirect_step(s, i, st)
            } else if is_space(c) {
                (i + 1, LexState { word: Seq::empty(), out: flush(st.word, st.out), ..st })
            } else {
                (i + 1, LexState { word: st.word.push(c), ..st })
            }
        },
    }
}

/// Runs the lexer from position `i` to the end of `s`, then emits the pending word.
pub open spec fn run(s: Seq<char>, i: int, st: LexState) -> LexState
    decreases s.len() - i,
{
    if 0 <= i < s.len() {
        let (j, next) = step(s, i, st);
        if i < j <= s.len() {
            run(s, j, next)
        } else {
            next
        }
    } else {
        LexState { word: Seq::empty(), out: flush(st.word, st.out), ..st }
    }
}

/// The lexer's final state on a whole line.
pub open spec fn lex(s: Seq<char>) -> LexState {
    run(s, 0, initial_state())
}


fn is_space_char(c: char) -> (r: bool)
    ensures
        r == is_space(c),
{
    c == ' ' || c == '\t' || c == '\n' || c == '\x0C' || c == '\r'
}

fn is_escapable_in_double(c: char) -> (r: bool)
    ensures
        r == escapable_in_double(c),
{
    c == '"' || c == '\\' || c == '$' || c == '`' || c == '\n'
}

proof fn lemma_digits_value_grows(s: Seq<char>, k: int)
    requires
        0 <= k <= s.len(),
    ensures
        digits_value(s.take(k)) <= digits_value(s),
    decreases s.len() - k,
{
    if k < s.len() {
        lemma_digits_value_grows(s, k + 1);
        assert(s.take(k + 1).drop_last() =~= s.take(k));
    } else {
        assert(s.take(k) =~= s);
    }
}

pub struct Lexer {
    buffer: String,
}

impl View for Lexer {
    type V = Seq<char>;

    closed spec fn view(&self) -> Seq<char> {
        self.buffer@
    }
}

impl Lexer {
    pub fn new() -> (r: Lexer)
        ensures
            r@ == Seq::<char>::empty(),
    {
        Lexer { buffer: String::new() }
    }

    /// Appends input to what the lexer has buffered.
    pub fn push(&mut self, input: &str)
        ensures
            final(self)@ == old(self)@ + input@,
    {
        self.buffer.append(input);
    }

    /// Whether the buffered input can be tokenized: it does not end with an
    /// unquoted backslash that has nothing left to escape.
    pub fn is_complete(&self) -> (r: bool)
        ensures
            r == !lex(self@).dangling,
    {
        let (_tokens, dangling) = Self::scan(self.buffer.as_str());
        !dangling
    }

    /// Splits the buffered input into tokens and clears the buffer.
    pub fn tokenize(&mut self) -> (r: Vec<Token>)
        requires
            !lex(old(self)@).dangling,
        ensures
            lexemes(r@) == lex(old(self)@).out,
            final(self)@ == Seq::<char>::empty(),
    {
        let (tokens, _dangling) = Self::scan(self.buffer.as_str());
        self.buffer = String::new();
        tokens
    }

    /// Runs the lexer over the whole of `line`.
    fn scan(line: &str) -> (r: (Vec<Token>, bool))
        ensures
            lexemes(r.0@) == lex(line@).out,
            r.1 == lex(line@).dangling,
    {
        let ghost s = line@;
        let n = line.unicode_len();
        let mut tk = String::new();
        let mut tokens: Vec<Token> = Vec::new();
        let mut quote = Quote::Unquoted;
        let mut dangling = false;
        let mut i: usize = 0;
        assert(lexemes(tokens@) =~= Seq::<Lexeme>::empty());
        while i < n
            invariant
                n == s.len(),
                s == line@,
                0 <= i <= n,
                run(s, i as int, LexState { mode: quote, word: tk@, out: lexemes(tokens@), dangling })
                    == lex(s),
            decreases n - i,
        {
            let ghost st = LexState { mode: quote, word: tk@, out: lexemes(tokens@), dangling };
            let ghost old_tokens = tokens@;
            let c = line.get_char(i);
            let more = i + 1 < n;
            let mut j: usize = i + 1;
            match quote {
                Quote::Single => {
                    if c == '\'' {
                        quote = Quote::Unquoted;
                    } else {
                        push_char(&mut tk, c);
                    }
                },
                Quote::Double => {
                    if c == '"' {
                        quote = Quote::Unquoted;
                    } else if c == '\\' && more && is_escapable_in_double(line.get_char(i + 1)) {
                        push_char(&mut tk, line.get_char(i + 1));
                        j = i + 2;
                    } else {
                        push_char(&mut tk, c);
                    }
                },
                Quote::Unquoted => {
                    if c == '\'' {
                        quote = Quote::Single;
                    } else if c == '"' {
                        quote = Quote::Double;
                    } else if c == '|' {
                        Self::flush_token(&mut tk, &mut tokens);
                        tokens.push(Token::Pipe);
                        assert(lexemes(tokens@) =~= flush(st.word, st.out).push(Lexeme::Pipe));
                    } else if c == '\\' {
                        if more {
                            push_char(&mut tk, line.get_char(i + 1));
                            j = i + 2;
                        } else {
                            dangling = true;
                        }
                    } else if c == '>' {
                        let fd = match Self::take_io_number(&mut tk) {
                            Some(n) => n,
                            None => 1,
                        };
                        Self::flush_token(&mut tk, &mut tokens);
                        let ghost before_op = tokens@;
                        if more && line.get_char(i + 1) == '>' {
                            tokens.push(Token::Append(fd));
                            j = i + 2;
                        } else {
                            tokens.push(Token::Write(fd));
                        }
                        assert(lexemes(tokens@) =~= lexemes(before_op).push(tokens@.last()@));
                    } else if is_space_char(c) {
                        Self::flush_token(&mut tk, &mut tokens);
                    } else {
                        push_char(&mut tk, c);
                    }
                },
            }
            assert(step(s, i as int, st) == (
                j as int,
                LexState { mode: quote, word: tk@, out: lexemes(tokens@), dangling },
            ));
            i = j;
        }
        Self::flush_token(&mut tk, &mut tokens);
        (tokens, dangling)
    }

    /// Emits the pending word as a literal, unless it is empty, and clears it.
    fn flush_token(tk: &mut String, tokens: &mut Vec<Token>)
        ensures
            final(tk)@ == Seq::<char>::empty(),
            lexemes(final(tokens)@) == flush(old(tk)@, lexemes(old(tokens)@)),
    {
        if !tk.as_str().is_empty() {
            let word = tk.clone();
            tokens.push(Token::Literal(word));
            assert(lexemes(tokens@) =~= lexemes(old(tokens)@).push(Lexeme::Literal(old(tk)@)));
        }
        *tk = String::new();
    }

    /// Takes the pending word as a descriptor number when it is one, clearing it.
    fn take_io_number(tk: &mut String) -> (r: Option<usize>)
        ensures
            r == decimal(old(tk)@),
            final(tk)@ == (if r is Some {
                Seq::<char>::empty()
            } else {
                old(tk)@
            }),
    {
        let r = parse_decimal(tk.as_str());
        if r.is_some() {
            *tk = String::new();
        }
        r
    }
}

/// Reads a non-empty run of decimal digits that fits in `usize`.
pub fn parse_decimal(text: &str) -> (r: Option<usize>)
    ensures
        r == decimal(text@),
{
    let ghost s = text@;
    let n = text.unicode_len();
    if n == 0 {
        return None;
    }
    let mut acc: usize = 0;
    let mut i: usize = 0;
    while i < n
        invariant
            n == s.len(),
            s == text@,
            0 <= i <= n,
            forall|k: int| 0 <= k < i ==> is_digit(#[trigger] s[k]),
            acc == digits_value(s.take(i as int)),
        decreases n - i,
    {
        let c = text.get_char(i);
        if !('0' <= c && c <= '9') {
            return None;
        }
        assert(s.take(i + 1).drop_last() =~= s.take(i as int));
        let d = (c as u32 - '0' as u32) as usize;
        match acc.checked_mul(10) {
            Some(m) => match m.checked_add(d) {
                Some(v) => {
                    acc = v;
                },
                None => {
                    proof {
                        if all_digits(s) {
                            lemma_digits_value_grows(s, i + 1);
                        }
                    }
                    return None;
                },
            },
            None => {
                proof {
                    if all_digits(s) {
                        lemma_digits_value_grows(s, i + 1);
                    }
                }
                return None;
            },
        }
        i = i + 1;
    }
    assert(s.take(n as int) =~= s);
    Some(acc)
}

/// Every literal in a token list is non-empty.
pub open spec fn literals_nonempty(out: Seq<Lexeme>) -> bool {
    forall|k: int| 0 <= k < out.len() && (#[trigger] out[k]) is Literal ==> out[k]->Literal_0.len() > 0
}

pub open spec fn has_no_space(w: Seq<char>) -> bool {
    forall|m: int| 0 <= m < w.len() ==> !is_space(#[trigger] w[m])
}

/// No literal in a token list holds a whitespace character.
pub open spec fn literals_without_space(out: Seq<Lexeme>) -> bool {
    forall|k: int| 0 <= k < out.len() && (#[trigger] out[k]) is Literal ==> has_no_space(out[k]->Literal_0)
}

/// Text with no quote and no backslash: every character has its plain meaning.
pub open spec fn unquoted_text(s: Seq<char>) -> bool {
    forall|k: int| #![trigger s[k]] 0 <= k < s.len() ==> s[k] != '\'' && s[k] != '"' && s[k] != '\\'
}

proof fn lemma_run_literals_nonempty(s: Seq<char>, i: int, st: LexState)
    requires
        literals_nonempty(st.out),
    ensures
        literals_nonempty(run(s, i, st).out),
    decreases s.len() - i,
{
    if 0 <= i < s.len() {
        let (j, next) = step(s, i, st);
        assert(literals_nonempty(next.out)) by {
            assert(literals_nonempty(flush(st.word, st.out)));
        }
        if i < j <= s.len() {
            lemma_run_literals_nonempty(s, j, next);
        }
    } else {
        assert(literals_nonempty(flush(st.word, st.out)));
    }
}

/// The lexer never emits an empty literal: runs of unquoted whitespace, however
/// long, give no token of their own.
pub proof fn lemma_literals_never_empty(s: Seq<char>)
    ensures
        literals_nonempty(lex(s).out),
{
    lemma_run_literals_nonempty(s, 0, initial_state());
}

proof fn lemma_flush_without_space(word: Seq<char>, out: Seq<Lexeme>)
    requires
        literals_without_space(out),
        forall|m: int| 0 <= m < word.len() ==> !is_space(#[trigger] word[m]),
    ensures
        literals_without_space(flush(word, out)),
{
    let f = flush(word, out);
    assert forall|k: int| 0 <= k < f.len() && (#[trigger] f[k]) is Literal implies has_no_space(
        f[k]->Literal_0,
    ) by {
        if k < out.len() {
            assert(f[k] == out[k]);
        }
    }
}

proof fn lemma_run_without_space(s: Seq<char>, i: int, st: LexState)
    requires
        unquoted_text(s),
        st.mode == Quote::Unquoted,
        literals_without_space(st.out),
        forall|m: int| 0 <= m < st.word.len() ==> !is_space(#[trigger] st.word[m]),
    ensures
        literals_without_space(run(s, i, st).out),
    decreases s.len() - i,
{
    if 0 <= i < s.len() {
        let c = s[i];
        let (j, next) = step(s, i, st);
        lemma_flush_without_space(st.word, st.out);
        let f = flush(st.word, st.out);
        assert(literals_without_space(next.out)) by {
            if c == '|' || c == '>' {
                let tail = next.out.last();
                assert forall|k: int|
                    0 <= k < next.out.len() && (#[trigger] next.out[k]) is Literal implies has_no_space(
                        next.out[k]->Literal_0,
                    ) by {
                    if k < next.out.len() - 1 {
                        if c == '>' && decimal(st.word) is Some {
                            assert(next.out[k] == st.out[k]);
                        } else {
                            assert(next.out[k] == f[k]);
                        }
                    }
                }
            }
        }
        assert(next.mode == Quote::Unquoted);
        assert forall|m: int| 0 <= m < next.word.len() implies !is_space(#[trigger] next.word[m]) by {
            if m < st.word.len() {
                assert(next.word[m] == st.word[m]);
            }
        }
        if i < j <= s.len() {
            lemma_run_without_space(s, j, next);
        }
    } else {
        lemma_flush_without_space(st.word, st.out);
    }
}

/// On text without quotes or backslashes, whitespace only ever separates
/// literals: no literal holds a whitespace character.
pub proof fn lemma_unquoted_whitespace_separates(s: Seq<char>)
    requires
        unquoted_text(s),
    ensures
        literals_without_space(lex(s).out),
{
    lemma_run_without_space(s, 0, initial_state());
}

/// From the character after an opening single quote up to its closing quote,
/// the lexer appends each character to the pending word unchanged, whatever it
/// is (whitespace, `"`, `|`, `>`, a backslash), and emits nothing.
pub proof fn lemma_single_quoted_verbatim(s: Seq<char>, i: int, j: int, st: LexState)
    requires
        st.mode == Quote::Single,
        0 <= i <= j < s.len(),
        s[j] == '\'',
        forall|k: int| i <= k < j ==> #[trigger] s[k] != '\'',
    ensures
        run(s, i, st) == run(
            s,
            j + 1,
            LexState { mode: Quote::Unquoted, word: st.word + s.subrange(i, j), ..st },
        ),
    decreases j - i,
{
    if i == j {
        assert(st.word + s.subrange(i, j) =~= st.word);
    } else {
        let next = LexState { word: st.word.push(s[i]), ..st };
        lemma_single_quoted_verbatim(s, i + 1, j, next);
        assert(next.word + s.subrange(i + 1, j) =~= st.word + s.subrange(i, j));
    }
}

/// A line that is one single-quoted text gives that text as its only literal.
pub proof fn lemma_single_quoted_line(c: Seq<char>)
    requires
        c.len() > 0,
        forall|k: int| 0 <= k < c.len() ==> #[trigger] c[k] != '\'',
    ensures
        lex(seq!['\''] + c + seq!['\'']).out == seq![Lexeme::Literal(c)],
        lex(seq!['\''] + c + seq!['\'']).mode == Quote::Unquoted,
        !lex(seq!['\''] + c + seq!['\'']).dangling,
{
    let s = seq!['\''] + c + seq!['\''];
    let n = s.len() as int;
    assert(s[0] == '\'');
    assert(s[n - 1] == '\'');
    assert forall|k: int| 1 <= k < n - 1 implies #[trigger] s[k] != '\'' by {
        assert(s[k] == c[k - 1]);
    }
    let st1 = LexState { mode: Quote::Single, ..initial_state() };
    assert(run(s, 0, initial_state()) == run(s, 1, st1));
    lemma_single_quoted_verbatim(s, 1, n - 1, st1);
    assert(s.subrange(1, n - 1) =~= c);
    assert(Seq::<char>::empty() + c =~= c);
    let st2 = LexState { mode: Quote::Unquoted, word: c, ..initial_state() };
    assert(run(s, n, st2).out =~= seq![Lexeme::Literal(c)]);
}

/// Between unquoted whitespace, a single-quoted text is one literal holding
/// exactly the characters between the quotes, whatever surrounds it: the line
/// gives the tokens of what precedes it, that literal, then the tokens of what
/// follows it.
pub proof fn lemma_single_quoted_word(a: Seq<char>, c: Seq<char>, b: Seq<char>, before: char, after: char)
    requires
        is_space(before),
        is_space(after),
        lex(a).mode == Quote::Unquoted,
        !lex(a).dangling,
        c.len() > 0,
        forall|k: int| 0 <= k < c.len() ==> #[trigger] c[k] != '\'',
    ensures
        lex(a + seq![before] + seq!['\''] + c + seq!['\''] + seq![after] + b).out == lex(a).out
            + seq![Lexeme::Literal(c)] + lex(b).out,
{
    let q = seq!['\''] + c + seq!['\''];
    let rest = q + seq![after] + b;
    lemma_single_quoted_line(c);
    lemma_whitespace_splits_line(q, after, b);
    lemma_whitespace_splits_line(a, before, rest);
    assert(a + seq![before] + seq!['\''] + c + seq!['\''] + seq![after] + b =~= a + seq![before]
        + rest);
    assert(lex(a).out + (seq![Lexeme::Literal(c)] + lex(b).out) =~= lex(a).out + seq![
        Lexeme::Literal(c),
    ] + lex(b).out);
}

/// The lexer's run from a position depends only on the text from there on.
pub proof fn lemma_run_depends_on_suffix(s: Seq<char>, i: int, t: Seq<char>, j: int, st: LexState)
    requires
        0 <= i <= s.len(),
        0 <= j <= t.len(),
        s.skip(i) == t.skip(j),
    ensures
        run(s, i, st) == run(t, j, st),
    decreases s.len() - i,
{
    assert(s.len() - i == s.skip(i).len());
    assert(t.len() - j == t.skip(j).len());
    if i < s.len() {
        assert(s[i] == s.skip(i)[0]);
        assert(t[j] == t.skip(j)[0]);
        if i + 1 < s.len() {
            assert(s[i + 1] == s.skip(i)[1]);
            assert(t[j + 1] == t.skip(j)[1]);
        }
        let (a, next_s) = step(s, i, st);
        let (b, next_t) = step(t, j, st);
        assert(a - i == b - j && next_s == next_t);
        assert(s.skip(a) =~= t.skip(b)) by {
            assert forall|k: int| 0 <= k < s.skip(a).len() implies s.skip(a)[k] == t.skip(b)[k] by {
                assert(s.skip(a)[k] == s.skip(i)[k + (a - i)]);
                assert(t.skip(b)[k] == t.skip(j)[k + (b - j)]);
            }
        }
        lemma_run_depends_on_suffix(s, a, t, b, next_s);
    }
}

/// Outside quotes, one more whitespace character next to a whitespace
/// character changes nothing: a run of whitespace counts as one separator.
pub proof fn lemma_whitespace_run_collapses(s: Seq<char>, i: int, st: LexState, c: char)
    requires
        st.mode == Quote::Unquoted,
        0 <= i < s.len(),
        is_space(s[i]),
        is_space(c),
    ensures
        run(s.insert(i, c), i, st) == run(s, i, st),
{
    let s2 = s.insert(i, c);
    assert(s2[i] == c);
    assert(s2[i + 1] == s[i]);
    let st1 = LexState { word: Seq::empty(), out: flush(st.word, st.out), ..st };
    assert(step(s2, i, st) == (i + 1, st1));
    assert(step(s2, i + 1, st1).1 =~= st1) by {
        assert(flush(st1.word, st1.out) == st1.out);
    }
    assert(step(s, i, st) == (i + 1, st1));
    assert(step(s2, i + 1, st1) == (i + 2, st1));
    assert(s2.len() == s.len() + 1);
    assert(run(s2, i, st) == run(s2, i + 1, st1));
    assert(run(s2, i + 1, st1) == run(s2, i + 2, st1));
    assert(run(s, i, st) == run(s, i + 1, st1));
    assert(s2.skip(i + 2) =~= s.skip(i + 1));
    lemma_run_depends_on_suffix(s2, i + 2, s, i + 1, st1);
}

/// The lexer's state after reading `s` from position `i`, before the pending
/// word is emitted at the end of the input.
pub open spec fn walk(s: Seq<char>, i: int, st: LexState) -> LexState
    decreases s.len() - i,
{
    if 0 <= i < s.len() {
        let (j, next) = step(s, i, st);
        if i < j <= s.len() {
            walk(s, j, next)
        } else {
            next
        }
    } else {
        st
    }
}

pub open spec fn finish(st: LexState) -> LexState {
    LexState { word: Seq::empty(), out: flush(st.word, st.out), ..st }
}

proof fn lemma_run_is_walk_then_finish(s: Seq<char>, i: int, st: LexState)
    ensures
        run(s, i, st) == finish(walk(s, i, st)),
    decreases s.len() - i,
{
    if 0 <= i < s.len() {
        lemma_step_advances(s, i, st);
        let (j, next) = step(s, i, st);
        lemma_run_is_walk_then_finish(s, j, next);
    }
}

proof fn lemma_step_advances(s: Seq<char>, i: int, st: LexState)
    ensures
        0 <= i < s.len() ==> i < step(s, i, st).0 <= s.len(),
{
}

proof fn lemma_dangling_stays(s: Seq<char>, i: int, st: LexState)
    requires
        st.dangling,
    ensures
        walk(s, i, st).dangling,
    decreases s.len() - i,
{
    if 0 <= i < s.len() {
        let (j, next) = step(s, i, st);
        lemma_step_advances(s, i, st);
        lemma_dangling_stays(s, j, next);
    }
}

pub open spec fn with_prefix(o: Seq<Lexeme>, st: LexState) -> LexState {
    LexState { out: o + st.out, ..st }
}

proof fn lemma_flush_prefix(o: Seq<Lexeme>, word: Seq<char>, out: Seq<Lexeme>)
    ensures
        flush(word, o + out) == o + flush(word, out),
{
    if word.len() > 0 {
        assert((o + out).push(Lexeme::Literal(word)) =~= o + out.push(Lexeme::Literal(word)));
    }
}

proof fn lemma_step_prefix(s: Seq<char>, i: int, st: LexState, o: Seq<Lexeme>)
    requires
        0 <= i < s.len(),
    ensures
        step(s, i, with_prefix(o, st)) == (step(s, i, st).0, with_prefix(o, step(s, i, st).1)),
{
    lemma_flush_prefix(o, st.word, st.out);
    let f = flush(st.word, st.out);
    assert((o + f).push(Lexeme::Pipe) =~= o + f.push(Lexeme::Pipe));
    let fd: usize = match decimal(st.word) {
        Some(n) => n,
        None => 1,
    };
    assert((o + f).push(Lexeme::Write(fd)) =~= o + f.push(Lexeme::Write(fd)));
    assert((o + f).push(Lexeme::Append(fd)) =~= o + f.push(Lexeme::Append(fd)));
    assert((o + st.out).push(Lexeme::Write(fd)) =~= o + st.out.push(Lexeme::Write(fd)));
    assert((o + st.out).push(Lexeme::Append(fd)) =~= o + st.out.push(Lexeme::Append(fd)));
}

/// Tokens emitted before a position do not change what the lexer emits after it.
proof fn lemma_run_prefix(s: Seq<char>, i: int, st: LexState, o: Seq<Lexeme>)
    ensures
        run(s, i, with_prefix(o, st)) == with_prefix(o, run(s, i, st)),
    decreases s.len() - i,
{
    if 0 <= i < s.len() {
        lemma_step_prefix(s, i, st, o);
        lemma_step_advances(s, i, st);
        let (j, next) = step(s, i, st);
        lemma_run_prefix(s, j, next, o);
    } else {
        lemma_flush_prefix(o, st.word, st.out);
    }
}

proof fn lemma_run_concat(a: Seq<char>, t: Seq<char>, i: int, st: LexState)
    requires
        0 <= i <= a.len(),
        walk(a, i, st).mode == Quote::Unquoted,
        !walk(a, i, st).dangling,
        t.len() > 0,
        is_space(t[0]),
    ensures
        run(a + t, i, st) == run(t, 0, walk(a, i, st)),
    decreases a.len() - i,
{
    let s = a + t;
    if i == a.len() {
        assert(s.skip(i) =~= t.skip(0));
        lemma_run_depends_on_suffix(s, i, t, 0, st);
    } else {
        assert(s[i] == a[i]);
        let (j, next) = step(a, i, st);
        lemma_step_advances(a, i, st);
        if i + 1 < a.len() {
            assert(s[i + 1] == a[i + 1]);
            assert(step(s, i, st) == step(a, i, st));
        } else {
            assert(s[i + 1] == t[0]);
            if st.mode == Quote::Unquoted && a[i] == '\\' {
                assert(next.dangling);
                lemma_dangling_stays(a, j, next);
            } else if st.mode == Quote::Double && a[i] == '\\' {
                assert(next.mode == Quote::Double);
                assert(walk(a, j, next) == next);
            }
            assert(step(s, i, st) == step(a, i, st));
        }
        lemma_run_concat(a, t, j, next);
    }
}

/// Unquoted whitespace splits a line into parts that are tokenized apart: when
/// the lexer ends `a` outside quotes with no backslash left pending, the tokens
/// of `a`, a whitespace character and `b` are those of `a` followed by those of
/// `b`.
pub proof fn lemma_whitespace_splits_line(a: Seq<char>, c: char, b: Seq<char>)
    requires
        is_space(c),
        lex(a).mode == Quote::Unquoted,
        !lex(a).dangling,
    ensures
        lex(a + seq![c] + b).out == lex(a).out + lex(b).out,
        lex(a + seq![c] + b).dangling == lex(b).dangling,
        lex(a + seq![c] + b).mode == lex(b).mode,
{
    let t = seq![c] + b;
    assert(a + seq![c] + b =~= a + t);
    lemma_run_is_walk_then_finish(a, 0, initial_state());
    let w = walk(a, 0, initial_state());
    assert(lex(a) == finish(w));
    lemma_run_concat(a, t, 0, initial_state());
    let w1 = finish(w);
    assert(t[0] == c);
    assert(step(t, 0, w) == (1int, w1));
    assert(run(t, 0, w) == run(t, 1, w1));
    assert(t.skip(1) =~= b.skip(0));
    lemma_run_depends_on_suffix(t, 1, b, 0, w1);
    assert(w1 == with_prefix(lex(a).out, initial_state())) by {
        assert(lex(a).out + Seq::<Lexeme>::empty() =~= lex(a).out);
    }
    lemma_run_prefix(b, 0, initial_state(), lex(a).out);
}

} // verus!
